//! The URL-fragment grammar that carries the decryption key and display
//! hints: a bare base64url key for minimal links, or `key:<base64url>`
//! followed by `!`-delimited tagged segments (`!pw`, `!name:<text>`,
//! `!lang:<text>`).
//!
//! Delimiter characters inside a name or language value are not escaped; a
//! value containing `!` or `:` corrupts the segments after it. This is a
//! known limitation of the grammar, kept for compatibility.

use vstd::prelude::*;
use crate::base64;
use crate::crypto::Key;
use crate::crypto::KEY_LEN;

verus! {

/// The characters of the segment word `key`.
pub open spec fn key_word() -> Seq<char> {
    seq!['k', 'e', 'y']
}

/// The characters of the segment word `pw`.
pub open spec fn pw_word() -> Seq<char> {
    seq!['p', 'w']
}

/// The characters of the segment word `name`.
pub open spec fn name_word() -> Seq<char> {
    seq!['n', 'a', 'm', 'e']
}

/// The characters of the segment word `lang`.
pub open spec fn lang_word() -> Seq<char> {
    seq!['l', 'a', 'n', 'g']
}

/// The characters `key:`, whose presence anywhere selects the tagged grammar.
pub open spec fn key_marker() -> Seq<char> {
    seq!['k', 'e', 'y', ':']
}

/// Index of the first occurrence of `c` in `s`, or -1 when `c` does not
/// occur.
pub open spec fn find_char(s: Seq<char>, c: char) -> int
    decreases s.len(),
{
    if s.len() == 0 {
        -1
    } else if s[0] == c {
        0
    } else {
        let r = find_char(s.skip(1), c);
        if r == -1 {
            -1
        } else {
            r + 1
        }
    }
}

/// `find_char` returns exactly the first occurrence, or -1 when there is
/// none.
pub proof fn lemma_find_char(s: Seq<char>, c: char)
    ensures
        find_char(s, c) == -1 ==> forall|i: int| 0 <= i < s.len() ==> s[i] != c,
        find_char(s, c) != -1 ==> 0 <= find_char(s, c) < s.len() && s[find_char(s, c)] == c
            && forall|i: int| 0 <= i < find_char(s, c) ==> s[i] != c,
    decreases s.len(),
{
    if s.len() == 0 {
    } else if s[0] == c {
    } else {
        lemma_find_char(s.skip(1), c);
        let r = find_char(s.skip(1), c);
        if r != -1 {
            assert(s[r + 1] == s.skip(1)[r]);
            assert forall|i: int| 0 <= i < r + 1 implies s[i] != c by {
                if i >= 1 {
                    assert(s[i] == s.skip(1)[i - 1]);
                }
            }
        } else {
            assert forall|i: int| 0 <= i < s.len() implies s[i] != c by {
                if i >= 1 {
                    assert(s[i] == s.skip(1)[i - 1]);
                }
            }
        }
    }
}

/// The first occurrence pins `find_char`: knowing where `c` first stands (or
/// that it does not occur) gives the value of `find_char`.
pub proof fn lemma_find_char_at(s: Seq<char>, c: char, i: int)
    requires
        0 <= i < s.len(),
        s[i] == c,
        forall|j: int| 0 <= j < i ==> s[j] != c,
    ensures
        find_char(s, c) == i,
{
    lemma_find_char(s, c);
    if find_char(s, c) == -1 {
    } else if find_char(s, c) < i {
    } else if find_char(s, c) > i {
    }
}

/// When `c` does not occur, `find_char` says so.
pub proof fn lemma_find_char_none(s: Seq<char>, c: char)
    requires
        forall|j: int| 0 <= j < s.len() ==> s[j] != c,
    ensures
        find_char(s, c) == -1,
{
    lemma_find_char(s, c);
}

/// The segments of `s`, split on `sep`; the separators themselves are
/// dropped, and an empty string yields one empty segment.
pub open spec fn split_char(s: Seq<char>, sep: char) -> Seq<Seq<char>>
    decreases s.len(),
{
    let i = find_char(s, sep);
    if 0 <= i && i < s.len() {
        seq![s.take(i)] + split_char(s.skip(i + 1), sep)
    } else {
        seq![s]
    }
}

/// The word of a segment: everything before its first `:`, or the whole
/// segment when it has none.
pub open spec fn seg_key(seg: Seq<char>) -> Seq<char> {
    let i = find_char(seg, ':');
    if 0 <= i && i < seg.len() {
        seg.take(i)
    } else {
        seg
    }
}

/// The value of a segment: the text between its first and second `:` (or its
/// end), or nothing when it has no `:` at all.
pub open spec fn seg_value(seg: Seq<char>) -> Option<Seq<char>> {
    let i = find_char(seg, ':');
    if 0 <= i && i < seg.len() {
        let rest = seg.skip(i + 1);
        let j = find_char(rest, ':');
        if 0 <= j && j < rest.len() {
            Some(rest.take(j))
        } else {
            Some(rest)
        }
    } else {
        None
    }
}

/// A parsed fragment, at the specification level: raw key bytes, the
/// password flag, and the optional display hints.
#[verifier::ext_equal]
pub ghost struct FragSpec {
    pub key: Option<Seq<u8>>,
    pub needs_password: bool,
    pub name: Option<Seq<char>>,
    pub language: Option<Seq<char>>,
}

/// The record all of whose fields are empty.
pub open spec fn empty_record() -> FragSpec {
    FragSpec { key: None, needs_password: false, name: None, language: None }
}

/// One segment applied to the record built so far. An unrecognized word or a
/// missing value is ignored; a `key` value that does not decode to exactly
/// the key length is an error.
pub open spec fn apply_segment(acc: FragSpec, seg: Seq<char>) -> Option<FragSpec> {
    let k = seg_key(seg);
    let v = seg_value(seg);
    if k == key_word() {
        match v {
            Some(vs) => match base64::decode_spec(vs) {
                Some(bytes) => if bytes.len() == KEY_LEN {
                    Some(FragSpec { key: Some(bytes), ..acc })
                } else {
                    None
                },
                None => None,
            },
            None => Some(acc),
        }
    } else if k == pw_word() {
        Some(FragSpec { needs_password: true, ..acc })
    } else if k == name_word() {
        match v {
            Some(vs) => Some(FragSpec { name: Some(vs), ..acc }),
            None => Some(acc),
        }
    } else if k == lang_word() {
        match v {
            Some(vs) => Some(FragSpec { language: Some(vs), ..acc }),
            None => Some(acc),
        }
    } else {
        Some(acc)
    }
}

/// All segments applied in order, stopping at the first error.
pub open spec fn fold_segments(acc: FragSpec, segs: Seq<Seq<char>>) -> Option<FragSpec>
    decreases segs.len(),
{
    if segs.len() == 0 {
        Some(acc)
    } else {
        match apply_segment(acc, segs[0]) {
            Some(acc2) => fold_segments(acc2, segs.skip(1)),
            None => None,
        }
    }
}

/// Whether the literal characters `key:` stand at position `i` of `s`.
pub open spec fn key_marker_at(s: Seq<char>, i: int) -> bool {
    0 <= i && i + 4 <= s.len() && s.subrange(i, i + 4) == key_marker()
}

/// Whether the literal characters `key:` occur anywhere in `s`.
pub open spec fn contains_key_marker(s: Seq<char>) -> bool {
    exists|i: int| #[trigger] key_marker_at(s, i)
}

/// What parsing a fragment returns. Without the `key:` marker the whole
/// string is a bare base64url key (a key of the wrong length is dropped, not
/// an error, on this compatibility path); with it, the string is split on `!`
/// and each segment is interpreted.
pub open spec fn parse_spec(s: Seq<char>) -> Option<FragSpec> {
    if !contains_key_marker(s) {
        match base64::decode_spec(s) {
            Some(bytes) => Some(
                FragSpec {
                    key: if bytes.len() == KEY_LEN {
                        Some(bytes)
                    } else {
                        None
                    },
                    needs_password: false,
                    name: None,
                    language: None,
                },
            ),
            None => None,
        }
    } else {
        fold_segments(empty_record(), split_char(s, '!'))
    }
}

/// Why a fragment failed to parse.
#[derive(Debug, PartialEq, Eq, Structural)]
pub enum PartialParsedUrlParseError {
    /// The key was not valid base64url of exactly the key length.
    InvalidDecryptionKey,
}

/// A parsed fragment: the decryption key if one was recognized, whether the
/// paste needs a password, and the optional display hints.
#[derive(Debug)]
pub struct PartialParsedUrl {
    pub decryption_key: Option<Key>,
    pub needs_password: bool,
    pub name: Option<String>,
    pub language: Option<String>,
}

impl View for PartialParsedUrl {
    type V = FragSpec;

    open spec fn view(&self) -> FragSpec {
        FragSpec {
            key: match self.decryption_key {
                Some(k) => Some(k@),
                None => None,
            },
            needs_password: self.needs_password,
            name: match self.name {
                Some(n) => Some(n@),
                None => None,
            },
            language: match self.language {
                Some(l) => Some(l@),
                None => None,
            },
        }
    }
}

impl Default for PartialParsedUrl {
    /// The record with no key, no password and no hints.
    fn default() -> (r: Self)
        ensures
            r@ == empty_record(),
    {
        PartialParsedUrl { decryption_key: None, needs_password: false, name: None, language: None }
    }
}

impl PartialEq for PartialParsedUrl {
    /// Field-by-field comparison; keys compare by their bytes.
    fn eq(&self, other: &Self) -> (r: bool) {
        let key_eq = match (&self.decryption_key, &other.decryption_key) {
            (Some(a), Some(b)) => a == b,
            (None, None) => true,
            _ => false,
        };
        let name_eq = match (&self.name, &other.name) {
            (Some(a), Some(b)) => *a == *b,
            (None, None) => true,
            _ => false,
        };
        let lang_eq = match (&self.language, &other.language) {
            (Some(a), Some(b)) => *a == *b,
            (None, None) => true,
            _ => false,
        };
        let r = key_eq && self.needs_password == other.needs_password && name_eq && lang_eq;
        proof {
            assert(key_eq == (self@.key == other@.key)) by {
                if self.decryption_key is Some && other.decryption_key is Some {
                    assert(self@.key == Some(self.decryption_key->0@));
                    assert(other@.key == Some(other.decryption_key->0@));
                }
            }
            assert(name_eq == (self@.name == other@.name)) by {
                if self.name is Some && other.name is Some {
                    assert(self@.name == Some(self.name->0@));
                    assert(other@.name == Some(other.name->0@));
                }
            }
            assert(lang_eq == (self@.language == other@.language)) by {
                if self.language is Some && other.language is Some {
                    assert(self@.language == Some(self.language->0@));
                    assert(other@.language == Some(other.language->0@));
                }
            }
            if r {
                assert(self@ =~= other@);
            }
        }
        r
    }
}

impl vstd::std_specs::cmp::PartialEqSpecImpl for PartialParsedUrl {
    open spec fn obeys_eq_spec() -> bool {
        true
    }

    open spec fn eq_spec(&self, other: &Self) -> bool {
        self@ == other@
    }
}

impl Eq for PartialParsedUrl {}

/// Whether the characters `key:` occur anywhere in the fragment.
fn has_key_marker(s: &str) -> (r: bool)
    ensures
        r == contains_key_marker(s@),
{
    let n = s.unicode_len();
    let mut i: usize = 0;
    while n - i >= 4
        invariant
            i <= n,
            n == s@.len(),
            forall|j: int| 0 <= j < i ==> !#[trigger] key_marker_at(s@, j),
        decreases n - i,
    {
        if s.get_char(i) == 'k' && s.get_char(i + 1) == 'e' && s.get_char(i + 2) == 'y'
            && s.get_char(i + 3) == ':' {
            proof {
                assert(s@.subrange(i as int, i as int + 4) =~= key_marker());
                assert(key_marker_at(s@, i as int));
            }
            return true;
        }
        proof {
            let gi = i as int;
            assert(!key_marker_at(s@, gi)) by {
                if s@.subrange(gi, gi + 4) == key_marker() {
                    assert(s@.subrange(gi, gi + 4)[0] == s@[gi]);
                    assert(s@.subrange(gi, gi + 4)[1] == s@[gi + 1]);
                    assert(s@.subrange(gi, gi + 4)[2] == s@[gi + 2]);
                    assert(s@.subrange(gi, gi + 4)[3] == s@[gi + 3]);
                }
            }
        }
        i = i + 1;
    }
    proof {
        assert forall|j: int| !#[trigger] key_marker_at(s@, j) by {
            if 0 <= j && j + 4 <= s@.len() {
                assert(j < i);
            }
        }
    }
    false
}

impl PartialParsedUrl {
    /// Parses a fragment string: a bare base64url key, or `key:<base64url>`
    /// with `!`-delimited `pw`, `name:` and `lang:` segments in any order.
    /// Unrecognized or empty segments are ignored; a key that is not valid
    /// base64url of exactly the key length is an error.
    pub fn try_from_str(fragment: &str) -> (r: Result<
        PartialParsedUrl,
        PartialParsedUrlParseError,
    >)
        ensures
            r matches Ok(rec) ==> parse_spec(fragment@) == Some(rec@),
            r is Err ==> parse_spec(fragment@) is None && r == Err::<
                PartialParsedUrl,
                PartialParsedUrlParseError,
            >(PartialParsedUrlParseError::InvalidDecryptionKey),
    {
        let ghost s = fragment@;
        if !has_key_marker(fragment) {
            return match base64::decode(fragment) {
                Err(_) => Err(PartialParsedUrlParseError::InvalidDecryptionKey),
                Ok(bytes) => {
                    let ghost bv = bytes@;
                    let rec = PartialParsedUrl {
                        decryption_key: Key::new_secret(bytes),
                        needs_password: false,
                        name: None,
                        language: None,
                    };
                    proof {
                        if bv.len() == KEY_LEN {
                            assert(rec@.key == Some(bv));
                        } else {
                            assert(rec@.key is None);
                        }
                        assert(rec@ =~= parse_spec(s)->0);
                    }
                    Ok(rec)
                },
            };
        }
        let n = fragment.unicode_len();
        let mut acc = PartialParsedUrl {
            decryption_key: None,
            needs_password: false,
            name: None,
            language: None,
        };
        let mut pos: usize = 0;
        proof {
            assert(s.skip(0) =~= s);
            assert(acc@ =~= empty_record());
        }
        loop
            invariant_except_break
                pos <= n,
                n == s.len(),
                s == fragment@,
                contains_key_marker(s),
                fold_segments(empty_record(), split_char(s, '!')) == fold_segments(
                    acc@,
                    split_char(s.skip(pos as int), '!'),
                ),
            ensures
                fold_segments(empty_record(), split_char(s, '!')) == Some(acc@),
                s == fragment@,
                contains_key_marker(s),
            decreases n - pos,
        {
            let ghost acc0 = acc@;
            let mut e: usize = pos;
            while e < n && fragment.get_char(e) != '!'
                invariant
                    pos <= e <= n,
                    n == s.len(),
                    s == fragment@,
                    forall|j: int| pos <= j < e ==> s[j] != '!',
                decreases n - e,
            {
                e = e + 1;
            }
            proof {
                lemma_split_step(s, '!', pos as int, e as int);
            }
            let ghost seg = s.subrange(pos as int, e as int);
            let ghost rest_segs = split_char(s.skip(e as int + 1), '!');
            proof {
                if e < n {
                    assert(split_char(s.skip(pos as int), '!') == seq![seg] + rest_segs);
                    assert((seq![seg] + rest_segs)[0] == seg);
                    assert((seq![seg] + rest_segs).skip(1) =~= rest_segs);
                } else {
                    assert(split_char(s.skip(pos as int), '!') == seq![seg]);
                    assert(seq![seg][0] == seg);
                    assert(seq![seg].skip(1) =~= Seq::<Seq<char>>::empty());
                }
            }
            // Find the first and second colon of the segment.
            let mut c1: usize = pos;
            while c1 < e && fragment.get_char(c1) != ':'
                invariant
                    pos <= c1 <= e <= n,
                    n == s.len(),
                    s == fragment@,
                    forall|j: int| pos <= j < c1 ==> s[j] != ':',
                decreases e - c1,
            {
                c1 = c1 + 1;
            }
            if c1 == e {
                proof {
                    lemma_seg_kv(s, pos as int, e as int, e as int, e as int);
                }
                // No value: only a bare `pw` word changes anything.
                let is_pw = e - pos == 2 && fragment.get_char(pos) == 'p' && fragment.get_char(
                    pos + 1,
                ) == 'w';
                proof {
                    assert(seg.len() == e - pos);
                    if is_pw {
                        assert(seg =~= pw_word()) by {
                            assert(seg[0] == s[pos as int] && seg[1] == s[pos as int + 1]);
                        }
                    } else {
                        assert(seg != pw_word()) by {
                            if seg == pw_word() {
                                assert(s[pos as int] == seg[0] && s[pos as int + 1] == seg[1]);
                            }
                        }
                    }
                }
                if is_pw {
                    acc.needs_password = true;
                }
                proof {
                    assert(seg_value(seg) is None);
                    assert(apply_segment(acc0, seg) == Some(acc@)) by {
                        if is_pw {
                            assert(acc@ =~= FragSpec { needs_password: true, ..acc0 });
                        }
                    }
                }
            } else {
                let mut c2: usize = c1 + 1;
                while c2 < e && fragment.get_char(c2) != ':'
                    invariant
                        c1 + 1 <= c2 <= e <= n,
                        n == s.len(),
                        s == fragment@,
                        forall|j: int| c1 + 1 <= j < c2 ==> s[j] != ':',
                    decreases e - c2,
                {
                    c2 = c2 + 1;
                }
                proof {
                    lemma_seg_kv(s, pos as int, c1 as int, c2 as int, e as int);
                }
                let ghost kw = s.subrange(pos as int, c1 as int);
                let ghost vw = s.subrange(c1 as int + 1, c2 as int);
                let klen = c1 - pos;
                let is_key = klen == 3 && fragment.get_char(pos) == 'k' && fragment.get_char(
                    pos + 1,
                ) == 'e' && fragment.get_char(pos + 2) == 'y';
                let is_pw = klen == 2 && fragment.get_char(pos) == 'p' && fragment.get_char(pos + 1)
                    == 'w';
                let is_name = klen == 4 && fragment.get_char(pos) == 'n' && fragment.get_char(
                    pos + 1,
                ) == 'a' && fragment.get_char(pos + 2) == 'm' && fragment.get_char(pos + 3) == 'e';
                let is_lang = klen == 4 && fragment.get_char(pos) == 'l' && fragment.get_char(
                    pos + 1,
                ) == 'a' && fragment.get_char(pos + 2) == 'n' && fragment.get_char(pos + 3) == 'g';
                proof {
                    assert(kw.len() == klen);
                    assert(forall|j: int|
                        0 <= j < kw.len() ==> #[trigger] kw[j] == s[pos as int + j]);
                    assert(is_key == (kw == key_word())) by {
                        if kw == key_word() {
                            assert(kw[0] == 'k' && kw[1] == 'e' && kw[2] == 'y');
                        }
                        if is_key {
                            assert(kw =~= key_word());
                        }
                    }
                    assert(is_pw == (kw == pw_word())) by {
                        if kw == pw_word() {
                            assert(kw[0] == 'p' && kw[1] == 'w');
                        }
                        if is_pw {
                            assert(kw =~= pw_word());
                        }
                    }
                    assert(is_name == (kw == name_word())) by {
                        if kw == name_word() {
                            assert(kw[0] == 'n' && kw[1] == 'a' && kw[2] == 'm' && kw[3] == 'e');
                        }
                        if is_name {
                            assert(kw =~= name_word());
                        }
                    }
                    assert(is_lang == (kw == lang_word())) by {
                        if kw == lang_word() {
                            assert(kw[0] == 'l' && kw[1] == 'a' && kw[2] == 'n' && kw[3] == 'g');
                        }
                        if is_lang {
                            assert(kw =~= lang_word());
                        }
                    }
                }
                if is_key {
                    let vstr = fragment.substring_char(c1 + 1, c2);
                    match base64::decode(vstr) {
                        Err(_) => {
                            proof {
                                assert(apply_segment(acc0, seg) is None);
                            }
                            return Err(PartialParsedUrlParseError::InvalidDecryptionKey);
                        },
                        Ok(bytes) => {
                            if bytes.len() == KEY_LEN {
                                let ghost bv = bytes@;
                                acc.decryption_key = Key::new_secret(bytes);
                                proof {
                                    assert(acc@ =~= FragSpec { key: Some(bv), ..acc0 });
                                }
                            } else {
                                proof {
                                    assert(apply_segment(acc0, seg) is None);
                                }
                                return Err(PartialParsedUrlParseError::InvalidDecryptionKey);
                            }
                        },
                    }
                } else if is_pw {
                    acc.needs_password = true;
                    proof {
                        assert(acc@ =~= FragSpec { needs_password: true, ..acc0 });
                    }
                } else if is_name {
                    let v = String::from_str(fragment.substring_char(c1 + 1, c2));
                    acc.name = Some(v);
                    proof {
                        assert(acc@ =~= FragSpec { name: Some(vw), ..acc0 });
                    }
                } else if is_lang {
                    let v = String::from_str(fragment.substring_char(c1 + 1, c2));
                    acc.language = Some(v);
                    proof {
                        assert(acc@ =~= FragSpec { language: Some(vw), ..acc0 });
                    }
                }
                proof {
                    assert(apply_segment(acc0, seg) == Some(acc@));
                }
            }
            if e == n {
                proof {
                    assert(fold_segments(acc@, Seq::<Seq<char>>::empty()) == Some(acc@));
                }
                break ;
            }
            pos = e + 1;
        }
        proof {
            assert(parse_spec(s) == Some(acc@));
        }
        Ok(acc)
    }
}

/// One step of splitting: a scanned stretch without the separator, ended by
/// the separator or the end of the string, is the next segment.
proof fn lemma_split_step(s: Seq<char>, sep: char, pos: int, e: int)
    requires
        0 <= pos <= e <= s.len(),
        forall|j: int| pos <= j < e ==> s[j] != sep,
        e < s.len() ==> s[e] == sep,
    ensures
        e < s.len() ==> split_char(s.skip(pos), sep) == seq![s.subrange(pos, e)] + split_char(
            s.skip(e + 1),
            sep,
        ),
        e == s.len() ==> split_char(s.skip(pos), sep) == seq![s.subrange(pos, e)],
{
    let t = s.skip(pos);
    if e < s.len() {
        assert forall|j: int| 0 <= j < e - pos implies t[j] != sep by {
            assert(t[j] == s[pos + j]);
        }
        assert(t[e - pos] == s[e]);
        lemma_find_char_at(t, sep, e - pos);
        assert(t.take(e - pos) =~= s.subrange(pos, e));
        assert(t.skip(e - pos + 1) =~= s.skip(e + 1));
    } else {
        assert forall|j: int| 0 <= j < t.len() implies t[j] != sep by {
            assert(t[j] == s[pos + j]);
        }
        lemma_find_char_none(t, sep);
        assert(t =~= s.subrange(pos, e));
    }
}

/// The word and value of the segment `s[pos..e)`, given where its first and
/// second `:` stand (`c1` or `e` if none; `c2` or `e` if none after `c1`).
proof fn lemma_seg_kv(s: Seq<char>, pos: int, c1: int, c2: int, e: int)
    requires
        0 <= pos <= c1 <= e <= s.len(),
        c1 < e ==> c1 < c2 <= e,
        forall|j: int| pos <= j < c1 ==> s[j] != ':',
        c1 < e ==> s[c1] == ':',
        c1 < e ==> forall|j: int| c1 + 1 <= j < c2 ==> s[j] != ':',
        c1 < e && c2 < e ==> s[c2] == ':',
    ensures
        c1 == e ==> seg_key(s.subrange(pos, e)) == s.subrange(pos, e),
        c1 == e ==> seg_value(s.subrange(pos, e)) is None,
        c1 < e ==> seg_key(s.subrange(pos, e)) == s.subrange(pos, c1),
        c1 < e ==> seg_value(s.subrange(pos, e)) == Some(s.subrange(c1 + 1, c2)),
{
    let seg = s.subrange(pos, e);
    if c1 == e {
        assert forall|j: int| 0 <= j < seg.len() implies seg[j] != ':' by {
            assert(seg[j] == s[pos + j]);
        }
        lemma_find_char_none(seg, ':');
    } else {
        assert forall|j: int| 0 <= j < c1 - pos implies seg[j] != ':' by {
            assert(seg[j] == s[pos + j]);
        }
        assert(seg[c1 - pos] == s[c1]);
        lemma_find_char_at(seg, ':', c1 - pos);
        assert(seg.take(c1 - pos) =~= s.subrange(pos, c1));
        let rest = seg.skip(c1 - pos + 1);
        assert(rest =~= s.subrange(c1 + 1, e));
        if c2 < e {
            assert forall|j: int| 0 <= j < c2 - (c1 + 1) implies rest[j] != ':' by {
                assert(rest[j] == s[c1 + 1 + j]);
            }
            assert(rest[c2 - (c1 + 1)] == s[c2]);
            lemma_find_char_at(rest, ':', c2 - (c1 + 1));
            assert(rest.take(c2 - (c1 + 1)) =~= s.subrange(c1 + 1, c2));
        } else {
            assert forall|j: int| 0 <= j < rest.len() implies rest[j] != ':' by {
                assert(rest[j] == s[c1 + 1 + j]);
            }
            lemma_find_char_none(rest, ':');
            assert(rest =~= s.subrange(c1 + 1, c2));
        }
    }
}

/// Why a full paste URL could not be interpreted.
#[derive(Debug, PartialEq, Eq, Structural)]
pub enum ParseUrlError {
    /// The URL itself was malformed.
    BadUrl,
    /// The URL carried no decryption key.
    NeedKey,
    /// The fragment's key was not valid.
    InvalidKey(PartialParsedUrlParseError),
}

/// The fragment's part of interpreting a full paste URL: an empty fragment
/// or one without a key yields `NeedKey`; a malformed key is passed through;
/// otherwise the decryption key and the password flag come back.
pub fn parse_url_fragment(fragment: &str) -> (r: Result<(Key, bool), ParseUrlError>)
    ensures
        fragment@.len() == 0 ==> r == Err::<(Key, bool), ParseUrlError>(ParseUrlError::NeedKey),
        fragment@.len() > 0 ==> match parse_spec(fragment@) {
            None => r == Err::<(Key, bool), ParseUrlError>(
                ParseUrlError::InvalidKey(PartialParsedUrlParseError::InvalidDecryptionKey),
            ),
            Some(rec) => match rec.key {
                None => r == Err::<(Key, bool), ParseUrlError>(ParseUrlError::NeedKey),
                Some(kb) => r matches Ok(p) && p.0@ == kb && p.1 == rec.needs_password,
            },
        },
{
    if fragment.unicode_len() == 0 {
        return Err(ParseUrlError::NeedKey);
    }
    match PartialParsedUrl::try_from_str(fragment) {
        Err(e) => Err(ParseUrlError::InvalidKey(e)),
        Ok(rec) => match rec.decryption_key {
            None => Err(ParseUrlError::NeedKey),
            Some(key) => Ok((key, rec.needs_password)),
        },
    }
}

impl core::str::FromStr for PartialParsedUrl {
    type Err = PartialParsedUrlParseError;

    fn from_str(s: &str) -> Result<Self, Self::Err> {
        PartialParsedUrl::try_from_str(s)
    }
}

/// The characters `!pw`.
pub open spec fn pw_tag() -> Seq<char> {
    seq!['!', 'p', 'w']
}

/// The characters `!name:`.
pub open spec fn name_tag() -> Seq<char> {
    seq!['!', 'n', 'a', 'm', 'e', ':']
}

/// The characters `!lang:`.
pub open spec fn lang_tag() -> Seq<char> {
    seq!['!', 'l', 'a', 'n', 'g', ':']
}

/// What building a fragment produces: the bare key text when nothing else is
/// set, else `key:` and the key followed by the set segments in a fixed
/// order.
pub open spec fn build_spec(
    key: Seq<char>,
    pw: bool,
    name: Option<Seq<char>>,
    lang: Option<Seq<char>>,
) -> Seq<char> {
    if !pw && name is None && lang is None {
        key
    } else {
        key_marker() + key + (if pw {
            pw_tag()
        } else {
            Seq::empty()
        }) + (match name {
            Some(nm) => name_tag() + nm,
            None => Seq::empty(),
        }) + (match lang {
            Some(l) => lang_tag() + l,
            None => Seq::empty(),
        })
    }
}

/// Assembles a fragment from the already-encoded key text and the flags, in
/// the fixed order `key` then `pw` then `name` then `lang`.
pub struct Builder {
    decryption_key: String,
    needs_password: bool,
    file_name: Option<String>,
    language: Option<String>,
}

impl View for Builder {
    type V = (Seq<char>, bool, Option<Seq<char>>, Option<Seq<char>>);

    closed spec fn view(&self) -> (Seq<char>, bool, Option<Seq<char>>, Option<Seq<char>>) {
        (
            self.decryption_key@,
            self.needs_password,
            match self.file_name {
                Some(n) => Some(n@),
                None => None,
            },
            match self.language {
                Some(l) => Some(l@),
                None => None,
            },
        )
    }
}

impl Builder {
    /// Starts from the encoded key text, with no password and no hints.
    pub fn new(decryption_key: String) -> (r: Builder)
        ensures
            r@ == (decryption_key@, false, None::<Seq<char>>, None::<Seq<char>>),
    {
        Builder { decryption_key, needs_password: false, file_name: None, language: None }
    }

    /// Marks the paste as needing a password.
    pub fn needs_password(self) -> (r: Builder)
        ensures
            r@ == (self@.0, true, self@.2, self@.3),
    {
        Builder { needs_password: true, ..self }
    }

    /// Sets the file-name hint.
    pub fn file_name(self, name: String) -> (r: Builder)
        ensures
            r@ == (self@.0, self@.1, Some(name@), self@.3),
    {
        Builder { file_name: Some(name), ..self }
    }

    /// Sets the language hint.
    pub fn language(self, language: String) -> (r: Builder)
        ensures
            r@ == (self@.0, self@.1, self@.2, Some(language@)),
    {
        Builder { language: Some(language), ..self }
    }

    /// The finished fragment.
    pub fn build(self) -> (r: String)
        ensures
            r@ == build_spec(self@.0, self@.1, self@.2, self@.3),
    {
        let ghost v = self@;
        if !self.needs_password && self.file_name.is_none() && self.language.is_none() {
            return self.decryption_key;
        }
        let mut out = String::from_str("key:");
        proof {
            reveal_strlit("key:");
            assert(out@ =~= key_marker());
        }
        out.append(self.decryption_key.as_str());
        if self.needs_password {
            out.append("!pw");
            proof {
                reveal_strlit("!pw");
                assert("!pw"@ =~= pw_tag());
            }
        }
        match &self.file_name {
            Some(name) => {
                out.append("!name:");
                out.append(name.as_str());
                proof {
                    reveal_strlit("!name:");
                    assert("!name:"@ =~= name_tag());
                }
            },
            None => {},
        }
        match &self.language {
            Some(language) => {
                out.append("!lang:");
                out.append(language.as_str());
                proof {
                    reveal_strlit("!lang:");
                    assert("!lang:"@ =~= lang_tag());
                }
            },
            None => {},
        }
        proof {
            assert(out@ =~= build_spec(v.0, v.1, v.2, v.3));
        }
        out
    }
}

/// Joining a two-segment list.
proof fn lemma_join2(a: Seq<char>, b: Seq<char>, sep: char)
    ensures
        join_char(seq![a, b], sep) == a + seq![sep] + b,
{
    assert(seq![a, b].skip(1) =~= seq![b]);
    assert(join_char(seq![b], sep) == b);
}

/// Joining a three-segment list.
proof fn lemma_join3(a: Seq<char>, b: Seq<char>, c: Seq<char>, sep: char)
    ensures
        join_char(seq![a, b, c], sep) == a + seq![sep] + (b + seq![sep] + c),
{
    assert(seq![a, b, c].skip(1) =~= seq![b, c]);
    lemma_join2(b, c, sep);
}

/// Joining a four-segment list.
proof fn lemma_join4(a: Seq<char>, b: Seq<char>, c: Seq<char>, d: Seq<char>, sep: char)
    ensures
        join_char(seq![a, b, c, d], sep) == a + seq![sep] + (b + seq![sep] + (c + seq![sep] + d)),
{
    assert(seq![a, b, c, d].skip(1) =~= seq![b, c, d]);
    lemma_join3(b, c, d, sep);
}

/// The segments joined with the separator between them.
pub open spec fn join_char(parts: Seq<Seq<char>>, sep: char) -> Seq<char>
    decreases parts.len(),
{
    if parts.len() <= 1 {
        if parts.len() == 1 {
            parts[0]
        } else {
            Seq::empty()
        }
    } else {
        parts[0] + seq![sep] + join_char(parts.skip(1), sep)
    }
}

/// Splitting inverts joining, as long as no segment contains the separator.
pub proof fn lemma_split_join(parts: Seq<Seq<char>>, sep: char)
    requires
        parts.len() >= 1,
        forall|i: int, j: int|
            0 <= i < parts.len() && 0 <= j < parts[i].len() ==> #[trigger] parts[i][j] != sep,
    ensures
        split_char(join_char(parts, sep), sep) == parts,
    decreases parts.len(),
{
    let s = join_char(parts, sep);
    if parts.len() == 1 {
        assert(s == parts[0]);
        assert forall|j: int| 0 <= j < s.len() implies s[j] != sep by {
            assert(parts[0][j] != sep);
        }
        lemma_find_char_none(s, sep);
        assert(split_char(s, sep) =~= parts);
    } else {
        let head = parts[0];
        let rest = join_char(parts.skip(1), sep);
        assert(s == head + seq![sep] + rest);
        assert forall|j: int| 0 <= j < head.len() implies s[j] != sep by {
            assert(s[j] == head[j]);
            assert(parts[0][j] != sep);
        }
        assert(s[head.len() as int] == sep);
        lemma_split_step(s, sep, 0, head.len() as int);
        assert(s.skip(0) =~= s);
        assert(s.subrange(0, head.len() as int) =~= head);
        assert(s.skip(head.len() as int + 1) =~= rest);
        assert forall|i: int, j: int|
            0 <= i < parts.skip(1).len() && 0 <= j < parts.skip(1)[i].len() implies #[trigger] parts
            .skip(1)[i][j] != sep by {
            assert(parts.skip(1)[i] == parts[i + 1]);
        }
        lemma_split_join(parts.skip(1), sep);
        assert(split_char(s, sep) == seq![head] + parts.skip(1));
        assert(seq![head] + parts.skip(1) =~= parts);
    }
}

/// Folding over concatenated segment lists is folding over one, then the
/// other.
pub proof fn lemma_fold_append(acc: FragSpec, xs: Seq<Seq<char>>, ys: Seq<Seq<char>>)
    ensures
        fold_segments(acc, xs + ys) == match fold_segments(acc, xs) {
            Some(a) => fold_segments(a, ys),
            None => None,
        },
    decreases xs.len(),
{
    if xs.len() == 0 {
        assert(xs + ys =~= ys);
    } else {
        assert((xs + ys)[0] == xs[0]);
        match apply_segment(acc, xs[0]) {
            Some(acc2) => {
                assert((xs + ys).skip(1) =~= xs.skip(1) + ys);
                lemma_fold_append(acc2, xs.skip(1), ys);
            },
            None => {},
        }
    }
}

/// A lone `pw` segment sets the password flag and nothing else.
proof fn lemma_apply_pw(acc: FragSpec)
    ensures
        apply_segment(acc, pw_word()) == Some(FragSpec { needs_password: true, ..acc }),
{
    lemma_find_char_none(pw_word(), ':');
}

/// A `name:` segment sets the name, as long as the value has no `:`.
proof fn lemma_apply_name(acc: FragSpec, nm: Seq<char>)
    requires
        forall|j: int| 0 <= j < nm.len() ==> nm[j] != ':',
    ensures
        apply_segment(acc, name_word() + seq![':'] + nm) == Some(FragSpec { name: Some(nm), ..acc }),
{
    let seg = name_word() + seq![':'] + nm;
    lemma_find_char_at(seg, ':', 4);
    assert(seg.take(4) =~= name_word());
    let rest = seg.skip(5);
    assert(rest =~= nm);
    lemma_find_char_none(rest, ':');
    assert(seg_value(seg) == Some(nm));
    assert(name_word() != key_word());
    assert(name_word() != pw_word());
}

/// A `lang:` segment sets the language, as long as the value has no `:`.
proof fn lemma_apply_lang(acc: FragSpec, l: Seq<char>)
    requires
        forall|j: int| 0 <= j < l.len() ==> l[j] != ':',
    ensures
        apply_segment(acc, lang_word() + seq![':'] + l) == Some(
            FragSpec { language: Some(l), ..acc },
        ),
{
    let seg = lang_word() + seq![':'] + l;
    lemma_find_char_at(seg, ':', 4);
    assert(seg.take(4) =~= lang_word());
    let rest = seg.skip(5);
    assert(rest =~= l);
    lemma_find_char_none(rest, ':');
    assert(seg_value(seg) == Some(l));
    assert(lang_word() != key_word());
    assert(lang_word() != pw_word());
    assert(lang_word() != name_word());
}

/// A `key:` segment carrying the encoding of a full-length key sets the key.
proof fn lemma_apply_key(acc: FragSpec, kb: Seq<u8>)
    requires
        kb.len() == KEY_LEN,
    ensures
        apply_segment(acc, key_marker() + base64::encode_spec(kb)) == Some(
            FragSpec { key: Some(kb), ..acc },
        ),
{
    let enc = base64::encode_spec(kb);
    let seg = key_marker() + enc;
    base64::lemma_encode_alphabet(kb);
    lemma_find_char_at(seg, ':', 3);
    assert(seg.take(3) =~= key_word());
    let rest = seg.skip(4);
    assert(rest =~= enc);
    assert forall|j: int| 0 <= j < rest.len() implies rest[j] != ':' by {
        assert(rest[j] == enc[j]);
    }
    lemma_find_char_none(rest, ':');
    assert(seg_value(seg) == Some(enc));
    base64::lemma_encode_decode(kb);
}

/// Bare-key compatibility: the plain encoding of a key, with no `key:`
/// prefix, parses to a record holding exactly that key and nothing else.
pub proof fn lemma_parse_bare_key(kb: Seq<u8>)
    requires
        kb.len() == KEY_LEN,
    ensures
        parse_spec(base64::encode_spec(kb)) == Some(
            FragSpec { key: Some(kb), needs_password: false, name: None, language: None },
        ),
{
    let enc = base64::encode_spec(kb);
    base64::lemma_encode_alphabet(kb);
    assert(!contains_key_marker(enc)) by {
        if contains_key_marker(enc) {
            let i = choose|i: int| #[trigger] key_marker_at(enc, i);
            assert(enc.subrange(i, i + 4)[3] == enc[i + 3]);
        }
    }
    base64::lemma_encode_decode(kb);
}

/// Fragment round trip: building a fragment from a full-length key and any
/// flags whose values contain neither `!` nor `:`, then parsing it, returns
/// exactly that key and those flags.
/// The segment list of a tagged fragment: splitting what `build_spec`
/// produced (when any flag is set) yields the `key:` segment followed by the
/// set tag segments, and the `key:` marker is present.
proof fn lemma_build_parts(kb: Seq<u8>, pw: bool, name: Option<Seq<char>>, lang: Option<Seq<char>>)
    requires
        kb.len() == KEY_LEN,
        pw || name is Some || lang is Some,
        name matches Some(nm) ==> forall|j: int| 0 <= j < nm.len() ==> nm[j] != '!' && nm[j] != ':',
        lang matches Some(l) ==> forall|j: int| 0 <= j < l.len() ==> l[j] != '!' && l[j] != ':',
    ensures
        contains_key_marker(build_spec(base64::encode_spec(kb), pw, name, lang)),
        split_char(build_spec(base64::encode_spec(kb), pw, name, lang), '!') == seq![
            key_marker() + base64::encode_spec(kb),
        ] + (if pw {
            seq![pw_word()]
        } else {
            Seq::<Seq<char>>::empty()
        }) + (match name {
            Some(nm) => seq![name_word() + seq![':'] + nm],
            None => Seq::<Seq<char>>::empty(),
        }) + (match lang {
            Some(l) => seq![lang_word() + seq![':'] + l],
            None => Seq::<Seq<char>>::empty(),
        }),
{
    let enc = base64::encode_spec(kb);
    base64::lemma_encode_alphabet(kb);
    let s = build_spec(enc, pw, name, lang);
    let seg1 = key_marker() + enc;
    let pw_part: Seq<Seq<char>> = if pw {
        seq![pw_word()]
    } else {
        Seq::empty()
    };
    let name_part: Seq<Seq<char>> = match name {
        Some(nm) => seq![name_word() + seq![':'] + nm],
        None => Seq::empty(),
    };
    let lang_part: Seq<Seq<char>> = match lang {
        Some(l) => seq![lang_word() + seq![':'] + l],
        None => Seq::empty(),
    };
    let parts = seq![seg1] + pw_part + name_part + lang_part;
    let nseg = match name {
        Some(nm) => name_word() + seq![':'] + nm,
        None => Seq::<char>::empty(),
    };
    let lseg = match lang {
        Some(l) => lang_word() + seq![':'] + l,
        None => Seq::<char>::empty(),
    };
    assert(s =~= join_char(parts, '!')) by {
        match (pw, name, lang) {
            (true, Some(nm), Some(l)) => {
                assert(parts =~= seq![seg1, pw_word(), nseg, lseg]);
                lemma_join4(seg1, pw_word(), nseg, lseg, '!');
            },
            (true, Some(nm), None) => {
                assert(parts =~= seq![seg1, pw_word(), nseg]);
                lemma_join3(seg1, pw_word(), nseg, '!');
            },
            (true, None, Some(l)) => {
                assert(parts =~= seq![seg1, pw_word(), lseg]);
                lemma_join3(seg1, pw_word(), lseg, '!');
            },
            (true, None, None) => {
                assert(parts =~= seq![seg1, pw_word()]);
                lemma_join2(seg1, pw_word(), '!');
            },
            (false, Some(nm), Some(l)) => {
                assert(parts =~= seq![seg1, nseg, lseg]);
                lemma_join3(seg1, nseg, lseg, '!');
            },
            (false, Some(nm), None) => {
                assert(parts =~= seq![seg1, nseg]);
                lemma_join2(seg1, nseg, '!');
            },
            (false, None, Some(l)) => {
                assert(parts =~= seq![seg1, lseg]);
                lemma_join2(seg1, lseg, '!');
            },
            (false, None, None) => {},
        }
    }
    assert forall|i: int, j: int|
        0 <= i < parts.len() && 0 <= j < parts[i].len() implies #[trigger] parts[i][j] != '!' by {}
    lemma_split_join(parts, '!');
    assert(contains_key_marker(s)) by {
        let w1 = key_marker() + enc;
        let w2 = w1 + (if pw {
            pw_tag()
        } else {
            Seq::<char>::empty()
        });
        let w3 = w2 + (match name {
            Some(nm) => name_tag() + nm,
            None => Seq::<char>::empty(),
        });
        assert(s == w3 + (match lang {
            Some(l) => lang_tag() + l,
            None => Seq::<char>::empty(),
        }));
        assert(forall|j: int| 0 <= j < 4 ==> w1[j] == key_marker()[j]);
        assert(forall|j: int| 0 <= j < 4 ==> w2[j] == w1[j]);
        assert(forall|j: int| 0 <= j < 4 ==> w3[j] == w2[j]);
        assert(forall|j: int| 0 <= j < 4 ==> s[j] == w3[j]);
        assert(s.subrange(0, 4) =~= key_marker());
        assert(key_marker_at(s, 0));
    }
}

/// Fragment round trip: building a fragment from a full-length key and any
/// flags whose values contain neither `!` nor `:`, then parsing it, returns
/// exactly that key and those flags.
#[verifier::rlimit(100)]
pub proof fn lemma_fragment_round_trip(
    kb: Seq<u8>,
    pw: bool,
    name: Option<Seq<char>>,
    lang: Option<Seq<char>>,
)
    requires
        kb.len() == KEY_LEN,
        name matches Some(nm) ==> forall|j: int| 0 <= j < nm.len() ==> nm[j] != '!' && nm[j] != ':',
        lang matches Some(l) ==> forall|j: int| 0 <= j < l.len() ==> l[j] != '!' && l[j] != ':',
    ensures
        parse_spec(build_spec(base64::encode_spec(kb), pw, name, lang)) == Some(
            FragSpec { key: Some(kb), needs_password: pw, name, language: lang },
        ),
{
    let enc = base64::encode_spec(kb);
    if !pw && name is None && lang is None {
        lemma_parse_bare_key(kb);
    } else {
        let s = build_spec(enc, pw, name, lang);
        let seg1 = key_marker() + enc;
        let pw_part: Seq<Seq<char>> = if pw {
            seq![pw_word()]
        } else {
            Seq::empty()
        };
        let name_part: Seq<Seq<char>> = match name {
            Some(nm) => seq![name_word() + seq![':'] + nm],
            None => Seq::empty(),
        };
        let lang_part: Seq<Seq<char>> = match lang {
            Some(l) => seq![lang_word() + seq![':'] + l],
            None => Seq::empty(),
        };
        let parts = seq![seg1] + pw_part + name_part + lang_part;
        lemma_build_parts(kb, pw, name, lang);
        let acc0 = empty_record();
        lemma_apply_key(acc0, kb);
        let acc1 = FragSpec { key: Some(kb), ..acc0 };
        assert(fold_segments(acc0, seq![seg1]) == Some(acc1)) by {
            assert(seq![seg1][0] == seg1);
            assert(seq![seg1].skip(1) =~= Seq::<Seq<char>>::empty());
            assert(fold_segments(acc1, Seq::<Seq<char>>::empty()) == Some(acc1));
        }
        let acc2 = if pw {
            FragSpec { needs_password: true, ..acc1 }
        } else {
            acc1
        };
        assert(fold_segments(acc1, pw_part) == Some(acc2)) by {
            if pw {
                lemma_apply_pw(acc1);
                assert(pw_part[0] == pw_word());
                assert(pw_part.skip(1) =~= Seq::<Seq<char>>::empty());
                assert(fold_segments(acc2, Seq::<Seq<char>>::empty()) == Some(acc2));
            }
        }
        let acc3 = match name {
            Some(nm) => FragSpec { name: Some(nm), ..acc2 },
            None => acc2,
        };
        assert(fold_segments(acc2, name_part) == Some(acc3)) by {
            match name {
                Some(nm) => {
                    lemma_apply_name(acc2, nm);
                    assert(name_part[0] == name_word() + seq![':'] + nm);
                    assert(name_part.skip(1) =~= Seq::<Seq<char>>::empty());
                    assert(fold_segments(acc3, Seq::<Seq<char>>::empty()) == Some(acc3));
                },
                None => {},
            }
        }
        let acc4 = match lang {
            Some(l) => FragSpec { language: Some(l), ..acc3 },
            None => acc3,
        };
        assert(fold_segments(acc3, lang_part) == Some(acc4)) by {
            match lang {
                Some(l) => {
                    lemma_apply_lang(acc3, l);
                    assert(lang_part[0] == lang_word() + seq![':'] + l);
                    assert(lang_part.skip(1) =~= Seq::<Seq<char>>::empty());
                    assert(fold_segments(acc4, Seq::<Seq<char>>::empty()) == Some(acc4));
                },
                None => {},
            }
        }
        lemma_fold_append(acc1, pw_part, name_part);
        lemma_fold_append(acc1, pw_part + name_part, lang_part);
        assert((pw_part + name_part) + lang_part =~= pw_part + name_part + lang_part);
        lemma_fold_append(acc0, seq![seg1], pw_part + name_part + lang_part);
        assert(seq![seg1] + (pw_part + name_part + lang_part) =~= parts);
        assert(fold_segments(acc0, parts) == Some(acc4));
        assert(acc4 =~= FragSpec { key: Some(kb), needs_password: pw, name, language: lang });
    }
}

} // verus!
