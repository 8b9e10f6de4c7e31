//! Short codes: fixed-length paste identifiers over a 32-character
//! word-safe alphabet (a Base32 extension of the Open Location Code base-20
//! alphabet, avoiding characters that form words or look alike).

use vstd::prelude::*;

verus! {

/// The 32 characters codes are made of, in sampling order.
pub open spec fn alphabet() -> Seq<char> {
    seq![
        '2',
        '3',
        '4',
        '5',
        '6',
        '7',
        '8',
        '9',
        'C',
        'F',
        'G',
        'H',
        'J',
        'M',
        'P',
        'Q',
        'R',
        'V',
        'W',
        'X',
        'c',
        'f',
        'g',
        'h',
        'j',
        'm',
        'p',
        'q',
        'r',
        'v',
        'w',
        'x',
    ]
}

/// Whether a character belongs to the short-code alphabet.
pub open spec fn is_code_char(c: char) -> bool {
    exists|v: int| 0 <= v < 32 && #[trigger] alphabet()[v] == c
}

/// A paste identifier of exactly `N` alphabet characters.
pub struct ShortCode<const N: usize> {
    chars: Vec<char>,
}

impl<const N: usize> View for ShortCode<N> {
    type V = Seq<char>;

    closed spec fn view(&self) -> Seq<char> {
        self.chars@
    }
}

impl<const N: usize> ShortCode<N> {
    /// A code holds exactly `N` characters, all from the alphabet.
    pub open spec fn wf(&self) -> bool {
        self@.len() == N && forall|i: int| 0 <= i < self@.len() ==> is_code_char(#[trigger] self@[i])
    }

    /// Validates a string as a code: it must hold exactly `N` characters,
    /// each from the alphabet.
    pub fn try_from_str(s: &str) -> (r: Option<ShortCode<N>>)
        ensures
            r matches Some(c) ==> c@ == s@ && c.wf(),
            r is None ==> s@.len() != N || exists|i: int|
                0 <= i < s@.len() && !is_code_char(#[trigger] s@[i]),
    {
        let n = s.unicode_len();
        if n != N {
            return None;
        }
        let mut chars: Vec<char> = Vec::new();
        let mut i: usize = 0;
        while i < n
            invariant
                i <= n,
                n == s@.len(),
                chars@ == s@.take(i as int),
                forall|j: int| 0 <= j < i ==> is_code_char(#[trigger] s@[j]),
            decreases n - i,
        {
            let c = s.get_char(i);
            if !code_char_check(c) {
                return None;
            }
            chars.push(c);
            proof {
                assert(chars@ =~= s@.take(i as int + 1));
            }
            i = i + 1;
        }
        proof {
            assert(chars@ =~= s@);
        }
        Some(ShortCode { chars })
    }

    /// The code as ASCII bytes, one per character.
    pub fn as_bytes(&self) -> (r: Vec<u8>)
        requires
            self.wf(),
        ensures
            r@.len() == self@.len(),
            forall|i: int| 0 <= i < r@.len() ==> r@[i] == self@[i] as u8,
    {
        let mut out: Vec<u8> = Vec::new();
        let mut i: usize = 0;
        while i < self.chars.len()
            invariant
                i <= self.chars@.len(),
                self.wf(),
                out@.len() == i,
                forall|j: int| 0 <= j < i ==> out@[j] == self@[j] as u8,
            decreases self.chars@.len() - i,
        {
            let c = self.chars[i];
            proof {
                assert(is_code_char(c));
                let v = choose|v: int| 0 <= v < 32 && #[trigger] alphabet()[v] == c;
                assert(c as u32 <= 0x78);
            }
            out.push(c as u8);
            i = i + 1;
        }
        out
    }
}

/// Whether a character belongs to the short-code alphabet.
fn code_char_check(c: char) -> (r: bool)
    ensures
        r == is_code_char(c),
{
    let r = (c >= '2' && c <= '9') || c == 'C' || c == 'F' || c == 'G' || c == 'H' || c == 'J' || c
        == 'M' || c == 'P' || c == 'Q' || c == 'R' || c == 'V' || c == 'W' || c == 'X' || c == 'c'
        || c == 'f' || c == 'g' || c == 'h' || c == 'j' || c == 'm' || c == 'p' || c == 'q' || c
        == 'r' || c == 'v' || c == 'w' || c == 'x';
    proof {
        if r {
            if c >= '2' && c <= '9' {
                let v = c as int - 50;
                assert(0 <= v < 8);
                assert(alphabet()[v] == c) by {
                    if v == 0 {
                        assert(alphabet()[0] == '2');
                    } else if v == 1 {
                        assert(alphabet()[1] == '3');
                    } else if v == 2 {
                        assert(alphabet()[2] == '4');
                    } else if v == 3 {
                        assert(alphabet()[3] == '5');
                    } else if v == 4 {
                        assert(alphabet()[4] == '6');
                    } else if v == 5 {
                        assert(alphabet()[5] == '7');
                    } else if v == 6 {
                        assert(alphabet()[6] == '8');
                    } else {
                        assert(alphabet()[7] == '9');
                    }
                }
            } else if c == 'C' {
                assert(alphabet()[8] == c);
            } else if c == 'F' {
                assert(alphabet()[9] == c);
            } else if c == 'G' {
                assert(alphabet()[10] == c);
            } else if c == 'H' {
                assert(alphabet()[11] == c);
            } else if c == 'J' {
                assert(alphabet()[12] == c);
            } else if c == 'M' {
                assert(alphabet()[13] == c);
            } else if c == 'P' {
                assert(alphabet()[14] == c);
            } else if c == 'Q' {
                assert(alphabet()[15] == c);
            } else if c == 'R' {
                assert(alphabet()[16] == c);
            } else if c == 'V' {
                assert(alphabet()[17] == c);
            } else if c == 'W' {
                assert(alphabet()[18] == c);
            } else if c == 'X' {
                assert(alphabet()[19] == c);
            } else if c == 'c' {
                assert(alphabet()[20] == c);
            } else if c == 'f' {
                assert(alphabet()[21] == c);
            } else if c == 'g' {
                assert(alphabet()[22] == c);
            } else if c == 'h' {
                assert(alphabet()[23] == c);
            } else if c == 'j' {
                assert(alphabet()[24] == c);
            } else if c == 'm' {
                assert(alphabet()[25] == c);
            } else if c == 'p' {
                assert(alphabet()[26] == c);
            } else if c == 'q' {
                assert(alphabet()[27] == c);
            } else if c == 'r' {
                assert(alphabet()[28] == c);
            } else if c == 'v' {
                assert(alphabet()[29] == c);
            } else if c == 'w' {
                assert(alphabet()[30] == c);
            } else {
                assert(alphabet()[31] == c);
            }
        } else {
            assert(!is_code_char(c)) by {
                if is_code_char(c) {
                    let v = choose|v: int| 0 <= v < 32 && #[trigger] alphabet()[v] == c;
                }
            }
        }
    }
    r
}

/// Draws short-code characters: a sampled index in `0..32` names one
/// character of the alphabet. The caller supplies the random index; this
/// keeps the choice of character verified while the randomness stays
/// outside.
pub struct Generator;

impl Generator {
    /// The alphabet character for a sampled index.
    pub fn char_for(v: usize) -> (r: char)
        requires
            v < 32,
        ensures
            r == alphabet()[v as int],
            is_code_char(r),
    {
        let table: [char; 32] = [
            '2',
            '3',
            '4',
            '5',
            '6',
            '7',
            '8',
            '9',
            'C',
            'F',
            'G',
            'H',
            'J',
            'M',
            'P',
            'Q',
            'R',
            'V',
            'W',
            'X',
            'c',
            'f',
            'g',
            'h',
            'j',
            'm',
            'p',
            'q',
            'r',
            'v',
            'w',
            'x',
        ];
        let r = table[v];
        proof {
            assert(table@ =~= alphabet());
        }
        r
    }
}

} // verus!
