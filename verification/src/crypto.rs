//! The authenticated-encryption envelope: a message is sealed in place under a
//! fresh random content key and nonce, optionally wrapped a second time under
//! a password-derived key, and the nonce (and salt) travel appended to the
//! ciphertext.

use vstd::prelude::*;
use vstd::pervasive::VecAdditionalExecFns;
use vstd::slice::slice_to_vec;
use chacha20poly1305::aead::Aead;
use chacha20poly1305::KeyInit;
use rand::Rng;

verus! {

/// Length in bytes of a symmetric key.
pub const KEY_LEN: usize = 32;

/// Length in bytes of a cipher nonce.
pub const NONCE_LEN: usize = 24;

/// Length in bytes of a key-derivation salt.
pub const SALT_LEN: usize = 16;

/// Memory cost of the key derivation, in KiB.
pub const KDF_M_COST: u32 = 15 * 1024;

/// Iteration count of the key derivation.
pub const KDF_T_COST: u32 = 2;

/// Degree of parallelism of the key derivation.
pub const KDF_P_COST: u32 = 2;

/// Why sealing or opening failed.
#[derive(Debug, PartialEq, Eq, Structural)]
pub enum Error {
    /// The password layer did not authenticate: wrong password.
    Password,
    /// The content layer did not authenticate: wrong key or corrupted data.
    SecretKey,
    /// The cipher itself failed while sealing.
    Encryption,
    /// The key derivation failed.
    Kdf,
}

impl Error {
    /// A user-facing description of the failure.
    pub fn message(&self) -> (r: String)
        ensures
            self is Password ==> r@ == "invalid password"@,
            self is SecretKey ==> r@ == "invalid secret key"@,
            self is Encryption ==> r@ == "an error occurred while encrypting the blob"@,
            self is Kdf ==> r@ == "an error occurred while deriving a secret key"@,
    {
        let msg = match self {
            Error::Password => "invalid password",
            Error::SecretKey => "invalid secret key",
            Error::Encryption => "an error occurred while encrypting the blob",
            Error::Kdf => "an error occurred while deriving a secret key",
        };
        String::from_str(msg)
    }
}

/// The ciphertext-with-tag that the cipher produces from a key, a nonce and a
/// message. The cipher is deterministic, so the bytes are a function of those
/// three values alone; nothing here states what they are.
pub uninterp spec fn cipher_seal(key: Seq<u8>, nonce: Seq<u8>, msg: Seq<u8>) -> Seq<u8>;

/// The Argon2id digest of a password and salt under the given cost parameters
/// and output length. Deterministic in all its arguments.
pub uninterp spec fn argon2id_of(
    m_cost: u32,
    t_cost: u32,
    p_cost: u32,
    password: Seq<u8>,
    salt: Seq<u8>,
    out_len: usize,
) -> Seq<u8>;

/// Whether a message is short enough for the cipher: XChaCha20 counts
/// 64-byte blocks in a 32-bit counter, and encryption refuses anything with
/// `u32::MAX` blocks or more.
pub open spec fn fits_cipher(len: nat) -> bool {
    len < 64 * 0xffff_ffff
}

/// The key this library derives from a password and salt.
pub open spec fn kdf_of(password: Seq<u8>, salt: Seq<u8>) -> Seq<u8> {
    argon2id_of(KDF_M_COST, KDF_T_COST, KDF_P_COST, password, salt, KEY_LEN)
}

/// The nonce used for the password layer: the first byte is incremented with
/// wraparound, the rest is unchanged. This is not a multi-byte increment; it
/// only has to differ from the content-layer nonce, and both sides must agree
/// on it bit for bit.
pub open spec fn nonce_inc(n: Seq<u8>) -> Seq<u8> {
    n.update(0, if n[0] == 255 { 0u8 } else { (n[0] + 1) as u8 })
}

/// The buffer layout after sealing without a password.
pub open spec fn sealed_no_pw(m: Seq<u8>, k: Seq<u8>, n: Seq<u8>) -> Seq<u8> {
    cipher_seal(k, n, m) + n
}

/// The buffer layout after sealing with a password whose derived key is `pk`.
pub open spec fn sealed_with_pw(m: Seq<u8>, k: Seq<u8>, pk: Seq<u8>, n: Seq<u8>, s: Seq<u8>) -> Seq<
    u8,
> {
    cipher_seal(pk, nonce_inc(n), cipher_seal(k, n, m)) + n + s
}

/// Whether `buf` is a sealing of message `m` under content key `k` with no
/// password: some nonce was used and is appended.
pub open spec fn seals_no_pw(buf: Seq<u8>, m: Seq<u8>, k: Seq<u8>) -> bool {
    exists|n: Seq<u8>|
        #![auto]
        n.len() == NONCE_LEN && buf == sealed_no_pw(m, k, n)
}

/// Whether `buf` is a sealing of message `m` under content key `k` and
/// password `pw`: some nonce and salt were used and are appended.
pub open spec fn seals_with_pw(buf: Seq<u8>, m: Seq<u8>, k: Seq<u8>, pw: Seq<u8>) -> bool {
    exists|n: Seq<u8>, s: Seq<u8>|
        #![auto]
        n.len() == NONCE_LEN && s.len() == SALT_LEN && buf == sealed_with_pw(
            m,
            k,
            kdf_of(pw, s),
            n,
            s,
        )
}

/// Round trip without a password: a buffer with the layout that sealing
/// message `m` under key `k` produces — whatever nonce was drawn — is one
/// that `open_in_place` with `k` and no password is bound, by its contract,
/// to accept, returning exactly `m`.
pub proof fn lemma_seal_open_no_pw(m: Seq<u8>, k: Seq<u8>, n: Seq<u8>)
    requires
        n.len() == NONCE_LEN,
    ensures
        seals_no_pw(sealed_no_pw(m, k, n), m, k),
{
}

/// Round trip with a password: a buffer with the layout that sealing message
/// `m` under key `k` and password `pw` produces — whatever nonce and salt
/// were drawn — is one that `open_in_place` with `k` and the same password
/// is bound, by its contract, to accept (key derivation permitting),
/// returning exactly `m`.
pub proof fn lemma_seal_open_with_pw(m: Seq<u8>, k: Seq<u8>, pw: Seq<u8>, n: Seq<u8>, s: Seq<u8>)
    requires
        n.len() == NONCE_LEN,
        s.len() == SALT_LEN,
    ensures
        seals_with_pw(sealed_with_pw(m, k, kdf_of(pw, s), n, s), m, k, pw),
{
}

/// A 32-byte symmetric key. Deliberately neither `Clone` nor `Copy`: a key is
/// owned by exactly one scope, read through `expose_secret`, and wiped with
/// `zeroize`.
///
/// The derived `Debug` prints the raw key bytes; it exists for test
/// diagnostics. Never log a `Key`.
#[derive(Debug)]
pub struct Key {
    bytes: Vec<u8>,
}

impl View for Key {
    type V = Seq<u8>;

    closed spec fn view(&self) -> Seq<u8> {
        self.bytes@
    }
}

impl Key {
    /// A key always holds exactly `KEY_LEN` bytes.
    pub open spec fn wf(&self) -> bool {
        self@.len() == KEY_LEN
    }

    /// Encloses a byte vector in a `Key`, if it has exactly the key length.
    pub fn new_secret(vec: Vec<u8>) -> (r: Option<Key>)
        ensures
            vec@.len() == KEY_LEN ==> (r matches Some(k) && k@ == vec@ && k.wf()),
            vec@.len() != KEY_LEN ==> r is None,
    {
        if vec.len() == KEY_LEN {
            Some(Key { bytes: vec })
        } else {
            None
        }
    }

    /// Borrows the raw key bytes; no owned copy is ever handed out.
    pub fn expose_secret(&self) -> (r: &Vec<u8>)
        ensures
            r@ == self@,
    {
        &self.bytes
    }

    /// Overwrites the key bytes with zeroes before the key is dropped.
    pub fn zeroize(&mut self)
        ensures
            final(self)@.len() == old(self)@.len(),
            forall|i: int| 0 <= i < final(self)@.len() ==> final(self)@[i] == 0,
    {
        let mut i: usize = 0;
        while i < self.bytes.len()
            invariant
                i <= self.bytes@.len(),
                self.bytes@.len() == old(self)@.len(),
                forall|j: int| 0 <= j < i ==> self.bytes@[j] == 0,
            decreases self.bytes@.len() - i,
        {
            self.bytes.set(i, 0);
            i = i + 1;
        }
    }
}

impl PartialEq for Key {
    /// Byte-for-byte comparison of two keys.
    fn eq(&self, other: &Key) -> (r: bool) {
        let r = self.bytes == other.bytes;
        proof {
            if r {
                assert(self.bytes@ =~= other.bytes@);
            } else {
                assert(!(self.bytes@ =~= other.bytes@));
            }
        }
        r
    }
}

impl vstd::std_specs::cmp::PartialEqSpecImpl for Key {
    open spec fn obeys_eq_spec() -> bool {
        true
    }

    open spec fn eq_spec(&self, other: &Key) -> bool {
        self@ == other@
    }
}

impl Eq for Key {}

/// A 24-byte cipher nonce.
pub struct Nonce {
    bytes: Vec<u8>,
}

impl View for Nonce {
    type V = Seq<u8>;

    closed spec fn view(&self) -> Seq<u8> {
        self.bytes@
    }
}

impl Nonce {
    /// A nonce always holds exactly `NONCE_LEN` bytes.
    pub open spec fn wf(&self) -> bool {
        self@.len() == NONCE_LEN
    }

    /// Copies a slice of nonce length into a `Nonce`.
    pub fn from_slice(slice: &[u8]) -> (r: Nonce)
        requires
            slice@.len() == NONCE_LEN,
        ensures
            r@ == slice@,
            r.wf(),
    {
        Nonce { bytes: slice_to_vec(slice) }
    }

    /// Borrows the nonce bytes.
    pub fn as_bytes(&self) -> (r: &Vec<u8>)
        ensures
            r@ == self@,
    {
        &self.bytes
    }

    /// The nonce for the password layer: first byte incremented, wrapping at
    /// 255, so it always differs from `self` in its first byte.
    pub fn increment(&self) -> (r: Nonce)
        requires
            self.wf(),
        ensures
            r@ == nonce_inc(self@),
            r.wf(),
    {
        let b0 = self.bytes[0];
        let mut bytes = self.bytes.clone();
        proof {
            assert(bytes@ =~= self.bytes@);
        }
        bytes.set(0, if b0 == 255 { 0 } else { b0 + 1 });
        Nonce { bytes }
    }
}

/// Nonce incrementing never returns the nonce it was given: the first byte
/// always changes. So the two cipher invocations of one seal use distinct
/// nonces even under equal keys.
pub proof fn lemma_nonce_increment_differs(n: Seq<u8>)
    requires
        n.len() >= 1,
    ensures
        nonce_inc(n) != n,
        nonce_inc(n).len() == n.len(),
{
    assert(nonce_inc(n)[0] != n[0]);
}

/// The two cipher invocations of one password seal never share a (key,
/// nonce) pair: the content layer runs under the drawn nonce and the
/// password layer under its increment, and those differ whatever the two
/// keys are — as `sealed_with_pw` shows, this holds by construction.
pub proof fn lemma_seal_layers_distinct(k: Seq<u8>, pk: Seq<u8>, n: Seq<u8>)
    requires
        n.len() >= 1,
    ensures
        !(pk == k && nonce_inc(n) == n),
{
    lemma_nonce_increment_differs(n);
}

/// A 16-byte key-derivation salt.
pub struct Salt {
    bytes: Vec<u8>,
}

impl View for Salt {
    type V = Seq<u8>;

    closed spec fn view(&self) -> Seq<u8> {
        self.bytes@
    }
}

impl Salt {
    /// A salt always holds exactly `SALT_LEN` bytes.
    pub open spec fn wf(&self) -> bool {
        self@.len() == SALT_LEN
    }

    /// A fresh random salt.
    pub fn random() -> (r: Salt)
        ensures
            r.wf(),
    {
        Salt { bytes: random_bytes(SALT_LEN) }
    }

    /// Borrows the salt bytes.
    pub fn as_bytes(&self) -> (r: &Vec<u8>)
        ensures
            r@ == self@,
    {
        &self.bytes
    }
}

/// Relies on rand's `rng()` and `Rng::fill_bytes`: fills the buffer from the
/// thread-local cryptographically secure generator. Nothing can be said of
/// the values, only of the length.
#[verifier::external_body]
fn random_bytes(n: usize) -> (r: Vec<u8>)
    ensures
        r@.len() == n,
{
    let mut buf = vec![0u8; n];
    rand::rng().fill_bytes(&mut buf);
    buf
}

/// Seals `message` in place with an optional password, returning the content
/// key that decrypts it.
///
/// The message is encrypted under a fresh random key and nonce; with a
/// password, the ciphertext is encrypted a second time under the derived key
/// and the incremented nonce. The nonce, and then the salt if a password was
/// used, are appended to the buffer, which is afterwards self-describing up
/// to the password flag.
///
/// Success is owed: for a message that fits the cipher, sealing without a
/// password always returns `Ok`, and sealing with one can fail only as
/// `Kdf` — the key derivation is the one call whose success depends on more
/// than its arguments (it allocates its working memory).
#[verifier::rlimit(80)]
pub fn seal_in_place(message: &mut Vec<u8>, pw: Option<Vec<u8>>) -> (r: Result<Key, Error>)
    ensures
        r matches Ok(key) ==> key.wf(),
        r is Ok && pw is None ==> seals_no_pw(final(message)@, old(message)@, (r->Ok_0)@),
        r is Ok && pw is None ==> final(message)@.len() == old(message)@.len() + 16 + NONCE_LEN,
        r is Ok ==> (pw matches Some(p) ==> seals_with_pw(
            final(message)@,
            old(message)@,
            (r->Ok_0)@,
            p@,
        )),
        r is Ok && pw is Some ==> final(message)@.len() == old(message)@.len() + 32 + NONCE_LEN
            + SALT_LEN,
        r matches Err(e) ==> e == Error::Encryption || (e == Error::Kdf && pw is Some),
        pw is None && fits_cipher(old(message)@.len()) ==> r is Ok,
        pw is Some && fits_cipher(old(message)@.len() + 16) && r is Err ==> r == Err::<Key, Error>(
            Error::Kdf,
        ),
{
    let ghost m0 = message@;
    let key = Key { bytes: random_bytes(KEY_LEN) };
    let nonce = Nonce { bytes: random_bytes(NONCE_LEN) };
    let ghost nv = nonce@;
    let ct = match xchacha_encrypt(&key.bytes, &nonce.bytes, message) {
        Some(c) => c,
        None => {
            return Err(Error::Encryption);
        },
    };
    *message = ct;
    match pw {
        Some(p) => {
            let salt = Salt::random();
            let ghost sv = salt@;
            let pk = match argon2_derive(
                KDF_M_COST,
                KDF_T_COST,
                KDF_P_COST,
                &p,
                &salt.bytes,
                KEY_LEN,
            ) {
                Some(k) => k,
                None => {
                    return Err(Error::Kdf);
                },
            };
            let n2 = nonce.increment();
            let ct2 = match xchacha_encrypt(&pk, &n2.bytes, message) {
                Some(c) => c,
                None => {
                    return Err(Error::Encryption);
                },
            };
            *message = ct2;
            let mut nb = nonce.bytes;
            message.append(&mut nb);
            let mut sb = salt.bytes;
            message.append(&mut sb);
            proof {
                assert(message@ =~= sealed_with_pw(m0, key@, kdf_of(p@, sv), nv, sv));
                assert(seals_with_pw(message@, m0, key@, p@));
                assert(message@.len() == m0.len() + 32 + NONCE_LEN + SALT_LEN);
            }
            Ok(key)
        },
        None => {
            let mut nb = nonce.bytes;
            message.append(&mut nb);
            proof {
                assert(message@ =~= sealed_no_pw(m0, key@, nv));
                assert(seals_no_pw(message@, m0, key@));
                assert(message@.len() == m0.len() + 16 + NONCE_LEN);
            }
            Ok(key)
        },
    }
}

/// Opens a buffer sealed by `seal_in_place`, in place: splits off the salt
/// (when a password is given) and the nonce, strips the password layer first
/// and the content layer second — the reverse of the sealing order — and
/// leaves the plaintext in the buffer.
///
/// Whether a password layer exists cannot be read off the buffer; the caller
/// must pass the password exactly when one was used to seal. A buffer too
/// short to carry its metadata fails cleanly with `SecretKey`.
///
/// The contract carries the round-trip laws: for every message, a buffer
/// holding a sealing of that message under this key (and password) opens to
/// exactly that message — `Kdf` aside — and success only ever returns a
/// message this key (and password) genuinely sealed, never silently altered
/// plaintext. A failed password layer reports `Password`; a failed content
/// layer reports `SecretKey`.
pub fn open_in_place(data: &mut Vec<u8>, key: &Key, password: Option<Vec<u8>>) -> (r: Result<
    (),
    Error,
>)
    requires
        key.wf(),
    ensures
        password is None ==> (forall|m: Seq<u8>|
            #[trigger] seals_no_pw(old(data)@, m, key@) ==> r == Ok::<(), Error>(())
                && final(data)@ == m),
        password is None && r is Ok ==> seals_no_pw(old(data)@, final(data)@, key@),
        password is None && r is Err ==> r == Err::<(), Error>(Error::SecretKey),
        password matches Some(p) ==> (forall|m: Seq<u8>|
            #[trigger] seals_with_pw(old(data)@, m, key@, p@) ==> r == Err::<(), Error>(
                Error::Kdf,
            ) || (r == Ok::<(), Error>(()) && final(data)@ == m)),
        r is Ok ==> (password matches Some(p) ==> seals_with_pw(
            old(data)@,
            final(data)@,
            key@,
            p@,
        )),
        password is Some && r is Err ==> r == Err::<(), Error>(Error::SecretKey) || r == Err::<
            (),
            Error,
        >(Error::Password) || r == Err::<(), Error>(Error::Kdf),
        password is None && old(data)@.len() < NONCE_LEN ==> r == Err::<(), Error>(
            Error::SecretKey,
        ),
        password is Some && old(data)@.len() < NONCE_LEN + SALT_LEN ==> r == Err::<(), Error>(
            Error::SecretKey,
        ),
        r is Err && (password is None ==> old(data)@.len() < NONCE_LEN) && (password is Some
            ==> old(data)@.len() < NONCE_LEN + SALT_LEN) ==> final(data)@ == old(data)@,
        password is None && r is Err && old(data)@.len() >= NONCE_LEN ==> final(data)@ == old(
            data,
        )@.take(old(data)@.len() - NONCE_LEN),
        r == Err::<(), Error>(Error::Kdf) ==> final(data)@ == old(data)@.take(
            old(data)@.len() - SALT_LEN,
        ),
        r == Err::<(), Error>(Error::Password) ==> final(data)@ == old(data)@.take(
            old(data)@.len() - SALT_LEN - NONCE_LEN,
        ),
        password matches Some(p) ==> (r == Err::<(), Error>(Error::SecretKey) && old(data)@.len()
            >= NONCE_LEN + SALT_LEN ==> old(data)@.take(old(data)@.len() - SALT_LEN - NONCE_LEN)
            == cipher_seal(
            kdf_of(p@, old(data)@.skip(old(data)@.len() - SALT_LEN)),
            nonce_inc(
                old(data)@.subrange(
                    old(data)@.len() - SALT_LEN - NONCE_LEN,
                    old(data)@.len() - SALT_LEN,
                ),
            ),
            final(data)@,
        )),
{
    let ghost orig = data@;
    match password {
        None => {
            if data.len() < NONCE_LEN {
                proof {
                    assert forall|m: Seq<u8>| !seals_no_pw(orig, m, key@) by {
                        if seals_no_pw(orig, m, key@) {
                            let n = choose|n: Seq<u8>|
                                #![auto]
                                n.len() == NONCE_LEN && orig == sealed_no_pw(m, key@, n);
                            assert(orig.len() >= NONCE_LEN);
                        }
                    }
                }
                return Err(Error::SecretKey);
            }
            let nonce = data.split_off(data.len() - NONCE_LEN);
            let res = xchacha_decrypt(&key.bytes, &nonce, data);
            proof {
                assert forall|m: Seq<u8>| #[trigger] seals_no_pw(orig, m, key@) implies res
                    is Some && res->0@ == m by {
                    let n = choose|n: Seq<u8>|
                        #![auto]
                        n.len() == NONCE_LEN && orig == sealed_no_pw(m, key@, n);
                    assert(nonce@ =~= n);
                    assert(data@ =~= cipher_seal(key@, n, m));
                }
            }
            match res {
                Some(m) => {
                    *data = m;
                    proof {
                        assert(orig =~= sealed_no_pw(data@, key@, nonce@));
                        assert(seals_no_pw(orig, data@, key@));
                    }
                    Ok(())
                },
                None => Err(Error::SecretKey),
            }
        },
        Some(p) => {
            if data.len() < NONCE_LEN + SALT_LEN {
                proof {
                    assert forall|m: Seq<u8>| !seals_with_pw(orig, m, key@, p@) by {
                        if seals_with_pw(orig, m, key@, p@) {
                            let (n, s) = choose|n: Seq<u8>, s: Seq<u8>|
                                #![auto]
                                n.len() == NONCE_LEN && s.len() == SALT_LEN && orig
                                    == sealed_with_pw(m, key@, kdf_of(p@, s), n, s);
                            assert(orig.len() >= NONCE_LEN + SALT_LEN);
                        }
                    }
                }
                return Err(Error::SecretKey);
            }
            let salt = data.split_off(data.len() - SALT_LEN);
            let pk = match argon2_derive(
                KDF_M_COST,
                KDF_T_COST,
                KDF_P_COST,
                &p,
                &salt,
                KEY_LEN,
            ) {
                Some(k) => k,
                None => {
                    return Err(Error::Kdf);
                },
            };
            let nonce = data.split_off(data.len() - NONCE_LEN);
            let n2 = Nonce::from_slice(nonce.as_slice()).increment();
            let res1 = xchacha_decrypt(&pk, &n2.bytes, data);
            proof {
                assert forall|m: Seq<u8>| #[trigger] seals_with_pw(orig, m, key@, p@) implies res1
                    is Some && res1->0@ == cipher_seal(key@, nonce@, m) by {
                    let (n, s) = choose|n: Seq<u8>, s: Seq<u8>|
                        #![auto]
                        n.len() == NONCE_LEN && s.len() == SALT_LEN && orig == sealed_with_pw(
                            m,
                            key@,
                            kdf_of(p@, s),
                            n,
                            s,
                        );
                    assert(salt@ =~= s);
                    assert(nonce@ =~= n);
                    assert(data@ =~= cipher_seal(kdf_of(p@, s), nonce_inc(n), cipher_seal(
                        key@,
                        n,
                        m,
                    )));
                }
            }
            let c1 = match res1 {
                Some(v) => v,
                None => {
                    return Err(Error::Password);
                },
            };
            *data = c1;
            let res2 = xchacha_decrypt(&key.bytes, &nonce, data);
            proof {
                assert forall|m: Seq<u8>| #[trigger] seals_with_pw(orig, m, key@, p@) implies res2
                    is Some && res2->0@ == m by {
                    assert(data@ == cipher_seal(key@, nonce@, m));
                }
            }
            match res2 {
                Some(m2) => {
                    *data = m2;
                    proof {
                        assert(orig =~= sealed_with_pw(data@, key@, kdf_of(p@, salt@), nonce@,
                            salt@));
                        assert(seals_with_pw(orig, data@, key@, p@));
                    }
                    Ok(())
                },
                None => {
                    proof {
                        let olen = orig.len() as int;
                        assert(salt@ =~= orig.skip(olen - SALT_LEN));
                        assert(nonce@ =~= orig.subrange(olen - SALT_LEN - NONCE_LEN, olen
                            - SALT_LEN));
                        assert(orig.take(olen - SALT_LEN - NONCE_LEN) =~= cipher_seal(
                            kdf_of(p@, salt@),
                            nonce_inc(nonce@),
                            data@,
                        ));
                    }
                    Err(Error::SecretKey)
                },
            }
        },
    }
}

/// Relies on chacha20poly1305's `XChaCha20Poly1305`: `KeyInit::new_from_slice`
/// accepts exactly 32 key bytes, and `Aead::encrypt` is deterministic in key,
/// nonce and message, appending its 16-byte authentication tag to the
/// ciphertext. Its one failure is the explicit block-count bound on the
/// message, so it succeeds on every message that fits the cipher.
#[verifier::external_body]
fn xchacha_encrypt(key: &Vec<u8>, nonce: &Vec<u8>, msg: &Vec<u8>) -> (r: Option<Vec<u8>>)
    requires
        key@.len() == KEY_LEN,
        nonce@.len() == NONCE_LEN,
    ensures
        r matches Some(c) ==> c@ == cipher_seal(key@, nonce@, msg@) && c@.len() == msg@.len() + 16,
        fits_cipher(msg@.len()) ==> r is Some,
{
    let cipher = chacha20poly1305::XChaCha20Poly1305::new_from_slice(key.as_slice()).ok()?;
    let nonce = chacha20poly1305::XNonce::try_from(nonce.as_slice()).ok()?;
    cipher.encrypt(&nonce, msg.as_slice()).ok()
}

/// Relies on chacha20poly1305's `XChaCha20Poly1305`: `Aead::decrypt` verifies
/// the trailing authentication tag and succeeds exactly on the buffers that
/// `encrypt` produces under the same key and nonce — the tag is computed
/// deterministically from them, so no other buffer carries it — returning
/// the message that was encrypted.
#[verifier::external_body]
fn xchacha_decrypt(key: &Vec<u8>, nonce: &Vec<u8>, ct: &Vec<u8>) -> (r: Option<Vec<u8>>)
    requires
        key@.len() == KEY_LEN,
        nonce@.len() == NONCE_LEN,
    ensures
        r matches Some(p) ==> ct@ == cipher_seal(key@, nonce@, p@),
        forall|m: Seq<u8>| ct@ == cipher_seal(key@, nonce@, m) ==> r is Some && r->0@ == m,
{
    let cipher = chacha20poly1305::XChaCha20Poly1305::new_from_slice(key.as_slice()).ok()?;
    let nonce = chacha20poly1305::XNonce::try_from(nonce.as_slice()).ok()?;
    cipher.decrypt(&nonce, ct.as_slice()).ok()
}

/// Relies on argon2's `Params::new`, `Argon2::new` and
/// `Argon2::hash_password_into`, fixed to the Argon2id algorithm, version
/// 19: the digest is deterministic in the cost parameters, password, salt
/// and output length, and fills the whole output buffer. Nothing is claimed
/// when parameter validation or hashing reports failure.
#[verifier::external_body]
fn argon2_derive(
    m_cost: u32,
    t_cost: u32,
    p_cost: u32,
    password: &Vec<u8>,
    salt: &Vec<u8>,
    out_len: usize,
) -> (r: Option<Vec<u8>>)
    ensures
        r matches Some(k) ==> k@ == argon2id_of(m_cost, t_cost, p_cost, password@, salt@, out_len)
            && k@.len() == out_len,
{
    let params = argon2::Params::new(m_cost, t_cost, p_cost, Some(out_len)).ok()?;
    let hasher = argon2::Argon2::new(argon2::Algorithm::Argon2id, argon2::Version::V0x13, params);
    let mut out = vec![0u8; out_len];
    hasher.hash_password_into(password.as_slice(), salt.as_slice(), &mut out).ok()?;
    Some(out)
}

} // verus!
