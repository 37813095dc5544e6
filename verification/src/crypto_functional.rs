//! Transport codec: hash-then-encrypt authenticated encryption.
//!
//! A payload is wrapped for the wire as `"<40-hex-digest>===<base64>"`: the
//! plaintext is zero-padded on the right to a whole number of 16-byte
//! blocks, hashed, enciphered block by block (each block independently),
//! and the ciphertext base64-encoded.  The digest is computed over the
//! padded plaintext, since the receiver can only recompute it over the
//! padded bytes it decrypts.
//!
//! Two deliberate limitations of the scheme, kept as designed: padding is
//! plain zero bytes with no removal on decrypt, so the receiver gets the
//! plaintext with its trailing zero padding and must tolerate or strip it;
//! and the whole-blocks length requirement is enforced on the decoded
//! ciphertext, since the base64 text's own length says nothing direct about
//! block alignment.

use vstd::prelude::*;
use vstd::string::*;

use aes::cipher::generic_array::GenericArray;
use aes::cipher::{BlockDecrypt, BlockEncrypt, KeyInit};
use aes::Aes128;
use crypto::digest::Digest;
use crypto::sha1::Sha1;
use rand::rngs::OsRng;
use rand::RngCore;

verus! {

/// Why an envelope was rejected.
#[derive(Clone, Copy, Debug, PartialEq, Eq, Structural)]
pub enum DecriptionError {
    Unknown,
    VerificationFailure,
    WrongFormat,
    Base64Failure,
}

/// What `crypto::sha1` returns for the given bytes, as lowercase hex text.
pub uninterp spec fn sha1_hex_of(data: Seq<u8>) -> Seq<char>;

/// What `aes::Aes128` enciphers one 16-byte block to under the given key.
pub uninterp spec fn aes128_encrypt_of(key: Seq<u8>, block: Seq<u8>) -> Seq<u8>;

/// What `aes::Aes128` deciphers one 16-byte block to under the given key.
pub uninterp spec fn aes128_decrypt_of(key: Seq<u8>, block: Seq<u8>) -> Seq<u8>;

/// What `base64::encode` renders the given bytes as.
pub uninterp spec fn base64_of(data: Seq<u8>) -> Seq<char>;

/// What `base64::decode` makes of the given text: the decoded bytes, or
/// nothing when the text is not well-formed base64.
pub uninterp spec fn base64_decode_of(text: Seq<char>) -> Option<Seq<u8>>;

/// A lowercase hexadecimal digit.
pub open spec fn is_hex_char(c: char) -> bool {
    ('0' <= c && c <= '9') || ('a' <= c && c <= 'f')
}

/// The length `n` rounded up to the next multiple of 16.
pub open spec fn padded_len(n: int) -> int {
    if n % 16 == 0 {
        n
    } else {
        n + (16 - n % 16)
    }
}

/// The data zero-padded on the right to a whole number of 16-byte blocks.
pub open spec fn zero_pad16(data: Seq<u8>) -> Seq<u8> {
    data + Seq::new((padded_len(data.len() as int) - data.len() as int) as nat, |i: int| 0u8)
}

/// The data enciphered in independent 16-byte blocks, any trailing partial
/// block dropped.
pub open spec fn encrypt_blocks(key: Seq<u8>, data: Seq<u8>) -> Seq<u8>
    decreases data.len(),
{
    if data.len() < 16 {
        Seq::empty()
    } else {
        aes128_encrypt_of(key, data.take(16)) + encrypt_blocks(key, data.skip(16))
    }
}

/// The data deciphered in independent 16-byte blocks, any trailing partial
/// block dropped.
pub open spec fn decrypt_blocks(key: Seq<u8>, data: Seq<u8>) -> Seq<u8>
    decreases data.len(),
{
    if data.len() < 16 {
        Seq::empty()
    } else {
        aes128_decrypt_of(key, data.take(16)) + decrypt_blocks(key, data.skip(16))
    }
}

/// Relies on `rand::rngs::OsRng` (`RngCore::fill_bytes`): bytes from the
/// operating system's randomness source; nothing is promised of the values,
/// only that sixteen of them come back.
#[verifier::external_body]
pub fn generate_key() -> (r: Vec<u8>)
    ensures
        r@.len() == 16,
{
    let mut key = [0u8; 16];
    OsRng.fill_bytes(&mut key);
    key.to_vec()
}

/// Relies on `crypto::sha1::Sha1` through `Digest::result_str`: the SHA-1
/// digest of the input, a function of the input bytes alone, rendered as 40
/// lowercase hexadecimal characters.
#[verifier::external_body]
fn get_hash(data: &Vec<u8>) -> (r: String)
    ensures
        r@ == sha1_hex_of(data@),
        r@.len() == 40,
        forall|i: int| 0 <= i < r@.len() ==> is_hex_char(#[trigger] r@[i]),
{
    let mut hasher = Sha1::new();
    hasher.input(data);
    hasher.result_str()
}

/// Relies on `aes::Aes128` (`BlockEncrypt::encrypt_block`): one 16-byte
/// block enciphered under the 16-byte key, a function of key and block
/// alone; deciphering the result under the same key (`BlockDecrypt`) gives
/// the block back.
#[verifier::external_body]
fn aes128_encrypt_block(key: &Vec<u8>, block: &Vec<u8>) -> (r: Vec<u8>)
    requires
        key@.len() == 16,
        block@.len() == 16,
    ensures
        r@.len() == 16,
        r@ == aes128_encrypt_of(key@, block@),
        aes128_decrypt_of(key@, r@) == block@,
{
    let cipher = Aes128::new(GenericArray::from_slice(key.as_slice()));
    let mut b = GenericArray::clone_from_slice(block.as_slice());
    cipher.encrypt_block(&mut b);
    b.to_vec()
}

/// Relies on `aes::Aes128` (`BlockDecrypt::decrypt_block`): one 16-byte
/// block deciphered under the 16-byte key, a function of key and block
/// alone.
#[verifier::external_body]
fn aes128_decrypt_block(key: &Vec<u8>, block: &Vec<u8>) -> (r: Vec<u8>)
    requires
        key@.len() == 16,
        block@.len() == 16,
    ensures
        r@.len() == 16,
        r@ == aes128_decrypt_of(key@, block@),
{
    let cipher = Aes128::new(GenericArray::from_slice(key.as_slice()));
    let mut b = GenericArray::clone_from_slice(block.as_slice());
    cipher.decrypt_block(&mut b);
    b.to_vec()
}

/// Three consecutive `'='` characters start at position `i` of `s`.
pub open spec fn sep_at(s: Seq<char>, i: int) -> bool {
    &&& 0 <= i
    &&& i + 3 <= s.len()
    &&& s[i] == '='
    &&& s[i + 1] == '='
    &&& s[i + 2] == '='
}

/// Relies on `base64::encode` (the standard alphabet, `'='`-padded): the
/// encoding is a function of the input bytes alone; `base64::decode`
/// restores the input from it; and since every character but at most two
/// trailing `'='` comes from an alphabet without `'='`, no three
/// consecutive `'='` occur in it.
#[verifier::external_body]
pub fn to_base64(data: &Vec<u8>) -> (r: String)
    ensures
        r@ == base64_of(data@),
        base64_decode_of(r@) == Some(data@),
        forall|i: int| !sep_at(r@, i),
{
    base64::encode(data)
}

/// Relies on `base64::decode` (the standard alphabet): the decoding is a
/// function of the input text alone; it returns the decoded bytes, or
/// nothing when the text is malformed.
#[verifier::external_body]
fn base64_decode_raw(data: &str) -> (r: Option<Vec<u8>>)
    ensures
        match r {
            Some(v) => base64_decode_of(data@) == Some(v@),
            None => base64_decode_of(data@) is None,
        },
{
    match base64::decode(data) {
        Ok(v) => Some(v),
        Err(_) => None,
    }
}

/// Decodes base64 text, reporting malformed input as [`DecriptionError::Base64Failure`].
pub fn from_base64(data: &str) -> (r: Result<Vec<u8>, DecriptionError>)
    ensures
        match r {
            Ok(v) => base64_decode_of(data@) == Some(v@),
            Err(e) => base64_decode_of(data@) is None && e == DecriptionError::Base64Failure,
        },
{
    match base64_decode_raw(data) {
        Some(v) => Ok(v),
        None => Err(DecriptionError::Base64Failure),
    }
}

/// `padded_len` rounds up to a multiple of 16 less than 16 away.
proof fn lemma_padded_len(n: int)
    requires
        n >= 0,
    ensures
        n <= padded_len(n) < n + 16,
        padded_len(n) % 16 == 0,
{
    if n % 16 != 0 {
        vstd::arithmetic::div_mod::lemma_fundamental_div_mod(n, 16);
        vstd::arithmetic::div_mod::lemma_mod_multiples_basic(n / 16 + 1, 16);
        assert(padded_len(n) == (n / 16 + 1) * 16);
    }
}

/// Copies `data` and appends zero bytes up to the next 16-byte boundary.
fn zero_pad(data: &Vec<u8>) -> (r: Vec<u8>)
    requires
        data@.len() <= usize::MAX - 15,
    ensures
        r@ == zero_pad16(data@),
        r@.len() % 16 == 0,
        r@.len() == padded_len(data@.len() as int),
{
    let n = data.len();
    let rem = n % 16;
    let target: usize = if rem == 0 {
        n
    } else {
        n + (16 - rem)
    };
    proof {
        lemma_padded_len(n as int);
    }
    let mut out: Vec<u8> = Vec::new();
    let mut i: usize = 0;
    while i < n
        invariant
            i <= n,
            n == data@.len(),
            out@ == data@.take(i as int),
        decreases n - i,
    {
        out.push(data[i]);
        proof {
            assert(out@ =~= data@.take(i + 1));
        }
        i = i + 1;
    }
    proof {
        assert(out@ =~= data@);
    }
    while out.len() < target
        invariant
            n == data@.len(),
            target == padded_len(n as int),
            n <= out@.len() <= target,
            out@ == data@ + Seq::new((out@.len() - n) as nat, |j: int| 0u8),
        decreases target - out@.len(),
    {
        out.push(0u8);
        proof {
            assert(out@ =~= data@ + Seq::new((out@.len() - n) as nat, |j: int| 0u8));
        }
    }
    proof {
        assert(out@ =~= zero_pad16(data@));
    }
    out
}

/// Splitting off a whole block on the right commutes with blockwise
/// encryption.
proof fn lemma_encrypt_blocks_snoc(key: Seq<u8>, a: Seq<u8>, b: Seq<u8>)
    requires
        a.len() % 16 == 0,
        b.len() == 16,
    ensures
        encrypt_blocks(key, a + b) == encrypt_blocks(key, a) + aes128_encrypt_of(key, b),
    decreases a.len(),
{
    if a.len() == 0 {
        assert((a + b).len() == 16);
        assert((a + b).take(16) =~= b);
        assert((a + b).skip(16).len() == 0);
        assert(encrypt_blocks(key, (a + b).skip(16)) =~= Seq::<u8>::empty());
        assert(encrypt_blocks(key, a + b) =~= aes128_encrypt_of(key, b));
        assert(encrypt_blocks(key, a) + aes128_encrypt_of(key, b) =~= aes128_encrypt_of(key, b));
    } else {
        if a.len() < 16 {
            vstd::arithmetic::div_mod::lemma_small_mod(a.len(), 16nat);
        }
        assert(a.len() >= 16);
        vstd::arithmetic::div_mod::lemma_mod_sub_multiples_vanish(a.len() as int, 16);
        assert((a.len() - 16) % 16 == 0);
        assert((a + b).len() >= 16);
        assert((a + b).take(16) =~= a.take(16));
        assert((a + b).skip(16) =~= a.skip(16) + b);
        lemma_encrypt_blocks_snoc(key, a.skip(16), b);
        assert(encrypt_blocks(key, a + b) =~= encrypt_blocks(key, a) + aes128_encrypt_of(key, b));
    }
}

/// Splitting off a whole block on the right commutes with blockwise
/// decryption.
proof fn lemma_decrypt_blocks_snoc(key: Seq<u8>, a: Seq<u8>, b: Seq<u8>)
    requires
        a.len() % 16 == 0,
        b.len() == 16,
    ensures
        decrypt_blocks(key, a + b) == decrypt_blocks(key, a) + aes128_decrypt_of(key, b),
    decreases a.len(),
{
    if a.len() == 0 {
        assert((a + b).len() == 16);
        assert((a + b).take(16) =~= b);
        assert((a + b).skip(16).len() == 0);
        assert(decrypt_blocks(key, (a + b).skip(16)) =~= Seq::<u8>::empty());
        assert(decrypt_blocks(key, a + b) =~= aes128_decrypt_of(key, b));
        assert(decrypt_blocks(key, a) + aes128_decrypt_of(key, b) =~= aes128_decrypt_of(key, b));
    } else {
        if a.len() < 16 {
            vstd::arithmetic::div_mod::lemma_small_mod(a.len(), 16nat);
        }
        assert(a.len() >= 16);
        vstd::arithmetic::div_mod::lemma_mod_sub_multiples_vanish(a.len() as int, 16);
        assert((a.len() - 16) % 16 == 0);
        assert((a + b).take(16) =~= a.take(16));
        assert((a + b).skip(16) =~= a.skip(16) + b);
        lemma_decrypt_blocks_snoc(key, a.skip(16), b);
        assert(decrypt_blocks(key, a + b) =~= decrypt_blocks(key, a) + aes128_decrypt_of(key, b));
    }
}

/// A trailing partial block contributes nothing to blockwise decryption.
proof fn lemma_decrypt_blocks_tail(key: Seq<u8>, a: Seq<u8>, b: Seq<u8>)
    requires
        a.len() % 16 == 0,
        b.len() < 16,
    ensures
        decrypt_blocks(key, a + b) == decrypt_blocks(key, a),
    decreases a.len(),
{
    if a.len() == 0 {
        assert(a + b =~= b);
    } else {
        if a.len() < 16 {
            vstd::arithmetic::div_mod::lemma_small_mod(a.len(), 16nat);
        }
        assert(a.len() >= 16);
        vstd::arithmetic::div_mod::lemma_mod_sub_multiples_vanish(a.len() as int, 16);
        assert((a + b).len() >= 16);
        assert((a + b).take(16) =~= a.take(16));
        assert((a + b).skip(16) =~= a.skip(16) + b);
        lemma_decrypt_blocks_tail(key, a.skip(16), b);
        assert(decrypt_blocks(key, a + b) =~= decrypt_blocks(key, a));
    }
}

/// Copies the 16-byte block of `data` that starts at `off`.
fn copy_block(data: &Vec<u8>, off: usize) -> (r: Vec<u8>)
    requires
        off + 16 <= data@.len(),
    ensures
        r@ == data@.subrange(off as int, off as int + 16),
{
    let n = data.len();
    let end: usize = off + 16;
    let mut block: Vec<u8> = Vec::new();
    let mut t = off;
    while t < end
        invariant
            end == off + 16,
            off + 16 <= data@.len(),
            off <= t <= off + 16,
            block@ == data@.subrange(off as int, t as int),
        decreases end - t,
    {
        block.push(data[t]);
        proof {
            assert(block@ =~= data@.subrange(off as int, t + 1));
        }
        t = t + 1;
    }
    block
}

/// Enciphers data that is already a whole number of 16-byte blocks.
fn encrypt_aligned(data: &Vec<u8>, key: &Vec<u8>) -> (r: Vec<u8>)
    requires
        key@.len() == 16,
        data@.len() % 16 == 0,
    ensures
        r@ == encrypt_blocks(key@, data@),
        r@.len() == data@.len(),
        decrypt_blocks(key@, r@) == data@,
{
    let mut target: Vec<u8> = Vec::new();
    let mut off: usize = 0;
    while off < data.len()
        invariant
            key@.len() == 16,
            data@.len() % 16 == 0,
            off <= data@.len(),
            off % 16 == 0,
            target@.len() == off,
            target@ == encrypt_blocks(key@, data@.take(off as int)),
            decrypt_blocks(key@, target@) == data@.take(off as int),
        decreases data@.len() - off,
    {
        proof {
            assert(off + 16 <= data@.len()) by (nonlinear_arith)
                requires
                    off < data@.len(),
                    off % 16 == 0,
                    data@.len() % 16 == 0,
                    off >= 0;
        }
        let block = copy_block(data, off);
        let mut enc = aes128_encrypt_block(key, &block);
        let ghost old_target = target@;
        let ghost enc_view = enc@;
        target.append(&mut enc);
        proof {
            lemma_encrypt_blocks_snoc(key@, data@.take(off as int), block@);
            lemma_decrypt_blocks_snoc(key@, old_target, enc_view);
            assert(data@.take(off as int) + block@ =~= data@.take(off as int + 16));
        }
        off = off + 16;
    }
    proof {
        assert(data@.take(data@.len() as int) =~= data@);
    }
    target
}

/// Deciphers whole 16-byte blocks; a trailing partial block is dropped, as
/// the wire format never produces one.
fn decrypt(data: &Vec<u8>, key: &Vec<u8>) -> (r: Vec<u8>)
    requires
        key@.len() == 16,
    ensures
        r@ == decrypt_blocks(key@, data@),
{
    let mut target: Vec<u8> = Vec::new();
    let mut off: usize = 0;
    while off < data.len() && data.len() - off >= 16
        invariant
            key@.len() == 16,
            off <= data@.len(),
            off % 16 == 0,
            target@ == decrypt_blocks(key@, data@.take(off as int)),
        decreases data@.len() - off,
    {
        let block = copy_block(data, off);
        let mut dec = aes128_decrypt_block(key, &block);
        target.append(&mut dec);
        proof {
            lemma_decrypt_blocks_snoc(key@, data@.take(off as int), block@);
            assert(decrypt_blocks(key@, data@.take(off as int) + block@)
                == decrypt_blocks(key@, data@.take(off as int)) + aes128_decrypt_of(key@, block@));
            assert(data@.take(off as int) + block@ =~= data@.take(off as int + 16));
        }
        off = off + 16;
    }
    proof {
        lemma_decrypt_blocks_tail(key@, data@.take(off as int), data@.skip(off as int));
        assert(data@.take(off as int) + data@.skip(off as int) =~= data@);
    }
    target
}

/// The position of the first `"==="` at or after `i`, if any.
pub open spec fn first_sep_from(s: Seq<char>, i: int) -> Option<int>
    decreases s.len() - i
        when 0 <= i <= s.len()
{
    if i + 3 > s.len() {
        None
    } else if sep_at(s, i) {
        Some(i)
    } else {
        first_sep_from(s, i + 1)
    }
}

/// The digest part and the ciphertext part of an envelope: the text before
/// the first `"==="`, and the text between the first and the second (or the
/// end).  `None` when no `"==="` occurs at all.
pub open spec fn envelope_parts(s: Seq<char>) -> Option<(Seq<char>, Seq<char>)> {
    match first_sep_from(s, 0) {
        None => None,
        Some(i) => {
            let head = s.take(i);
            let rest = s.skip(i + 3);
            match first_sep_from(rest, 0) {
                None => Some((head, rest)),
                Some(j) => Some((head, rest.take(j))),
            }
        },
    }
}

/// What verification makes of an envelope under a key: the padded
/// plaintext, or the reason for rejection.
pub open spec fn decrypt_outcome(envelope: Seq<char>, key: Seq<u8>) -> Result<
    Seq<u8>,
    DecriptionError,
> {
    match envelope_parts(envelope) {
        None => Err(DecriptionError::WrongFormat),
        Some((digest, encoded)) => {
            if digest.len() != 40 {
                Err(DecriptionError::WrongFormat)
            } else {
                match base64_decode_of(encoded) {
                    None => Err(DecriptionError::Base64Failure),
                    Some(ciphertext) => {
                        if ciphertext.len() % 16 != 0 {
                            Err(DecriptionError::WrongFormat)
                        } else {
                            let plain = decrypt_blocks(key, ciphertext);
                            if sha1_hex_of(plain) == digest {
                                Ok(plain)
                            } else {
                                Err(DecriptionError::VerificationFailure)
                            }
                        }
                    },
                }
            }
        },
    }
}

/// The envelope that signing-and-encrypting a payload produces.
pub open spec fn envelope_of(data: Seq<u8>, key: Seq<u8>) -> Seq<char> {
    sha1_hex_of(zero_pad16(data)) + seq!['=', '=', '=']
        + base64_of(encrypt_blocks(key, zero_pad16(data)))
}

/// Law: an envelope whose ciphertext decodes to something other than a
/// whole number of 16-byte blocks is rejected as a format error, whatever
/// the key.
pub proof fn lemma_bad_block_length_rejected(
    envelope: Seq<char>,
    key: Seq<u8>,
    digest: Seq<char>,
    encoded: Seq<char>,
    ciphertext: Seq<u8>,
)
    requires
        envelope_parts(envelope) == Some((digest, encoded)),
        digest.len() == 40,
        base64_decode_of(encoded) == Some(ciphertext),
        ciphertext.len() % 16 != 0,
    ensures
        decrypt_outcome(envelope, key) == Err::<Seq<u8>, DecriptionError>(
            DecriptionError::WrongFormat,
        ),
{
}

/// If the first separator at or after `i` is at `k`, the search from `i`
/// finds exactly `k`.
proof fn lemma_first_sep_found(s: Seq<char>, i: int, k: int)
    requires
        0 <= i <= k,
        sep_at(s, k),
        forall|j: int| i <= j < k ==> !sep_at(s, j),
    ensures
        first_sep_from(s, i) == Some(k),
    decreases k - i,
{
    if i < k {
        lemma_first_sep_found(s, i + 1, k);
    }
}

/// With no separator anywhere at or after `i`, the search finds nothing.
proof fn lemma_first_sep_none(s: Seq<char>, i: int)
    requires
        0 <= i <= s.len(),
        forall|j: int| i <= j ==> !sep_at(s, j),
    ensures
        first_sep_from(s, i) == None::<int>,
    decreases s.len() - i,
{
    if i + 3 <= s.len() {
        lemma_first_sep_none(s, i + 1);
    }
}

/// Scans for the first `"==="` in `s`.
fn find_sep(s: &str) -> (r: Option<usize>)
    ensures
        match r {
            Some(i) => first_sep_from(s@, 0) == Some(i as int) && i + 3 <= s@.len(),
            None => first_sep_from(s@, 0) == None::<int>,
        },
{
    let n = s.unicode_len();
    if n < 3 {
        proof {
            lemma_first_sep_none(s@, 0);
        }
        return None;
    }
    let mut i: usize = 0;
    while i <= n - 3
        invariant
            n == s@.len(),
            3 <= n,
            i <= n - 2,
            forall|j: int| 0 <= j < i ==> !sep_at(s@, j),
        decreases n - i,
    {
        let c0 = s.get_char(i);
        let c1 = s.get_char(i + 1);
        let c2 = s.get_char(i + 2);
        if c0 == '=' && c1 == '=' && c2 == '=' {
            proof {
                lemma_first_sep_found(s@, 0, i as int);
            }
            return Some(i);
        }
        proof {
            assert(!sep_at(s@, i as int));
        }
        i = i + 1;
    }
    proof {
        assert forall|j: int| 0 <= j implies !sep_at(s@, j) by {
            if j < i {
            } else {
                assert(j + 3 > s@.len());
            }
        }
        lemma_first_sep_none(s@, 0);
    }
    None
}

/// Wraps a payload for the wire: the SHA-1 digest of the zero-padded
/// plaintext, `"==="`, and the base64 of the blockwise ciphertext.  The
/// resulting envelope always verifies back (under the same key) to the
/// padded plaintext.
pub fn sign_and_encrypt(data: &Vec<u8>, key: &Vec<u8>) -> (r: String)
    requires
        key@.len() == 16,
        data@.len() <= usize::MAX - 15,
    ensures
        r@ == envelope_of(data@, key@),
        decrypt_outcome(r@, key@) == Ok::<Seq<u8>, DecriptionError>(zero_pad16(data@)),
{
    let padded = zero_pad(data);
    let hash = get_hash(&padded);
    let encrypted = encrypt_aligned(&padded, key);
    let based = to_base64(&encrypted);
    let ghost h = hash@;
    let ghost b = based@;
    let result = hash.concat("===").concat(based.as_str());
    proof {
        reveal_strlit("===");
        assert("==="@ =~= seq!['=', '=', '=']);
        let env = result@;
        assert(env =~= h + seq!['=', '=', '='] + b);
        assert(env =~= envelope_of(data@, key@));
        assert forall|j: int| 0 <= j < 40 implies !sep_at(env, j) by {
            assert(env[j] == h[j]);
            assert(is_hex_char(h[j]));
        }
        assert(env[40] == '=' && env[41] == '=' && env[42] == '=');
        assert(sep_at(env, 40));
        lemma_first_sep_found(env, 0, 40);
        assert(env.take(40) =~= h);
        assert(env.skip(43) =~= b);
        lemma_first_sep_none(b, 0);
        assert(envelope_parts(env) == Some((h, b)));
        assert(decrypt_outcome(env, key@) == Ok::<Seq<u8>, DecriptionError>(zero_pad16(data@)));
    }
    result
}

/// Unwraps an envelope: splits it on `"==="`, checks the digest length,
/// decodes the base64 ciphertext, checks its block alignment, deciphers it,
/// and compares the recomputed digest with the transmitted one.  On success
/// the padded plaintext comes back, trailing zero padding included.
pub fn verify_and_decrypt(data: &str, key: &Vec<u8>) -> (r: Result<Vec<u8>, DecriptionError>)
    requires
        key@.len() == 16,
    ensures
        match r {
            Ok(v) => decrypt_outcome(data@, key@) == Ok::<Seq<u8>, DecriptionError>(v@),
            Err(e) => decrypt_outcome(data@, key@) == Err::<Seq<u8>, DecriptionError>(e),
        },
{
    let n = data.unicode_len();
    let sep = match find_sep(data) {
        None => {
            return Err(DecriptionError::WrongFormat);
        },
        Some(i) => i,
    };
    let head = data.substring_char(0, sep);
    let rest = data.substring_char(sep + 3, n);
    proof {
        assert(head@ =~= data@.take(sep as int));
        assert(rest@ =~= data@.skip(sep as int + 3));
    }
    let tail = match find_sep(rest) {
        None => rest,
        Some(j) => rest.substring_char(0, j),
    };
    proof {
        let parts = envelope_parts(data@);
        assert(parts == Some((head@, tail@)));
    }
    if head.unicode_len() != 40 {
        return Err(DecriptionError::WrongFormat);
    }
    let decoded = match from_base64(tail) {
        Ok(v) => v,
        Err(e) => {
            return Err(e);
        },
    };
    if decoded.len() % 16 != 0 {
        return Err(DecriptionError::WrongFormat);
    }
    let decrypted = decrypt(&decoded, key);
    let hash = get_hash(&decrypted);
    let head_string = String::from_str(head);
    if hash == head_string {
        Ok(decrypted)
    } else {
        Err(DecriptionError::VerificationFailure)
    }
}

} // verus!
