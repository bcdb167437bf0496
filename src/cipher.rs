//! Decryption of submission payloads: AES-256 in CBC mode, with the
//! initialization vector in the first block and PKCS#7 padding at the end.
//!
//! The mode carries no integrity tag, so a tampered ciphertext can only be told
//! apart from a wrong key by its padding. Every failure is reported as the same
//! `DecryptFailure` to keep that padding oracle as narrow as the format allows.

use vstd::prelude::*;
use aes::cipher::block_padding::NoPadding;
use aes::cipher::{BlockDecryptMut, KeyIvInit};

verus! {

/// Block size of AES, and length of the initialization vector.
pub const BLOCK_SIZE: usize = 16;

/// Key length of AES-256.
pub const KEY_LEN: usize = 32;

/// The one failure that decryption reports, whatever went wrong.
#[derive(Debug, Clone, Copy, PartialEq, Eq, Structural)]
pub struct DecryptFailure;

/// The bytes that AES-256 in CBC mode yields for the ciphertext `ct` under
/// `key` and `iv`, block for block, before any padding is removed.
pub uninterp spec fn aes256_cbc_plain(key: Seq<u8>, iv: Seq<u8>, ct: Seq<u8>) -> Seq<u8>;

/// Relies on `cbc::Decryptor::<aes::Aes256>::decrypt_padded_vec_mut::<NoPadding>`:
/// it fails exactly when the input is not a whole number of blocks, and
/// otherwise returns one output byte per input byte.
#[verifier::external_body]
fn cbc_decrypt_blocks(key: &[u8], iv: &[u8], ct: &[u8]) -> (r: Option<Vec<u8>>)
    requires
        key@.len() == KEY_LEN,
        iv@.len() == BLOCK_SIZE,
    ensures
        r is Some <==> ct@.len() as int % (BLOCK_SIZE as int) == 0,
        r matches Some(p) ==> p@ == aes256_cbc_plain(key@, iv@, ct@),
        r matches Some(p) ==> p@.len() == ct@.len(),
{
    cbc::Decryptor::<aes::Aes256>::new(key.into(), iv.into())
        .decrypt_padded_vec_mut::<NoPadding>(ct)
        .ok()
}

/// Whether `p` ends in well-formed PKCS#7 padding: its last byte `n` lies in
/// `1..=16`, and the last `n` bytes all equal `n`.
pub open spec fn pkcs7_valid(p: Seq<u8>) -> bool {
    &&& p.len() > 0
    &&& 1 <= p.last() <= BLOCK_SIZE
    &&& p.last() <= p.len()
    &&& forall|i: int| p.len() - p.last() <= i < p.len() ==> p[i] == p.last()
}

/// `p` with its padding removed.
pub open spec fn pkcs7_strip(p: Seq<u8>) -> Seq<u8> {
    p.subrange(0, p.len() - p.last())
}

/// `m` padded up to the next whole block: `n` bytes of value `n`, with
/// `n` in `1..=16`.
pub open spec fn pkcs7_pad(m: Seq<u8>) -> Seq<u8> {
    let n = BLOCK_SIZE - m.len() as int % (BLOCK_SIZE as int);
    m + Seq::new(n as nat, |i: int| n as u8)
}

/// What a payload decrypts to under `key`: the first block is the
/// initialization vector, the rest whole blocks of ciphertext whose plaintext
/// ends in valid padding.
pub open spec fn decrypt_spec(key: Seq<u8>, payload: Seq<u8>) -> Option<Seq<u8>> {
    if payload.len() < BLOCK_SIZE || (payload.len() - BLOCK_SIZE) % (BLOCK_SIZE as int) != 0 {
        None
    } else {
        let p = aes256_cbc_plain(key, payload.take(BLOCK_SIZE as int), payload.skip(BLOCK_SIZE as int));
        if pkcs7_valid(p) {
            Some(pkcs7_strip(p))
        } else {
            None
        }
    }
}

/// Padding a message and removing the padding again gives the message back,
/// and the padded message is a whole number of blocks.
pub proof fn lemma_pad_strip(m: Seq<u8>)
    ensures
        pkcs7_pad(m).len() as int % (BLOCK_SIZE as int) == 0,
        pkcs7_valid(pkcs7_pad(m)),
        pkcs7_strip(pkcs7_pad(m)) == m,
{
    let n = BLOCK_SIZE - m.len() as int % (BLOCK_SIZE as int);
    let p = pkcs7_pad(m);
    assert(p.last() == n as u8);
    assert(pkcs7_strip(p) =~= m);
}

/// A payload made of an initialization vector and whole blocks that decrypt
/// to a padded message gives that message back.
pub proof fn lemma_decrypt_padded(key: Seq<u8>, iv: Seq<u8>, ct: Seq<u8>, m: Seq<u8>)
    requires
        iv.len() == BLOCK_SIZE,
        ct.len() as int % (BLOCK_SIZE as int) == 0,
        aes256_cbc_plain(key, iv, ct) == pkcs7_pad(m),
    ensures
        decrypt_spec(key, iv + ct) == Some(m),
{
    let payload = iv + ct;
    assert(payload.take(BLOCK_SIZE as int) =~= iv);
    assert(payload.skip(BLOCK_SIZE as int) =~= ct);
    lemma_pad_strip(m);
}

/// Removes PKCS#7 padding; fails unless the padding is exact.
pub fn pkcs7_unpad(p: Vec<u8>) -> (r: Result<Vec<u8>, DecryptFailure>)
    ensures
        r is Ok <==> pkcs7_valid(p@),
        r matches Ok(m) ==> m@ == pkcs7_strip(p@),
{
    let len = p.len();
    if len == 0 {
        return Err(DecryptFailure);
    }
    let n = p[len - 1];
    if n < 1 || n as usize > BLOCK_SIZE || n as usize > len {
        return Err(DecryptFailure);
    }
    let start = len - n as usize;
    let mut i: usize = start;
    while i < len
        invariant
            start <= i <= len,
            len == p@.len(),
            start == len - n,
            n == p@.last(),
            forall|j: int| start <= j < i ==> p@[j] == n,
        decreases len - i,
    {
        if p[i] != n {
            return Err(DecryptFailure);
        }
        i = i + 1;
    }
    let mut m = p;
    m.truncate(start);
    Ok(m)
}

/// Decrypts a payload whose first block is the initialization vector and
/// whose remainder is the ciphertext, then removes the padding.
pub fn decrypt(key: &[u8], payload: &[u8]) -> (r: Result<Vec<u8>, DecryptFailure>)
    requires
        key@.len() == KEY_LEN,
    ensures
        r is Ok <==> decrypt_spec(key@, payload@) is Some,
        r matches Ok(m) ==> decrypt_spec(key@, payload@) == Some(m@),
        payload@.len() < BLOCK_SIZE ==> r is Err,
        payload@.len() as int % (BLOCK_SIZE as int) != 0 ==> r is Err,
        payload@.len() >= BLOCK_SIZE && !pkcs7_valid(
            aes256_cbc_plain(key@, payload@.take(BLOCK_SIZE as int), payload@.skip(BLOCK_SIZE as int)),
        ) ==> r is Err,
{
    if payload.len() < BLOCK_SIZE {
        return Err(DecryptFailure);
    }
    let iv = vstd::slice::slice_subrange(payload, 0, BLOCK_SIZE);
    let ct = vstd::slice::slice_subrange(payload, BLOCK_SIZE, payload.len());
    assert(iv@ == payload@.take(BLOCK_SIZE as int));
    assert(ct@ == payload@.skip(BLOCK_SIZE as int));
    match cbc_decrypt_blocks(key, iv, ct) {
        None => Err(DecryptFailure),
        Some(p) => pkcs7_unpad(p),
    }
}

} // verus!
