//! DES-CBC decryption of `.bin` files and the gzip layer behind it.
//!
//! A file is `DES-CBC(key, iv)` over `gzip(xml)`. The block cipher itself and
//! the gzip decoder are outside code; the chaining, the block layout and the
//! padding are stated and proved here.

use vstd::prelude::*;
use std::io::Read;
use des::cipher::generic_array::GenericArray;
use des::cipher::{BlockDecrypt, KeyInit};
use des::Des;
use flate2::read::GzDecoder;

verus! {

/// The DES key under which every `.bin` file is encrypted.
pub const DES_KEY: [u8; 8] = [0x30, 0xEF, 0x72, 0x47, 0x42, 0xF2, 0x04, 0x32];

/// The CBC initialisation vector of every `.bin` file.
pub const DES_IV: [u8; 8] = [0x0E, 0xA6, 0xDC, 0x89, 0xDB, 0xED, 0xDC, 0x4F];

/// What the `des` crate computes when it decrypts the 8-byte `block` under
/// the 8-byte `key` (one DES block, no chaining).
pub uninterp spec fn des_block_decryption(key: Seq<u8>, block: Seq<u8>) -> Seq<u8>;

/// Decrypts one 8-byte block with DES in ECB mode.
///
/// Trusted: calls `Des::new_from_slice` and `BlockDecrypt::decrypt_block` of
/// the `des` crate. The contract claims only that the result is the DES
/// decryption of `block` under `key`, a function of the two alone; a key of
/// 8 bytes is always accepted by `new_from_slice`, so the `expect` never fires.
#[verifier::external_body]
fn des_ecb_decrypt_block(key: &[u8; 8], block: &[u8; 8]) -> (plain: [u8; 8])
    ensures
        plain@ == des_block_decryption(key@, block@),
{
    let cipher = Des::new_from_slice(key).expect("DES key must be 8 bytes");
    let mut buf = GenericArray::clone_from_slice(block);
    cipher.decrypt_block(&mut buf);
    buf.into()
}

/// The `i`-th 8-byte block of `data`.
pub open spec fn cipher_block(data: Seq<u8>, i: int) -> Seq<u8> {
    data.subrange(8 * i, 8 * i + 8)
}

/// The block that plaintext block `i` is chained with: the IV for the first
/// block, the previous ciphertext block otherwise (`C_0 = IV`).
pub open spec fn chaining_block(data: Seq<u8>, i: int) -> Seq<u8> {
    if i == 0 {
        DES_IV@
    } else {
        cipher_block(data, i - 1)
    }
}

/// Byte-wise exclusive or of two 8-byte blocks.
pub open spec fn xor_block(a: Seq<u8>, b: Seq<u8>) -> Seq<u8> {
    Seq::new(8, |k: int| a[k] ^ b[k])
}

/// Plaintext block `i`: `P_i = DES_DECRYPT(K, C_i) XOR C_{i-1}`.
pub open spec fn plain_block(data: Seq<u8>, i: int) -> Seq<u8> {
    xor_block(des_block_decryption(DES_KEY@, cipher_block(data, i)), chaining_block(data, i))
}

/// The first `n` plaintext blocks of `data`, concatenated.
pub open spec fn cbc_prefix(data: Seq<u8>, n: nat) -> Seq<u8>
    decreases n,
{
    if n == 0 {
        Seq::empty()
    } else {
        cbc_prefix(data, (n - 1) as nat) + plain_block(data, n - 1)
    }
}

/// CBC decryption of every whole block of `data`.
pub open spec fn cbc_decrypt(data: Seq<u8>) -> Seq<u8> {
    cbc_prefix(data, data.len() / 8)
}

/// Removes the padding that the last byte announces: when the last byte `n`
/// is between 1 and 8 (and no more than the length), the last `n` bytes go;
/// otherwise nothing is removed. The padding bytes themselves are not checked.
pub open spec fn strip_padding(p: Seq<u8>) -> Seq<u8> {
    if p.len() > 0 && 0 < p.last() && p.last() <= 8 && p.last() <= p.len() {
        p.take(p.len() - p.last())
    } else {
        p
    }
}

/// The decrypted contents of a `.bin` file: CBC decryption, then padding removed.
pub open spec fn des_cbc_plaintext(data: Seq<u8>) -> Seq<u8> {
    strip_padding(cbc_decrypt(data))
}

/// Why a `.bin` file could not be decrypted.
#[derive(Debug, PartialEq, Eq)]
pub enum DecryptError {
    /// The input is not a whole number of 8-byte DES blocks.
    NotBlockAligned { len: usize },
    /// The decrypted bytes are not gzip data holding UTF-8 text.
    NotGzipText,
}

/// Undoes the CBC chaining of one block: exclusive or of the DES output of a
/// block with the block it is chained with.
pub fn unchain_block(decrypted: &[u8; 8], previous: &[u8; 8]) -> (plain: [u8; 8])
    ensures
        plain@ == xor_block(decrypted@, previous@),
{
    let plain: [u8; 8] = [
        decrypted[0] ^ previous[0],
        decrypted[1] ^ previous[1],
        decrypted[2] ^ previous[2],
        decrypted[3] ^ previous[3],
        decrypted[4] ^ previous[4],
        decrypted[5] ^ previous[5],
        decrypted[6] ^ previous[6],
        decrypted[7] ^ previous[7],
    ];
    assert(plain@ =~= xor_block(decrypted@, previous@));
    plain
}

/// Removes PKCS#7-style padding in place, as `strip_padding` states.
pub fn strip_pkcs7_padding(plain: &mut Vec<u8>)
    ensures
        final(plain)@ == strip_padding(old(plain)@),
{
    let len = plain.len();
    if len > 0 {
        let pad = plain[len - 1] as usize;
        if pad > 0 && pad <= 8 && pad <= len {
            plain.truncate(len - pad);
            assert(plain@ =~= strip_padding(old(plain)@));
        }
    }
}

/// DES-CBC decryption of a whole `.bin` file:
/// `P_i = DES_DECRYPT(K, C_i) XOR C_{i-1}`, `C_0 = IV`, then the padding goes.
/// An empty input decrypts to nothing; an input that is not a whole number of
/// blocks is refused.
pub fn decrypt_des_cbc(data: &[u8]) -> (res: Result<Vec<u8>, DecryptError>)
    ensures
        data@.len() % 8 != 0 <==> res is Err,
        res matches Err(e) ==> e == (DecryptError::NotBlockAligned { len: data@.len() as usize }),
        res matches Ok(p) ==> p@ == des_cbc_plaintext(data@),
{
    let len = data.len();
    if len == 0 {
        let empty: Vec<u8> = Vec::new();
        assert(empty@ =~= des_cbc_plaintext(data@));
        return Ok(empty);
    }
    if len % 8 != 0 {
        return Err(DecryptError::NotBlockAligned { len });
    }
    let nblocks = len / 8;
    let mut result: Vec<u8> = Vec::with_capacity(len);
    let mut prev: [u8; 8] = DES_IV;
    let mut b: usize = 0;
    while b < nblocks
        invariant
            len == data@.len(),
            len % 8 == 0,
            nblocks == len / 8,
            b <= nblocks,
            result@ == cbc_prefix(data@, b as nat),
            prev@ == chaining_block(data@, b as int),
        decreases nblocks - b,
    {
        let o = b * 8;
        let block: [u8; 8] = [
            data[o],
            data[o + 1],
            data[o + 2],
            data[o + 3],
            data[o + 4],
            data[o + 5],
            data[o + 6],
            data[o + 7],
        ];
        assert(block@ =~= cipher_block(data@, b as int));
        let decrypted = des_ecb_decrypt_block(&DES_KEY, &block);
        let plain = unchain_block(&decrypted, &prev);
        let ghost before = result@;
        let mut k: usize = 0;
        while k < 8
            invariant
                k <= 8,
                result@ == before + plain@.take(k as int),
            decreases 8 - k,
        {
            result.push(plain[k]);
            assert(plain@.take(k + 1) =~= plain@.take(k as int).push(plain@[k as int]));
            k = k + 1;
        }
        assert(plain@.take(8) =~= plain@);
        prev = block;
        b = b + 1;
    }
    strip_pkcs7_padding(&mut result);
    Ok(result)
}

/// The text that a gzip stream decompresses to, when it is valid gzip data
/// holding UTF-8 text; `None` otherwise. This is what `flate2` computes.
pub uninterp spec fn gunzip_text(data: Seq<u8>) -> Option<Seq<char>>;

/// Decompresses gzip data into a string.
///
/// Trusted: calls `flate2::read::GzDecoder::new` and `Read::read_to_string`
/// on an in-memory slice. The contract claims that the outcome is the named
/// function `gunzip_text` of the input bytes alone: the decompressed text,
/// or `None` when the data is not gzip or its content is not UTF-8.
#[verifier::external_body]
fn gzip_decompress(data: &[u8]) -> (text: Option<String>)
    ensures
        match text {
            Some(t) => gunzip_text(data@) == Some(t@),
            None => gunzip_text(data@) is None,
        },
{
    let mut decoder = GzDecoder::new(data);
    let mut s = String::new();
    decoder.read_to_string(&mut s).ok().map(|_| s)
}

/// Decrypts a `.bin` file into its XML text: DES-CBC, then gunzip.
pub fn decrypt_bin(data: &[u8]) -> (res: Result<String, DecryptError>)
    ensures
        data@.len() % 8 != 0 ==> res == Err::<String, DecryptError>(
            DecryptError::NotBlockAligned { len: data@.len() as usize },
        ),
        data@.len() % 8 == 0 ==> match gunzip_text(des_cbc_plaintext(data@)) {
            Some(t) => res matches Ok(s) && s@ == t,
            None => res == Err::<String, DecryptError>(DecryptError::NotGzipText),
        },
{
    let decrypted = match decrypt_des_cbc(data) {
        Ok(p) => p,
        Err(e) => return Err(e),
    };
    match gzip_decompress(decrypted.as_slice()) {
        Some(t) => Ok(t),
        None => Err(DecryptError::NotGzipText),
    }
}

/// Every plaintext block is 8 bytes long, so `n` blocks decrypt to `8 * n` bytes.
pub proof fn lemma_cbc_prefix_len(data: Seq<u8>, n: nat)
    ensures
        cbc_prefix(data, n).len() == 8 * n,
    decreases n,
{
    if n > 0 {
        lemma_cbc_prefix_len(data, (n - 1) as nat);
    }
}

/// Block `i` of the CBC decryption of `data` is `DES_DECRYPT(K, C_i) XOR C_{i-1}`
/// (with `C_{-1}` the IV): each plaintext block depends on two ciphertext
/// blocks only.
pub proof fn lemma_cbc_block(data: Seq<u8>, i: int)
    requires
        data.len() % 8 == 0,
        0 <= i < data.len() / 8,
    ensures
        cbc_decrypt(data).subrange(8 * i, 8 * i + 8) == plain_block(data, i),
{
    lemma_cbc_prefix_block(data, (data.len() / 8) as nat, i);
}

proof fn lemma_cbc_prefix_block(data: Seq<u8>, n: nat, i: int)
    requires
        0 <= i < n,
    ensures
        cbc_prefix(data, n).subrange(8 * i, 8 * i + 8) == plain_block(data, i),
    decreases n,
{
    lemma_cbc_prefix_len(data, (n - 1) as nat);
    let prev = cbc_prefix(data, (n - 1) as nat);
    if i < n - 1 {
        lemma_cbc_prefix_block(data, (n - 1) as nat, i);
        assert(cbc_prefix(data, n).subrange(8 * i, 8 * i + 8) =~= prev.subrange(8 * i, 8 * i + 8));
    } else {
        assert(cbc_prefix(data, n).subrange(8 * i, 8 * i + 8) =~= plain_block(data, i));
    }
}

/// Decryption removes at most one block of padding: the plaintext of a
/// block-aligned input is at most 8 bytes shorter than the input.
pub proof fn lemma_plaintext_len(data: Seq<u8>)
    requires
        data.len() % 8 == 0,
    ensures
        data.len() - 8 <= des_cbc_plaintext(data).len() <= data.len(),
{
    lemma_cbc_prefix_len(data, (data.len() / 8) as nat);
}

/// `n` bytes of value `n`, the PKCS#7 padding of a message whose length
/// leaves `8 - n` bytes in its last block.
pub open spec fn pkcs7_padding(n: nat) -> Seq<u8> {
    Seq::new(n, |_k: int| n as u8)
}

/// Stripping undoes PKCS#7 padding: a message with 1 to 8 padding bytes
/// appended comes back unchanged.
pub proof fn lemma_strip_undoes_padding(msg: Seq<u8>, n: nat)
    requires
        1 <= n <= 8,
    ensures
        strip_padding(msg + pkcs7_padding(n)) == msg,
{
    let p = msg + pkcs7_padding(n);
    assert(p.last() == n as u8);
    assert(p.take(p.len() - n) =~= msg);
}

/// The decryption of every whole block equals the block itself when the
/// blocks agree one by one.
proof fn lemma_cbc_decrypt_by_blocks(data: Seq<u8>, m: Seq<u8>)
    requires
        data.len() % 8 == 0,
        m.len() == data.len(),
        forall|i: int| 0 <= i < data.len() / 8 ==> #[trigger] plain_block(data, i) == cipher_block(m, i),
    ensures
        cbc_decrypt(data) == m,
{
    let c = cbc_decrypt(data);
    lemma_cbc_prefix_len(data, (data.len() / 8) as nat);
    assert forall|q: int| 0 <= q < m.len() implies #[trigger] c[q] == m[q] by {
        let i = q / 8;
        lemma_cbc_block(data, i);
        assert(c.subrange(8 * i, 8 * i + 8)[q - 8 * i] == c[q]);
        assert(plain_block(data, i)[q - 8 * i] == cipher_block(m, i)[q - 8 * i]);
    }
    assert(c =~= m);
}

/// `data` is the CBC encryption of the whole blocks `m` under the game's key
/// and IV: `C_i = DES_ENCRYPT(K, M_i XOR C_{i-1})`, which, DES being a
/// permutation, holds exactly when `DES_DECRYPT(K, C_i) == M_i XOR C_{i-1}`.
pub open spec fn is_cbc_encryption_of(data: Seq<u8>, m: Seq<u8>) -> bool {
    &&& m.len() % 8 == 0
    &&& data.len() == m.len()
    &&& forall|i: int| 0 <= i < m.len() / 8 ==> #[trigger] des_block_decryption(DES_KEY@, cipher_block(data, i))
        == xor_block(cipher_block(m, i), chaining_block(data, i))
}

/// Decryption undoes the game's encryption: a message padded with PKCS#7 to
/// whole blocks and encrypted in CBC mode with the game's key and IV
/// decrypts to the message.
pub proof fn lemma_cbc_round_trip(msg: Seq<u8>, data: Seq<u8>)
    requires
        is_cbc_encryption_of(data, msg + pkcs7_padding((8 - msg.len() % 8) as nat)),
    ensures
        des_cbc_plaintext(data) == msg,
{
    let m = msg + pkcs7_padding((8 - msg.len() % 8) as nat);
    assert forall|i: int| 0 <= i < data.len() / 8 implies #[trigger] plain_block(data, i) == cipher_block(m, i) by {
        let d = des_block_decryption(DES_KEY@, cipher_block(data, i));
        let mb = cipher_block(m, i);
        let ch = chaining_block(data, i);
        assert(d == xor_block(mb, ch));
        assert forall|k: int| 0 <= k < 8 implies #[trigger] xor_block(d, ch)[k] == mb[k] by {
            let a = mb[k];
            let b = ch[k];
            assert((a ^ b) ^ b == a) by (bit_vector);
        }
        assert(xor_block(d, ch) =~= mb);
    }
    lemma_cbc_decrypt_by_blocks(data, m);
    lemma_strip_undoes_padding(msg, (8 - msg.len() % 8) as nat);
}

/// Flipping bits in ciphertext block `i` garbles plaintext block `i`, flips
/// the same bits in plaintext block `i + 1`, and leaves every other plaintext
/// byte (and, the last block being untouched, the length) as it was.
pub proof fn lemma_cbc_bit_flip(d1: Seq<u8>, d2: Seq<u8>, i: int, j: int, x: u8)
    requires
        d1.len() % 8 == 0,
        d2.len() == d1.len(),
        0 <= i,
        i + 2 < d1.len() / 8,
        0 <= j < 8,
        d2[8 * i + j] == d1[8 * i + j] ^ x,
        forall|m: int| 0 <= m < d1.len() && m != 8 * i + j ==> d2[m] == d1[m],
    ensures
        des_cbc_plaintext(d2).len() == des_cbc_plaintext(d1).len(),
        des_cbc_plaintext(d2)[8 * (i + 1) + j] == des_cbc_plaintext(d1)[8 * (i + 1) + j] ^ x,
        forall|m: int| 0 <= m < des_cbc_plaintext(d1).len() && (m < 8 * i || m >= 8 * (i + 2))
            ==> #[trigger] des_cbc_plaintext(d2)[m] == des_cbc_plaintext(d1)[m],
{
    let n = d1.len() / 8;
    let c1 = cbc_decrypt(d1);
    let c2 = cbc_decrypt(d2);
    lemma_cbc_prefix_len(d1, n as nat);
    lemma_cbc_prefix_len(d2, n as nat);
    assert forall|k: int| 0 <= k < n && k != i implies #[trigger] cipher_block(d2, k) == cipher_block(d1, k) by {
        assert(cipher_block(d2, k) =~= cipher_block(d1, k));
    }
    // Every byte outside blocks `i` and `i + 1` decrypts the same.
    assert forall|q: int| 0 <= q < c1.len() && (q < 8 * i || q >= 8 * (i + 2)) implies #[trigger] c2[q] == c1[q] by {
        let k = q / 8;
        lemma_cbc_block(d1, k);
        lemma_cbc_block(d2, k);
        assert(cipher_block(d2, k) == cipher_block(d1, k));
        if k > 0 {
            assert(cipher_block(d2, k - 1) == cipher_block(d1, k - 1));
        }
        assert(plain_block(d2, k) == plain_block(d1, k));
        assert(c1.subrange(8 * k, 8 * k + 8)[q - 8 * k] == c1[q]);
        assert(c2.subrange(8 * k, 8 * k + 8)[q - 8 * k] == c2[q]);
    }
    // Block `i + 1` is chained with the flipped block.
    let q = 8 * (i + 1) + j;
    lemma_cbc_block(d1, i + 1);
    lemma_cbc_block(d2, i + 1);
    assert(cipher_block(d2, i + 1) == cipher_block(d1, i + 1));
    assert(c1.subrange(8 * (i + 1), 8 * (i + 1) + 8)[j] == c1[q]);
    assert(c2.subrange(8 * (i + 1), 8 * (i + 1) + 8)[j] == c2[q]);
    let dd = des_block_decryption(DES_KEY@, cipher_block(d1, i + 1))[j];
    let a = d1[8 * i + j];
    assert(cipher_block(d1, i)[j] == a);
    assert(cipher_block(d2, i)[j] == d2[8 * i + j]);
    assert((dd ^ (a ^ x)) == (dd ^ a) ^ x) by (bit_vector);
    assert(c2[q] == c1[q] ^ x);
    // The last block is untouched, so the same padding goes.
    assert(c2.last() == c1[c1.len() - 1]);
}

/// A `.bin` file decodes to the text that its compressed content holds: when
/// `data` is the padded CBC encryption of the gzip data `gz`, and `gz`
/// inflates to `text`, then `decrypt_bin` of `data` gives `text` back (by its
/// contract, since the data is block aligned and decrypts to `gz`).
pub proof fn lemma_bin_round_trip(gz: Seq<u8>, data: Seq<u8>, text: Seq<char>)
    requires
        is_cbc_encryption_of(data, gz + pkcs7_padding((8 - gz.len() % 8) as nat)),
        gunzip_text(gz) == Some(text),
    ensures
        data.len() % 8 == 0,
        gunzip_text(des_cbc_plaintext(data)) == Some(text),
{
    lemma_cbc_round_trip(gz, data);
}

} // verus!
