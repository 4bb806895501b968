//! Encryption and decryption of the game's files.
//!
//! An encrypted file is a 0x30-byte header followed by a zlib stream padded
//! with zeros to a multiple of 16 bytes. The header starts with `MZNC`,
//! holds the CRC32 of the whole plain file at 0x24 (computed while that
//! field is zero) and the decompressed size at 0x28, both little-endian.
//! Everything after the header is AES-192-CBC encrypted with a key derived
//! from the file size and an IV derived from the CRC32. Finally the first
//! kilobyte, except its first four bytes, is XOR-ed with a key stream.

use vstd::prelude::*;
use crate::prng::{interweave, prng_output, MyPrng};
use aes::cipher::{BlockModeDecrypt, BlockModeEncrypt, KeyIvInit};
use std::io::{Read, Write};

verus! {

#[verifier::external_type_specification]
#[verifier::external_body]
pub struct ExIoError(std::io::Error);

/// Errors of encryption and decryption.
#[derive(Debug)]
pub enum CryptError {
    /// An error reported by the zlib codec or by I/O.
    IoError(std::io::Error),
    /// The file has a size that the format does not allow.
    FileSizeError(String),
    /// The data is not what the format needs, with a message; the zlib
    /// stream of a file that ends before the stream does.
    InvalidData(String),
    /// The CRC32 stored in the file differs from the computed one.
    ChecksumMismatch { stored_crc: u32, computed_crc: u32 },
    /// The decompressed size stored in the file differs from the actual one.
    DecompressedSizeMismatch { stored_size: u64, actual_size: u64 },
}

impl CryptError {
    /// A `FileSizeError` with the given message.
    pub fn file_size_error(message: &str) -> (r: CryptError)
        ensures
            r matches CryptError::FileSizeError(m) && m@ == message@,
    {
        CryptError::FileSizeError(String::from_str(message))
    }
}

impl From<std::io::Error> for CryptError {
    fn from(value: std::io::Error) -> (r: CryptError) {
        CryptError::IoError(value)
    }
}

impl vstd::std_specs::convert::FromSpecImpl<std::io::Error> for CryptError {
    open spec fn obeys_from_spec() -> bool {
        true
    }

    open spec fn from_spec(v: std::io::Error) -> CryptError {
        CryptError::IoError(v)
    }
}

/// The little-endian value of four bytes.
pub open spec fn u32_from_le(b: Seq<u8>) -> u32 {
    (b[0] as u32) | ((b[1] as u32) << 8u32) | ((b[2] as u32) << 16u32) | ((b[3] as u32) << 24u32)
}

/// The four little-endian bytes of a value.
pub open spec fn u32_le_bytes(v: u32) -> Seq<u8> {
    seq![v as u8, (v >> 8u32) as u8, (v >> 16u32) as u8, (v >> 24u32) as u8]
}

/// Reading back the little-endian bytes of a value gives the value.
pub proof fn lemma_u32_le_roundtrip(v: u32)
    ensures
        u32_from_le(u32_le_bytes(v)) == v,
{
    let b = u32_le_bytes(v);
    let b0 = b[0];
    let b1 = b[1];
    let b2 = b[2];
    let b3 = b[3];
    assert(b0 == v as u8 && b1 == (v >> 8u32) as u8 && b2 == (v >> 16u32) as u8 && b3 == (v >> 24u32) as u8);
    assert(((b0 as u32) | ((b1 as u32) << 8u32) | ((b2 as u32) << 16u32) | ((b3 as u32) << 24u32)) == v) by (bit_vector)
        requires
            b0 == v as u8,
            b1 == (v >> 8u32) as u8,
            b2 == (v >> 16u32) as u8,
            b3 == (v >> 24u32) as u8,
    ;
}

/// The byte of the key stream that the obfuscation XORs into byte `i`.
pub open spec fn kb_mask_byte(seed: u64, i: int) -> u8 {
    u32_le_bytes(interweave(prng_output(seed, (i / 4 + 4) as nat)))[i % 4]
}

/// The first-kilobyte obfuscation of `buf` with the generator of `seed`:
/// every byte but the first four is XOR-ed with the key stream.
pub open spec fn xor_first_kb(buf: Seq<u8>, seed: u64) -> Seq<u8> {
    Seq::new(buf.len(), |i: int| if i < 4 { buf[i] } else { buf[i] ^ kb_mask_byte(seed, i) })
}

/// The obfuscation is its own inverse.
pub proof fn lemma_xor_first_kb_involution(buf: Seq<u8>, seed: u64)
    ensures
        xor_first_kb(xor_first_kb(buf, seed), seed) == buf,
{
    let once = xor_first_kb(buf, seed);
    let twice = xor_first_kb(once, seed);
    assert forall|i: int| 0 <= i < buf.len() implies twice[i] == buf[i] by {
        if i >= 4 {
            let a = buf[i];
            let m = kb_mask_byte(seed, i);
            assert((a ^ m) ^ m == a) by (bit_vector);
        }
    }
    assert(twice =~= buf);
}

/// XORs the four little-endian bytes of `value` into `buffer[at..at + 4]`.
fn xor_word_into(buffer: &mut Vec<u8>, at: usize, value: u32)
    requires
        at + 4 <= old(buffer).len(),
    ensures
        final(buffer)@.len() == old(buffer)@.len(),
        forall|i: int|
            0 <= i < old(buffer)@.len() ==> #[trigger] final(buffer)@[i] == if at <= i < at + 4 {
                old(buffer)@[i] ^ u32_le_bytes(value)[i - at]
            } else {
                old(buffer)@[i]
            },
{
    let b0 = buffer[at] ^ (value as u8);
    buffer.set(at, b0);
    let b1 = buffer[at + 1] ^ ((value >> 8u32) as u8);
    buffer.set(at + 1, b1);
    let b2 = buffer[at + 2] ^ ((value >> 16u32) as u8);
    buffer.set(at + 2, b2);
    let b3 = buffer[at + 3] ^ ((value >> 24u32) as u8);
    buffer.set(at + 3, b3);
}

/// Applies the first-kilobyte obfuscation, seeded with `seed`, to
/// `buffer[..kb_len]`; applying it twice gives the bytes back. Fails, and
/// changes nothing, when `kb_len` is not a multiple of 4.
pub fn decrypt_first_kb(buffer: &mut Vec<u8>, kb_len: usize, seed: u64) -> (r: Result<(), CryptError>)
    requires
        kb_len <= old(buffer)@.len(),
        kb_len <= usize::MAX / 4,
    ensures
        kb_len % 4 != 0 ==> final(buffer)@ == old(buffer)@ && (r matches Err(
            CryptError::FileSizeError(m),
        ) && m@ == "File size is not a multiple of 4!"@),
        kb_len % 4 == 0 ==> r is Ok && final(buffer)@ == xor_first_kb(
            old(buffer)@.take(kb_len as int),
            seed,
        ) + old(buffer)@.skip(kb_len as int),
{
    if kb_len % 4 != 0 {
        return Err(CryptError::file_size_error("File size is not a multiple of 4!"));
    }
    let chunks = kb_len / 4;
    let mut my_prng = MyPrng::new(seed, chunks + 5);
    let mut skipped: usize = 0;
    while skipped < 5
        invariant
            skipped <= 5,
            my_prng.wf(),
            my_prng.seed() == seed,
            my_prng.capacity() == chunks + 5,
            my_prng.drawn() == skipped,
        decreases 5 - skipped,
    {
        my_prng.next_u64();
        skipped = skipped + 1;
    }
    let ghost original = buffer@;
    let mut k: usize = 1;
    while k < chunks
        invariant
            1 <= k,
            chunks == kb_len / 4,
            kb_len % 4 == 0,
            kb_len <= original.len(),
            k <= chunks || k == 1,
            my_prng.wf(),
            my_prng.seed() == seed,
            my_prng.capacity() == chunks + 5,
            my_prng.drawn() == k + 4,
            buffer@.len() == original.len(),
            forall|i: int|
                0 <= i < original.len() ==> #[trigger] buffer@[i] == if 4 <= i < 4 * k {
                    original[i] ^ kb_mask_byte(seed, i)
                } else {
                    original[i]
                },
        decreases chunks - k,
    {
        let value = my_prng.next_interweaved();
        let ghost before = buffer@;
        xor_word_into(buffer, 4 * k, value);
        proof {
            assert forall|i: int| 0 <= i < original.len() implies #[trigger] buffer@[i] == if 4 <= i < 4 * (k + 1) {
                original[i] ^ kb_mask_byte(seed, i)
            } else {
                original[i]
            } by {
                if 4 * k <= i < 4 * k + 4 {
                    assert(i / 4 == k as int);
                    assert(i % 4 == i - 4 * k);
                }
            }
        }
        k = k + 1;
    }
    proof {
        let expected = xor_first_kb(original.take(kb_len as int), seed) + original.skip(kb_len as int);
        assert(kb_len == 4 * chunks);
        assert(k >= chunks);
        assert(chunks == 0 ==> k == 1);
        assert forall|i: int| 0 <= i < original.len() implies buffer@[i] == expected[i] by {
            let xored = xor_first_kb(original.take(kb_len as int), seed);
            assert(buffer@[i] == if 4 <= i < 4 * k {
                original[i] ^ kb_mask_byte(seed, i)
            } else {
                original[i]
            });
            if i < kb_len {
                assert(expected[i] == xored[i]);
            } else {
                assert(expected[i] == original.skip(kb_len as int)[i - kb_len]);
            }
        }
        assert(buffer@ =~= expected);
    }
    Ok(())
}

/// The masks XOR-ed into the words of the AES key.
pub open spec fn key_mask(i: int) -> u32 {
    if i == 0 {
        0x875F5F41u32
    } else if i == 1 {
        0x73FD2031u32
    } else if i == 2 {
        0x75B704FDu32
    } else if i == 3 {
        0xC0FBE1D2u32
    } else if i == 4 {
        0xD238F9C5u32
    } else {
        0x4B01C826u32
    }
}

/// The values added to the words of the AES key.
pub open spec fn key_shift(i: int) -> u32 {
    if i == 0 {
        0x971B98FEu32
    } else if i == 1 {
        0x4F640E1Fu32
    } else if i == 2 {
        0x391F4EA7u32
    } else if i == 3 {
        0xB8B4A217u32
    } else if i == 4 {
        0xC5EEEA3Cu32
    } else {
        0xA2232CE9u32
    }
}

fn key_mask_at(i: usize) -> (r: u32)
    ensures
        r == key_mask(i as int),
{
    if i == 0 {
        0x875F5F41
    } else if i == 1 {
        0x73FD2031
    } else if i == 2 {
        0x75B704FD
    } else if i == 3 {
        0xC0FBE1D2
    } else if i == 4 {
        0xD238F9C5
    } else {
        0x4B01C826
    }
}

fn key_shift_at(i: usize) -> (r: u32)
    ensures
        r == key_shift(i as int),
{
    if i == 0 {
        0x971B98FE
    } else if i == 1 {
        0x4F640E1F
    } else if i == 2 {
        0x391F4EA7
    } else if i == 3 {
        0xB8B4A217
    } else if i == 4 {
        0xC5EEEA3C
    } else {
        0xA2232CE9
    }
}

/// Word `i` of the AES key derived from `seed`.
pub open spec fn aes_key_word(seed: u64, i: int) -> u32 {
    ((prng_output(seed, i as nat) as u32).wrapping_add(key_shift(i))) ^ key_mask(i)
}

/// The AES-192 key derived from `seed`: six little-endian words.
pub open spec fn spec_aes_key(seed: u64) -> Seq<u8> {
    Seq::new(24, |j: int| u32_le_bytes(aes_key_word(seed, j / 4))[j % 4])
}

/// The IV derived from `seed`: the low halves of four generator outputs.
pub open spec fn spec_iv(seed: u64) -> Seq<u8> {
    Seq::new(16, |j: int| u32_le_bytes(prng_output(seed, (j / 4) as nat) as u32)[j % 4])
}

/// Writes the little-endian bytes of `value` to `a[at..at + 4]`.
fn put_le_word<const N: usize>(a: &mut [u8; N], at: usize, value: u32)
    requires
        at + 4 <= N,
    ensures
        forall|i: int|
            0 <= i < N ==> #[trigger] final(a)@[i] == if at <= i < at + 4 {
                u32_le_bytes(value)[i - at]
            } else {
                old(a)@[i]
            },
{
    a[at] = value as u8;
    a[at + 1] = (value >> 8u32) as u8;
    a[at + 2] = (value >> 16u32) as u8;
    a[at + 3] = (value >> 24u32) as u8;
}

/// The AES-192 key for a file of `seed` bytes.
pub fn get_aes_key(seed: u64) -> (r: [u8; 24])
    ensures
        r@ == spec_aes_key(seed),
{
    let mut my_prng = MyPrng::new(seed, 6);
    let mut aes_key = [0u8; 24];
    let mut i: usize = 0;
    while i < 6
        invariant
            i <= 6,
            my_prng.wf(),
            my_prng.seed() == seed,
            my_prng.capacity() == 6,
            my_prng.drawn() == i,
            forall|j: int| 0 <= j < 4 * i ==> #[trigger] aes_key@[j] == spec_aes_key(seed)[j],
        decreases 6 - i,
    {
        let value = (my_prng.next_u64() as u32).wrapping_add(key_shift_at(i)) ^ key_mask_at(i);
        put_le_word(&mut aes_key, 4 * i, value);
        proof {
            assert forall|j: int| 0 <= j < 4 * (i + 1) implies #[trigger] aes_key@[j] == spec_aes_key(seed)[j] by {
                if j >= 4 * i {
                    assert(j / 4 == i as int);
                }
            }
        }
        i = i + 1;
    }
    assert(aes_key@ =~= spec_aes_key(seed));
    aes_key
}

/// The AES IV for a file whose checksum is `seed`.
pub fn get_iv(seed: u64) -> (r: [u8; 16])
    ensures
        r@ == spec_iv(seed),
{
    let mut my_prng = MyPrng::new(seed, 4);
    let mut aes_iv = [0u8; 16];
    let mut i: usize = 0;
    while i < 4
        invariant
            i <= 4,
            my_prng.wf(),
            my_prng.seed() == seed,
            my_prng.capacity() == 4,
            my_prng.drawn() == i,
            forall|j: int| 0 <= j < 4 * i ==> #[trigger] aes_iv@[j] == spec_iv(seed)[j],
        decreases 4 - i,
    {
        let value = my_prng.next_u64() as u32;
        put_le_word(&mut aes_iv, 4 * i, value);
        proof {
            assert forall|j: int| 0 <= j < 4 * (i + 1) implies #[trigger] aes_iv@[j] == spec_iv(seed)[j] by {
                if j >= 4 * i {
                    assert(j / 4 == i as int);
                }
            }
        }
        i = i + 1;
    }
    assert(aes_iv@ =~= spec_iv(seed));
    aes_iv
}

/// What AES-192 in CBC mode, without padding, makes of whole blocks.
pub uninterp spec fn aes192_cbc_encrypt(key: Seq<u8>, iv: Seq<u8>, data: Seq<u8>) -> Seq<u8>;

/// What AES-192 in CBC mode, without padding, makes of whole blocks when
/// decrypting.
pub uninterp spec fn aes192_cbc_decrypt(key: Seq<u8>, iv: Seq<u8>, data: Seq<u8>) -> Seq<u8>;

/// Encrypts whole blocks in place with `cbc::Encryptor::<aes::Aes192>`
/// (`new`, then `encrypt_blocks`). The contract claims that the result is
/// the named ciphertext of the data, of the same length.
#[verifier::external_body]
fn aes192_cbc_encrypt_in_place(key: &[u8; 24], iv: &[u8; 16], data: &mut Vec<u8>)
    requires
        old(data)@.len() % 16 == 0,
    ensures
        final(data)@ == aes192_cbc_encrypt(key@, iv@, old(data)@),
        final(data)@.len() == old(data)@.len(),
{
    let mut encryptor = cbc::Encryptor::<aes::Aes192>::new(key.into(), iv.into());
    let (chunks, _) = aes::cipher::Array::slice_as_chunks_mut(data.as_mut_slice());
    encryptor.encrypt_blocks(chunks);
}

/// Decrypts whole blocks in place with `cbc::Decryptor::<aes::Aes192>`
/// (`new`, then `decrypt_blocks`). The contract claims that the result is
/// the named plaintext of the data, of the same length, and that it undoes
/// encryption with the same key and IV, as CBC decryption does.
#[verifier::external_body]
fn aes192_cbc_decrypt_in_place(key: &[u8; 24], iv: &[u8; 16], data: &mut Vec<u8>)
    requires
        old(data)@.len() % 16 == 0,
    ensures
        final(data)@ == aes192_cbc_decrypt(key@, iv@, old(data)@),
        final(data)@.len() == old(data)@.len(),
        forall|p: Seq<u8>|
            p.len() % 16 == 0 && #[trigger] aes192_cbc_encrypt(key@, iv@, p) == old(data)@ ==> final(data)@ == p,
        forall|k: Seq<u8>, v: Seq<u8>, p: Seq<u8>|
            k.len() == 24 && v.len() == 16 && p.len() % 16 == 0 && #[trigger] aes192_cbc_encrypt(k, v, p)
                == old(data)@ ==> p.len() == final(data)@.len(),
{
    let mut decryptor = cbc::Decryptor::<aes::Aes192>::new(key.into(), iv.into());
    let (chunks, _) = aes::cipher::Array::slice_as_chunks_mut(data.as_mut_slice());
    decryptor.decrypt_blocks(chunks);
}

/// The CRC-32/ISO-HDLC checksum of the data.
pub uninterp spec fn crc32_iso_hdlc(data: Seq<u8>) -> u32;

/// `crc::Crc::<u32>::new(&crc::CRC_32_ISO_HDLC).checksum(data)`; the
/// contract names its result.
#[verifier::external_body]
fn crc32_checksum(data: &[u8]) -> (r: u32)
    ensures
        r == crc32_iso_hdlc(data@),
{
    crc::Crc::<u32>::new(&crc::CRC_32_ISO_HDLC).checksum(data)
}

/// The zlib stream that `flate2` makes of `data` at compression `level`, or
/// `None` where the encoder reports an error.
pub uninterp spec fn zlib_compress(data: Seq<u8>, level: u32) -> Option<Seq<u8>>;

/// What inflating the zlib stream at the start of some bytes gives: the
/// data, or that the bytes end before the stream does, or that the stream
/// is corrupt.
pub enum Inflated {
    Data(Seq<u8>),
    CutShort,
    Corrupt,
}

/// Why inflating failed: the bytes end before the stream does, or the
/// decoder's error for a corrupt stream.
pub enum InflateError {
    CutShort,
    Corrupt(std::io::Error),
}

/// What `flate2` decodes from the zlib stream at the start of `data` (the
/// bytes after the stream's end are not read): the data, or that the
/// stream is incomplete (`UnexpectedEof`), or that it is corrupt.
pub uninterp spec fn zlib_decompress(data: Seq<u8>) -> Inflated;

/// `data` starts with the zlib stream that `flate2` makes of `x` at
/// `level`.
pub open spec fn starts_with_zlib_stream_of(data: Seq<u8>, x: Seq<u8>, level: u32) -> bool {
    level <= 9 && match zlib_compress(x, level) {
        Some(c) => c.len() <= data.len() && data.subrange(0, c.len() as int) == c,
        None => false,
    }
}

/// Compresses with `flate2::write::ZlibEncoder::new` at
/// `flate2::Compression::new(level)`, `write_all`, then `finish`. The
/// contract names the result.
#[verifier::external_body]
fn zlib_compress_bytes(data: &[u8], level: u32) -> (r: Result<Vec<u8>, std::io::Error>)
    requires
        level <= 9,
    ensures
        r is Ok <==> zlib_compress(data@, level) is Some,
        r matches Ok(c) ==> zlib_compress(data@, level) == Some(c@),
{
    let mut encoder = flate2::write::ZlibEncoder::new(Vec::new(), flate2::Compression::new(level));
    match encoder.write_all(data) {
        Ok(()) => encoder.finish(),
        Err(error) => Err(error),
    }
}

/// Decompresses with `flate2::bufread::ZlibDecoder::new` and `read_to_end`,
/// telling flate2's `UnexpectedEof` (the bytes end before the stream does)
/// from its other errors. The contract names the result, and claims that a
/// stream that `flate2` made of some data decodes to that data whatever
/// follows it: the decoder stops at the end of the stream.
#[verifier::external_body]
fn zlib_decompress_bytes(data: &[u8]) -> (r: Result<Vec<u8>, InflateError>)
    ensures
        match zlib_decompress(data@) {
            Inflated::Data(v) => r matches Ok(o) && o@ == v,
            Inflated::CutShort => r matches Err(InflateError::CutShort),
            Inflated::Corrupt => r matches Err(InflateError::Corrupt(_)),
        },
        r matches Ok(v) ==> forall|source: (Seq<u8>, u32)|
            #[trigger] starts_with_zlib_stream_of(data@, source.0, source.1) ==> v@ == source.0,
        r is Err ==> forall|source: (Seq<u8>, u32)|
            !#[trigger] starts_with_zlib_stream_of(data@, source.0, source.1),
{
    let mut decoder = flate2::bufread::ZlibDecoder::new(data);
    let mut out = Vec::new();
    match decoder.read_to_end(&mut out) {
        Ok(_) => Ok(out),
        Err(error) if error.kind() == std::io::ErrorKind::UnexpectedEof => Err(InflateError::CutShort),
        Err(error) => Err(InflateError::Corrupt(error)),
    }
}

/// How many leading bytes of a file of `n` bytes the obfuscation covers.
pub open spec fn kb_len_of(n: int) -> int {
    if n < 0x400 {
        n
    } else {
        0x400
    }
}

/// A file with the first-kilobyte obfuscation undone (it is its own
/// inverse), seeded with the file size.
pub open spec fn deobfuscate(d: Seq<u8>) -> Seq<u8> {
    let kb = kb_len_of(d.len() as int);
    xor_first_kb(d.take(kb), d.len() as u64) + d.skip(kb)
}

/// The checksum stored in an encrypted file.
pub open spec fn stored_crc(d: Seq<u8>) -> u32 {
    u32_from_le(deobfuscate(d).subrange(0x24, 0x28))
}

/// The decompressed size stored in an encrypted file.
pub open spec fn stored_size(d: Seq<u8>) -> u32 {
    u32_from_le(deobfuscate(d).subrange(0x28, 0x2c))
}

/// A header with its checksum field set to zero.
pub open spec fn zero_crc_field(h: Seq<u8>) -> Seq<u8> {
    h.take(0x24) + seq![0u8, 0u8, 0u8, 0u8] + h.skip(0x28)
}

/// The plain file inside an encrypted one: the header, with its checksum
/// field zeroed, and the decrypted rest, which holds the zlib stream.
#[verifier::opaque]
pub open spec fn plain_image(d: Seq<u8>) -> Seq<u8> {
    let dd = deobfuscate(d);
    zero_crc_field(dd.take(0x30)) + aes192_cbc_decrypt(
        spec_aes_key(d.len() as u64),
        spec_iv(stored_crc(d) as u64),
        dd.skip(0x30),
    )
}

/// The file size passes the checks of decryption.
pub open spec fn decrypt_size_ok(d: Seq<u8>) -> bool {
    d.len() % 16 == 0 && d.len() >= 0x30
}

/// The stored checksum matches the plain file.
pub open spec fn decrypt_checksum_ok(d: Seq<u8>) -> bool {
    crc32_iso_hdlc(plain_image(d)) == stored_crc(d)
}

/// `n` zero bytes.
pub open spec fn zeros(n: int) -> Seq<u8> {
    Seq::new(n as nat, |i: int| 0u8)
}

/// The least multiple of 16 that is not below `n`.
pub open spec fn next_multiple_of_16(n: int) -> int {
    if n % 16 == 0 {
        n
    } else {
        n - n % 16 + 16
    }
}

/// The header that encryption writes for plain data of `len` bytes, before
/// the checksum is known: `MZNC`, zeros, the size at 0x28, zeros.
pub open spec fn encrypt_header(len: nat) -> Seq<u8> {
    seq![0x4Du8, 0x5Au8, 0x4Eu8, 0x43u8] + zeros(0x24) + u32_le_bytes(len as u32) + zeros(4)
}

/// The header and the zlib stream `c` of `x`, padded with zeros to a
/// multiple of 16 bytes.
#[verifier::opaque]
pub open spec fn unencrypted_image(x: Seq<u8>, c: Seq<u8>) -> Seq<u8> {
    let b = encrypt_header(x.len()) + c;
    b + zeros(next_multiple_of_16(b.len() as int) - b.len())
}

/// `b` with its own checksum stored at 0x24.
pub open spec fn with_checksum(b: Seq<u8>) -> Seq<u8> {
    b.take(0x24) + u32_le_bytes(crc32_iso_hdlc(b)) + b.skip(0x28)
}

/// The encrypted file that holds `x`, compressed to `c`, before the
/// first kilobyte is obfuscated.
pub open spec fn encrypted_unobfuscated(x: Seq<u8>, c: Seq<u8>) -> Seq<u8> {
    let b1 = unencrypted_image(x, c);
    let b2 = with_checksum(b1);
    b2.take(0x30) + aes192_cbc_encrypt(
        spec_aes_key(b1.len() as u64),
        spec_iv(crc32_iso_hdlc(b1) as u64),
        b2.skip(0x30),
    )
}

/// The encrypted file that holds `x`, compressed to `c`.
#[verifier::opaque]
pub open spec fn encrypted_image(x: Seq<u8>, c: Seq<u8>) -> Seq<u8> {
    let b3 = encrypted_unobfuscated(x, c);
    let n = b3.len() as int;
    xor_first_kb(b3.take(kb_len_of(n)), n as u64) + b3.skip(kb_len_of(n))
}

/// The zlib level of encryption: best when `small`, else fast.
pub open spec fn compression_level(small: bool) -> u32 {
    if small {
        9
    } else {
        1
    }
}

/// The encrypted file that encryption at `level` makes of `x`, if the zlib
/// encoder succeeds and the result fits in memory (the length clause holds
/// of every encryption, as CBC keeps lengths).
pub open spec fn encryption_of(x: Seq<u8>, level: u32) -> Option<Seq<u8>> {
    match zlib_compress(x, level) {
        Some(c) => if c.len() <= usize::MAX - 0x40 && encrypted_unobfuscated(x, c).len()
            == unencrypted_image(x, c).len() {
            Some(encrypted_image(x, c))
        } else {
            None
        },
        None => None,
    }
}

/// The length of the images of encryption.
proof fn lemma_unencrypted_image_len(x: Seq<u8>, c: Seq<u8>)
    ensures
        unencrypted_image(x, c).len() == next_multiple_of_16(0x30 + c.len() as int),
        unencrypted_image(x, c).len() % 16 == 0,
        unencrypted_image(x, c).len() >= 0x30 + c.len(),
        unencrypted_image(x, c).len() < 0x30 + c.len() + 16,
        unencrypted_image(x, c).subrange(0x24, 0x28) == zeros(4),
        unencrypted_image(x, c).subrange(0x28, 0x2c) == u32_le_bytes(x.len() as u32),
        unencrypted_image(x, c).skip(0x30) == c + zeros(unencrypted_image(x, c).len() - 0x30 - c.len()),
{
    reveal(unencrypted_image);
    let b = encrypt_header(x.len()) + c;
    assert(encrypt_header(x.len()).len() == 0x30);
    let img = unencrypted_image(x, c);
    assert(img.subrange(0x24, 0x28) =~= zeros(4));
    assert(img.subrange(0x28, 0x2c) =~= u32_le_bytes(x.len() as u32));
    assert(img.skip(0x30) =~= c + zeros(img.len() - 0x30 - c.len()));
}

/// Undoing the obfuscation and reading the header of a file that
/// encryption made gives back what encryption wrote there.
proof fn lemma_encrypted_image_header(x: Seq<u8>, c: Seq<u8>)
    ensures
        ({
            let d = encrypted_image(x, c);
            let b1 = unencrypted_image(x, c);
            let b3 = encrypted_unobfuscated(x, c);
            &&& d.len() == b3.len()
            &&& b3.len() >= 0x30
            &&& deobfuscate(d) == b3
            &&& stored_crc(d) == crc32_iso_hdlc(b1)
            &&& stored_size(d) == x.len() as u32
            &&& b3.skip(0x30) == aes192_cbc_encrypt(
                spec_aes_key(b1.len() as u64),
                spec_iv(crc32_iso_hdlc(b1) as u64),
                b1.skip(0x30),
            )
            &&& zero_crc_field(b3.take(0x30)) == b1.take(0x30)
        }),
{
    reveal(encrypted_image);
    lemma_unencrypted_image_len(x, c);
    let b1 = unencrypted_image(x, c);
    let b2 = with_checksum(b1);
    let crc = crc32_iso_hdlc(b1);
    let b3 = encrypted_unobfuscated(x, c);
    assert(b2.skip(0x30) =~= b1.skip(0x30));
    let n = b3.len() as int;
    let kb = kb_len_of(n);
    let d = encrypted_image(x, c);
    assert(d.len() == n);
    lemma_xor_first_kb_involution(b3.take(kb), n as u64);
    assert(d.take(kb) =~= xor_first_kb(b3.take(kb), n as u64));
    assert(d.skip(kb) =~= b3.skip(kb));
    assert(deobfuscate(d) =~= b3);
    assert(b3.subrange(0x24, 0x28) =~= u32_le_bytes(crc));
    lemma_u32_le_roundtrip(crc);
    assert(b3.subrange(0x28, 0x2c) =~= b1.subrange(0x28, 0x2c));
    lemma_u32_le_roundtrip(x.len() as u32);
    assert(b3.skip(0x30) =~= aes192_cbc_encrypt(
        spec_aes_key(b1.len() as u64),
        spec_iv(crc as u64),
        b2.skip(0x30),
    ));
    assert(b3.take(0x30) =~= b2.take(0x30));
    assert forall|i: int| 0 <= i < 0x30 implies zero_crc_field(b3.take(0x30))[i] == b1.take(0x30)[i] by {
        if 0x24 <= i < 0x28 {
            assert(b1.subrange(0x24, 0x28)[i - 0x24] == zeros(4)[i - 0x24]);
        }
    }
    assert(zero_crc_field(b3.take(0x30)) =~= b1.take(0x30));
}

/// A file that encryption made passes the size checks of decryption.
proof fn lemma_encryption_size(x: Seq<u8>, c: Seq<u8>)
    requires
        encrypted_unobfuscated(x, c).len() == unencrypted_image(x, c).len(),
    ensures
        decrypt_size_ok(encrypted_image(x, c)),
{
    lemma_encrypted_image_header(x, c);
    lemma_unencrypted_image_len(x, c);
}

/// Every file that encryption makes starts with the magic bytes `MZNC`
/// (`4D 5A 4E 43`), which obfuscation leaves alone.
pub proof fn lemma_encryption_starts_with_magic(x: Seq<u8>, level: u32, e: Seq<u8>)
    requires
        encryption_of(x, level) == Some(e),
    ensures
        e.len() >= 0x30,
        e[0] == 0x4Du8 && e[1] == 0x5Au8 && e[2] == 0x4Eu8 && e[3] == 0x43u8,
{
    let c = zlib_compress(x, level).unwrap();
    lemma_encrypted_image_header(x, c);
    reveal(encrypted_image);
    reveal(unencrypted_image);
    lemma_unencrypted_image_len(x, c);
    let b1 = unencrypted_image(x, c);
    let b2 = with_checksum(b1);
    let b3 = encrypted_unobfuscated(x, c);
    let n = b3.len() as int;
    let kb = kb_len_of(n);
    assert(kb >= 4);
    assert forall|i: int| 0 <= i < 4 implies e[i] == encrypt_header(x.len())[i] by {
        assert(e[i] == xor_first_kb(b3.take(kb), n as u64)[i]);
        assert(b3[i] == b2[i]);
        assert(b2[i] == b1[i]);
        assert(b1[i] == (encrypt_header(x.len()) + c)[i]);
    }
}

/// The bytes of a 32-bit value, least significant first.
pub proof fn lemma_le_bytes_value(v: u32)
    ensures
        u32_le_bytes(v).len() == 4,
        u32_le_bytes(v)[0] as int == v as int % 256,
        u32_le_bytes(v)[1] as int == (v as int / 256) % 256,
        u32_le_bytes(v)[2] as int == (v as int / 65536) % 256,
        u32_le_bytes(v)[3] as int == v as int / 16777216,
        u32_le_bytes(v)[0] as int + 256 * u32_le_bytes(v)[1] as int + 65536 * u32_le_bytes(v)[2] as int + 16777216
            * u32_le_bytes(v)[3] as int == v as int,
        u32_from_le(u32_le_bytes(v)) == v,
{
    assert(v as u8 as int + 256 * (v >> 8u32) as u8 as int + 65536 * (v >> 16u32) as u8 as int + 16777216 * (v
        >> 24u32) as u8 as int == v as int) by (bit_vector);
    assert(v as u8 as int == v as int % 256) by (bit_vector);
    assert((v >> 8u32) as u8 as int == (v as int / 256) % 256) by (bit_vector);
    assert((v >> 16u32) as u8 as int == (v as int / 65536) % 256) by (bit_vector);
    assert((v >> 24u32) as u8 as int == v as int / 16777216) by (bit_vector);
    lemma_u32_le_roundtrip(v);
}

/// The words of the AES key: word `i` (of six) is the low half of the
/// `i`-th generator output plus the `i`-th shift, modulo 2^32, XOR-ed with
/// the `i`-th mask, the shifts and masks being the game's constants.
pub proof fn lemma_aes_key_words(seed: u64, i: int)
    requires
        0 <= i < 6,
    ensures
        aes_key_word(seed, i) == (((prng_output(seed, i as nat) as int % 0x1_0000_0000 + seq![
            0x971B98FEu32,
            0x4F640E1Fu32,
            0x391F4EA7u32,
            0xB8B4A217u32,
            0xC5EEEA3Cu32,
            0xA2232CE9u32,
        ][i] as int) % 0x1_0000_0000) as u32) ^ seq![
            0x875F5F41u32,
            0x73FD2031u32,
            0x75B704FDu32,
            0xC0FBE1D2u32,
            0xD238F9C5u32,
            0x4B01C826u32,
        ][i],
        spec_aes_key(seed).len() == 24,
        forall|b: int| 0 <= b < 4 ==> #[trigger] spec_aes_key(seed)[4 * i + b] == u32_le_bytes(aes_key_word(seed, i))[b],
{
    let o = prng_output(seed, i as nat);
    let sh = key_shift(i);
    assert((o as u32).wrapping_add(sh) as int == (o as int % 0x1_0000_0000 + sh as int) % 0x1_0000_0000) by (bit_vector);
    assert forall|b: int| 0 <= b < 4 implies #[trigger] spec_aes_key(seed)[4 * i + b] == u32_le_bytes(aes_key_word(seed, i))[b] by {
        assert((4 * i + b) / 4 == i);
        assert((4 * i + b) % 4 == b);
    }
}

/// The IV: bytes `4k .. 4k + 4` are the low half of the `k`-th generator
/// output, least significant first.
pub proof fn lemma_iv_bytes(seed: u64, k: int, b: int)
    requires
        0 <= k < 4,
        0 <= b < 4,
    ensures
        spec_iv(seed).len() == 16,
        spec_iv(seed)[4 * k + b] == u32_le_bytes((prng_output(seed, k as nat) as int % 0x1_0000_0000) as u32)[b],
{
    let o = prng_output(seed, k as nat);
    assert(o as u32 as int == o as int % 0x1_0000_0000) by (bit_vector);
    assert((4 * k + b) / 4 == k);
    assert((4 * k + b) % 4 == b);
}

/// The key stream of the obfuscation: byte `i` is byte `i mod 4` of the
/// folded generator output `i / 4 + 4`; the first four bytes of a file and
/// all from the 1024th on are left as they are; the generator is seeded
/// with the file's length.
pub proof fn lemma_obfuscation_bytes(d: Seq<u8>, i: int)
    requires
        0 <= i < d.len(),
    ensures
        kb_mask_byte(d.len() as u64, i) == u32_le_bytes(interweave(prng_output(d.len() as u64, (i / 4 + 4) as nat)))[i % 4],
        deobfuscate(d).len() == d.len(),
        deobfuscate(d)[i] == if 4 <= i < 1024 {
            d[i] ^ kb_mask_byte(d.len() as u64, i)
        } else {
            d[i]
        },
{
    let kb = kb_len_of(d.len() as int);
    let dd = deobfuscate(d);
    assert(dd.len() == d.len());
    if i < kb {
        assert(dd[i] == xor_first_kb(d.take(kb), d.len() as u64)[i]);
    } else {
        assert(dd[i] == d.skip(kb)[i - kb]);
    }
}

proof fn lemma_header_before_aes(x: Seq<u8>, c: Seq<u8>)
    ensures
        deobfuscate(encrypted_image(x, c)).len() >= 0x30,
        forall|i: int| 0 <= i < 0x30 ==> #[trigger] deobfuscate(encrypted_image(x, c))[i] == with_checksum(
            unencrypted_image(x, c),
        )[i],
{
    lemma_encrypted_image_header(x, c);
    lemma_unencrypted_image_len(x, c);
    let b2 = with_checksum(unencrypted_image(x, c));
    let b3 = encrypted_unobfuscated(x, c);
    let h = deobfuscate(encrypted_image(x, c));
    assert forall|i: int| 0 <= i < 0x30 implies #[trigger] h[i] == b2[i] by {
        assert(h[i] == b3[i]);
        assert(b3[i] == b2.take(0x30)[i]);
    }
}

proof fn lemma_checksummed_header(x: Seq<u8>, c: Seq<u8>)
    ensures
        ({
            let b2 = with_checksum(unencrypted_image(x, c));
            let crc = crc32_iso_hdlc(unencrypted_image(x, c));
            &&& forall|i: int| 0 <= i < 0x24 ==> #[trigger] b2[i] == encrypt_header(x.len())[i]
            &&& forall|i: int| 0x28 <= i < 0x30 ==> #[trigger] b2[i] == encrypt_header(x.len())[i]
            &&& forall|i: int| 0x24 <= i < 0x28 ==> #[trigger] b2[i] == u32_le_bytes(crc)[i - 0x24]
        }),
{
    reveal(unencrypted_image);
    lemma_unencrypted_image_len(x, c);
    let b1 = unencrypted_image(x, c);
    let b2 = with_checksum(b1);
    assert forall|i: int| 0 <= i < 0x24 || 0x28 <= i < 0x30 implies #[trigger] b2[i] == encrypt_header(x.len())[i] by {
        assert(b2[i] == b1[i]);
        assert(b1[i] == (encrypt_header(x.len()) + c)[i]);
    }
}

/// The header that encryption writes, once the obfuscation is undone:
/// `MZNC`, zeros up to 0x24, the checksum of the plain file (with that
/// field zero) least significant byte first, the length of the data (as
/// a `u32`) at 0x28, least significant byte first, and four zeros.
#[verifier::spinoff_prover]
#[verifier::rlimit(60)]
pub proof fn lemma_encryption_header_fields(x: Seq<u8>, level: u32, e: Seq<u8>)
    requires
        encryption_of(x, level) == Some(e),
    ensures
        ({
            let h = deobfuscate(e);
            let c = zlib_compress(x, level).unwrap();
            &&& h.len() >= 0x30
            &&& h[0] == 0x4Du8 && h[1] == 0x5Au8 && h[2] == 0x4Eu8 && h[3] == 0x43u8
            &&& forall|i: int| 4 <= i < 0x24 ==> #[trigger] h[i] == 0u8
            &&& h[0x24] as int + 256 * h[0x25] as int + 65536 * h[0x26] as int + 16777216 * h[0x27] as int
                == crc32_iso_hdlc(unencrypted_image(x, c)) as int
            &&& h[0x28] as int + 256 * h[0x29] as int + 65536 * h[0x2A] as int + 16777216 * h[0x2B] as int
                == (x.len() as u32) as int
            &&& forall|i: int| 0x2C <= i < 0x30 ==> #[trigger] h[i] == 0u8
        }),
{
    let c = zlib_compress(x, level).unwrap();
    lemma_header_before_aes(x, c);
    lemma_checksummed_header(x, c);
    let b2 = with_checksum(unencrypted_image(x, c));
    let h = deobfuscate(e);
    let crc = crc32_iso_hdlc(unencrypted_image(x, c));
    let len32 = x.len() as u32;
    lemma_le_bytes_value(crc);
    lemma_le_bytes_value(len32);
    let eh = encrypt_header(x.len());
    assert(eh == seq![0x4Du8, 0x5Au8, 0x4Eu8, 0x43u8] + zeros(0x24) + u32_le_bytes(len32) + zeros(4));
    assert forall|i: int| 4 <= i < 0x24 implies #[trigger] h[i] == 0u8 by {
        assert(h[i] == b2[i]);
        assert(b2[i] == eh[i]);
    }
    assert forall|i: int| 0x2C <= i < 0x30 implies #[trigger] h[i] == 0u8 by {
        assert(h[i] == b2[i]);
        assert(b2[i] == eh[i]);
    }
    assert forall|k: int| 0 <= k < 4 implies #[trigger] h[0x28 + k] == u32_le_bytes(len32)[k] by {
        assert(h[0x28 + k] == b2[0x28 + k]);
        assert(b2[0x28 + k] == eh[0x28 + k]);
    }
    assert forall|k: int| 0 <= k < 4 implies #[trigger] h[0x24 + k] == u32_le_bytes(crc)[k] by {
        assert(h[0x24 + k] == b2[0x24 + k]);
    }
    assert forall|k: int| 0 <= k < 4 implies #[trigger] h[k] == eh[k] by {
        assert(h[k] == b2[k]);
    }
    assert(h[0x28] == u32_le_bytes(len32)[0] && h[0x29] == u32_le_bytes(len32)[1] && h[0x2A] == u32_le_bytes(len32)[2]
        && h[0x2B] == u32_le_bytes(len32)[3]);
    assert(h[0x24] == u32_le_bytes(crc)[0] && h[0x25] == u32_le_bytes(crc)[1] && h[0x26] == u32_le_bytes(crc)[2]
        && h[0x27] == u32_le_bytes(crc)[3]);
    assert(h[0] == eh[0] && h[1] == eh[1] && h[2] == eh[2] && h[3] == eh[3]);
}

/// Past the header, a file that encryption makes holds (once the
/// obfuscation is undone) the AES-192-CBC encryption of the zlib stream and
/// its zero padding, with the key derived from the file's length and the IV
/// from the checksum stored at 0x24.
pub proof fn lemma_encryption_body(x: Seq<u8>, level: u32, e: Seq<u8>)
    requires
        encryption_of(x, level) == Some(e),
    ensures
        ({
            let c = zlib_compress(x, level).unwrap();
            let h = deobfuscate(e);
            let crc = h[0x24] as int + 256 * h[0x25] as int + 65536 * h[0x26] as int + 16777216 * h[0x27] as int;
            &&& h.skip(0x30) == aes192_cbc_encrypt(
                spec_aes_key(e.len() as u64),
                spec_iv(crc as u64),
                unencrypted_image(x, c).skip(0x30),
            )
            &&& unencrypted_image(x, c).skip(0x30).take(c.len() as int) == c
            &&& forall|i: int| c.len() <= i < unencrypted_image(x, c).len() - 0x30 ==> #[trigger] unencrypted_image(x, c).skip(0x30)[i] == 0u8
        }),
{
    let c = zlib_compress(x, level).unwrap();
    lemma_encrypted_image_header(x, c);
    lemma_encryption_header_fields(x, level, e);
    reveal(unencrypted_image);
    lemma_unencrypted_image_len(x, c);
    let b1 = unencrypted_image(x, c);
    let tail = b1.skip(0x30);
    assert(tail.take(c.len() as int) =~= c);
    assert forall|i: int| c.len() <= i < b1.len() - 0x30 implies #[trigger] tail[i] == 0u8 by {
        assert(tail[i] == b1[0x30 + i]);
    }
}

/// Decryption of a file that encryption made: given what AES-CBC
/// decryption is known to do, the plain file is the one encryption built,
/// so its checksum holds and the zlib stream is at its start.
proof fn lemma_decrypt_of_encryption(d: Seq<u8>, x: Seq<u8>, c: Seq<u8>, body: Seq<u8>)
    requires
        d == encrypted_image(x, c),
        decrypt_size_ok(d),
        body == aes192_cbc_decrypt(
            spec_aes_key(d.len() as u64),
            spec_iv(stored_crc(d) as u64),
            deobfuscate(d).skip(0x30),
        ),
        forall|p: Seq<u8>|
            p.len() % 16 == 0 && #[trigger] aes192_cbc_encrypt(
                spec_aes_key(d.len() as u64),
                spec_iv(stored_crc(d) as u64),
                p,
            ) == deobfuscate(d).skip(0x30) ==> body == p,
        forall|k: Seq<u8>, v: Seq<u8>, p: Seq<u8>|
            k.len() == 24 && v.len() == 16 && p.len() % 16 == 0 && #[trigger] aes192_cbc_encrypt(k, v, p)
                == deobfuscate(d).skip(0x30) ==> p.len() == body.len(),
        body.len() == deobfuscate(d).skip(0x30).len(),
    ensures
        plain_image(d) == unencrypted_image(x, c),
        decrypt_checksum_ok(d),
        stored_size(d) == x.len() as u32,
        plain_image(d).skip(0x30).subrange(0, c.len() as int) == c,
        c.len() <= plain_image(d).skip(0x30).len(),
{
    reveal(plain_image);
    lemma_encrypted_image_header(x, c);
    lemma_unencrypted_image_len(x, c);
    let b1 = unencrypted_image(x, c);
    let crc = crc32_iso_hdlc(b1);
    let key1 = spec_aes_key(b1.len() as u64);
    let iv1 = spec_iv(crc as u64);
    assert(key1.len() == 24);
    assert(iv1.len() == 16);
    assert(b1.skip(0x30).len() % 16 == 0);
    assert(b1.skip(0x30).len() == body.len());
    assert(b1.len() == d.len());
    assert(body == b1.skip(0x30));
    assert(plain_image(d) =~= b1);
    assert(b1.skip(0x30).subrange(0, c.len() as int) =~= c);
}

/// Reads the little-endian word at `at`.
fn read_u32_le(v: &Vec<u8>, at: usize) -> (r: u32)
    requires
        at + 4 <= v.len(),
    ensures
        r == u32_from_le(v@.subrange(at as int, at + 4)),
{
    (v[at] as u32) | ((v[at + 1] as u32) << 8u32) | ((v[at + 2] as u32) << 16u32) | ((v[at + 3] as u32)
        << 24u32)
}

/// The plain file inside an encrypted file, with the stored checksum and
/// decompressed size. When the file is one that encryption made, the plain
/// file is the one that encryption built.
fn open_encrypted(data: Vec<u8>) -> (r: (Vec<u8>, u32, u32))
    requires
        decrypt_size_ok(data@),
    ensures
        r.0@ == plain_image(data@),
        r.0@.len() == data@.len(),
        r.1 == stored_crc(data@),
        r.2 == stored_size(data@),
        forall|x: Seq<u8>, c: Seq<u8>|
            #[trigger] encrypted_image(x, c) == data@ ==> plain_image(data@) == unencrypted_image(x, c)
                && stored_size(data@) == x.len() as u32 && decrypt_checksum_ok(data@),
{
    let ghost d = data@;
    let size = data.len();
    let mut in_data = data;
    let kb = if size < 0x400 {
        size
    } else {
        0x400
    };
    let first = decrypt_first_kb(&mut in_data, kb, size as u64);
    assert(first is Ok);
    assert(in_data@ == deobfuscate(d));
    let crc32 = read_u32_le(&in_data, 0x24);
    let stored = read_u32_le(&in_data, 0x28);
    let aes_key = get_aes_key(size as u64);
    let aes_iv = get_iv(crc32 as u64);
    let ghost dd = in_data@;
    let mut body = in_data.split_off(0x30);
    assert(body@ == dd.skip(0x30));
    aes192_cbc_decrypt_in_place(&aes_key, &aes_iv, &mut body);
    proof {
        assert forall|x: Seq<u8>, c: Seq<u8>|
            #[trigger] encrypted_image(x, c) == d implies plain_image(d) == unencrypted_image(x, c)
                && stored_size(d) == x.len() as u32 && decrypt_checksum_ok(d) by {
            lemma_decrypt_of_encryption(d, x, c, body@);
        }
    }
    in_data.set(0x24, 0);
    in_data.set(0x25, 0);
    in_data.set(0x26, 0);
    in_data.set(0x27, 0);
    assert(in_data@ =~= zero_crc_field(dd.take(0x30)));
    in_data.append(&mut body);
    assert(in_data@ =~= plain_image(d)) by {
        reveal(plain_image);
    }
    (in_data, crc32, stored)
}

/// Decrypts the contents of an encrypted file.
///
/// Fails on a size that is not a multiple of 16 or below 0x30 bytes, on a
/// checksum that does not match, on a zlib stream that does not decode and
/// on a decompressed size that differs from the stored one. What
/// `encrypt_data` made of some data decrypts to that data.
pub fn decrypt_data(data: Vec<u8>) -> (r: Result<Vec<u8>, CryptError>)
    ensures
        data@.len() % 16 != 0 ==> (r matches Err(CryptError::FileSizeError(m)) && m@
            == "File size is not a multiple of 16!"@),
        data@.len() % 16 == 0 && data@.len() < 0x30 ==> (r matches Err(CryptError::FileSizeError(m))
            && m@ == "File to decrypt is too small!"@),
        decrypt_size_ok(data@) && !decrypt_checksum_ok(data@) ==> (r matches Err(
            CryptError::ChecksumMismatch { stored_crc: s, computed_crc: c },
        ) && s == stored_crc(data@) && c == crc32_iso_hdlc(plain_image(data@))),
        decrypt_size_ok(data@) && decrypt_checksum_ok(data@) && zlib_decompress(
            plain_image(data@).skip(0x30),
        ) is CutShort ==> (r matches Err(CryptError::InvalidData(m))
            && m@ == "Error decompressing zlib stream! Not enough data?"@),
        decrypt_size_ok(data@) && decrypt_checksum_ok(data@) && zlib_decompress(
            plain_image(data@).skip(0x30),
        ) is Corrupt ==> r matches Err(CryptError::IoError(_)),
        decrypt_size_ok(data@) && decrypt_checksum_ok(data@) ==> (zlib_decompress(
            plain_image(data@).skip(0x30),
        ) matches Inflated::Data(out) ==> if out.len() == stored_size(data@) {
            r matches Ok(v) && v@ == out
        } else {
            r matches Err(CryptError::DecompressedSizeMismatch { stored_size: s, actual_size: a })
                && s == stored_size(data@) && a == out.len()
        }),
        forall|source: (Seq<u8>, u32)|
            source.0.len() < 0x1_0000_0000 && source.1 <= 9 && #[trigger] encryption_of(source.0, source.1)
                == Some(data@) ==> (r matches Ok(v) && v@ == source.0),
{
    let size = data.len();
    if size % 16 != 0 || size < 0x30 {
        proof {
            assert forall|source: (Seq<u8>, u32)|
                source.0.len() < 0x1_0000_0000 && source.1 <= 9 && #[trigger] encryption_of(source.0, source.1)
                    == Some(data@) implies false by {
                let c = zlib_compress(source.0, source.1).unwrap();
                lemma_encryption_size(source.0, c);
            }
        }
        if size % 16 != 0 {
            return Err(CryptError::file_size_error("File size is not a multiple of 16!"));
        }
        return Err(CryptError::file_size_error("File to decrypt is too small!"));
    }
    let ghost d = data@;
    let (plain, crc32, stored) = open_encrypted(data);
    let computed = crc32_checksum(plain.as_slice());
    if computed != crc32 {
        proof {
            assert forall|source: (Seq<u8>, u32)|
                source.0.len() < 0x1_0000_0000 && source.1 <= 9 && #[trigger] encryption_of(source.0, source.1)
                    == Some(d) implies false by {
                let c = zlib_compress(source.0, source.1).unwrap();
                assert(encrypted_image(source.0, c) == d);
            }
        }
        return Err(CryptError::ChecksumMismatch { stored_crc: crc32, computed_crc: computed });
    }
    let compressed = vstd::slice::slice_subrange(plain.as_slice(), 0x30, plain.len());
    assert(compressed@ =~= plain_image(d).skip(0x30));
    let decompressed = zlib_decompress_bytes(compressed);
    let out = match decompressed {
        Ok(out) => out,
        Err(error) => {
            proof {
                assert forall|source: (Seq<u8>, u32)|
                    source.0.len() < 0x1_0000_0000 && source.1 <= 9 && #[trigger] encryption_of(
                        source.0,
                        source.1,
                    ) == Some(d) implies false by {
                    let c = zlib_compress(source.0, source.1).unwrap();
                assert(encrypted_image(source.0, c) == d);
                lemma_unencrypted_image_len(source.0, c);
                assert(plain_image(d).skip(0x30).subrange(0, c.len() as int) =~= c);
                assert(compressed@.subrange(0, c.len() as int) == c);
                assert(starts_with_zlib_stream_of(compressed@, source.0, source.1));
                assert(decompressed matches Ok(v) && v@ == source.0);
                }
            }
            return match error {
                InflateError::CutShort => Err(
                    CryptError::InvalidData(String::from_str("Error decompressing zlib stream! Not enough data?")),
                ),
                InflateError::Corrupt(e) => Err(CryptError::IoError(e)),
            };
        },
    };
    if out.len() as u64 != stored as u64 {
        proof {
            assert forall|source: (Seq<u8>, u32)|
                source.0.len() < 0x1_0000_0000 && source.1 <= 9 && #[trigger] encryption_of(source.0, source.1)
                    == Some(d) implies false by {
                let c = zlib_compress(source.0, source.1).unwrap();
                assert(encrypted_image(source.0, c) == d);
                lemma_unencrypted_image_len(source.0, c);
                assert(plain_image(d).skip(0x30).subrange(0, c.len() as int) =~= c);
                assert(compressed@.subrange(0, c.len() as int) == c);
                assert(starts_with_zlib_stream_of(compressed@, source.0, source.1));
                assert(decompressed matches Ok(v) && v@ == source.0);
            }
        }
        return Err(
            CryptError::DecompressedSizeMismatch {
                stored_size: stored as u64,
                actual_size: out.len() as u64,
            },
        );
    }
    proof {
        assert forall|source: (Seq<u8>, u32)|
            source.0.len() < 0x1_0000_0000 && source.1 <= 9 && #[trigger] encryption_of(source.0, source.1)
                == Some(d) implies out@ == source.0 by {
            let c = zlib_compress(source.0, source.1).unwrap();
            assert(encrypted_image(source.0, c) == d);
            lemma_unencrypted_image_len(source.0, c);
            assert(plain_image(d).skip(0x30).subrange(0, c.len() as int) =~= c);
            assert(compressed@.subrange(0, c.len() as int) == c);
            assert(starts_with_zlib_stream_of(compressed@, source.0, source.1));
        }
    }
    Ok(out)
}

/// The header of a file to encrypt, before its checksum is known.
fn make_header(len: u32) -> (r: Vec<u8>)
    ensures
        r@ == encrypt_header(len as nat),
{
    let mut header: Vec<u8> = Vec::new();
    header.push(0x4D);
    header.push(0x5A);
    header.push(0x4E);
    header.push(0x43);
    let mut i: usize = 0;
    while i < 0x24
        invariant
            i <= 0x24,
            header@ == seq![0x4Du8, 0x5Au8, 0x4Eu8, 0x43u8] + zeros(i as int),
        decreases 0x24 - i,
    {
        header.push(0);
        i = i + 1;
        assert(header@ =~= seq![0x4Du8, 0x5Au8, 0x4Eu8, 0x43u8] + zeros(i as int));
    }
    header.push(len as u8);
    header.push((len >> 8u32) as u8);
    header.push((len >> 16u32) as u8);
    header.push((len >> 24u32) as u8);
    header.push(0);
    header.push(0);
    header.push(0);
    header.push(0);
    assert(header@ =~= encrypt_header(len as nat));
    header
}

/// Encrypts data into the game's file format, compressing it with the
/// best compression when `small`, else the fastest.
///
/// Fails where the zlib encoder fails, or where the result would not fit
/// in memory.
pub fn encrypt_data(data: &[u8], small: bool) -> (r: Result<Vec<u8>, CryptError>)
    ensures
        zlib_compress(data@, compression_level(small)) is None ==> r matches Err(CryptError::IoError(_)),
        zlib_compress(data@, compression_level(small)) matches Some(c) ==> (if c.len() <= usize::MAX
            - 0x40 {
            r matches Ok(e) && encryption_of(data@, compression_level(small)) == Some(e@)
        } else {
            r matches Err(CryptError::FileSizeError(m)) && m@ == "File is too large to encrypt!"@
        }),
        r matches Ok(e) ==> encryption_of(data@, if small { 9u32 } else { 1u32 }) == Some(e@),
        r matches Ok(e) ==> e@.len() >= 0x30 && e@[0] == 0x4Du8 && e@[1] == 0x5Au8 && e@[2] == 0x4Eu8 && e@[3]
            == 0x43u8,
{
    let level: u32 = if small {
        9
    } else {
        1
    };
    let mut compressed = match zlib_compress_bytes(data, level) {
        Ok(compressed) => compressed,
        Err(error) => {
            return Err(CryptError::IoError(error));
        },
    };
    if compressed.len() > usize::MAX - 0x40 {
        return Err(CryptError::file_size_error("File is too large to encrypt!"));
    }
    let ghost x = data@;
    let ghost c = compressed@;
    let mut buffer = make_header(data.len() as u32);
    buffer.append(&mut compressed);
    let ghost b = buffer@;
    assert(b == encrypt_header(x.len()) + c);
    while buffer.len() % 16 != 0
        invariant
            b.len() <= buffer@.len() < b.len() + 16,
            buffer@ == b + zeros(buffer@.len() - b.len()),
            buffer@.len() <= next_multiple_of_16(b.len() as int),
            b.len() == 0x30 + c.len(),
            c.len() <= usize::MAX - 0x40,
        decreases next_multiple_of_16(b.len() as int) - buffer@.len(),
    {
        buffer.push(0);
        assert(buffer@ =~= b + zeros(buffer@.len() - b.len()));
    }
    proof {
        reveal(unencrypted_image);
        lemma_unencrypted_image_len(x, c);
        assert(buffer@ =~= unencrypted_image(x, c));
    }
    let ghost b1 = buffer@;
    let n = buffer.len();
    let crc = crc32_checksum(buffer.as_slice());
    buffer.set(0x24, crc as u8);
    buffer.set(0x25, (crc >> 8u32) as u8);
    buffer.set(0x26, (crc >> 16u32) as u8);
    buffer.set(0x27, (crc >> 24u32) as u8);
    assert(buffer@ =~= with_checksum(b1));
    let aes_key = get_aes_key(n as u64);
    let aes_iv = get_iv(crc as u64);
    let ghost b2 = buffer@;
    let mut body = buffer.split_off(0x30);
    aes192_cbc_encrypt_in_place(&aes_key, &aes_iv, &mut body);
    buffer.append(&mut body);
    assert(buffer@ =~= encrypted_unobfuscated(x, c));
    let kb = if n < 0x400 {
        n
    } else {
        0x400
    };
    let obfuscated = decrypt_first_kb(&mut buffer, kb, n as u64);
    assert(obfuscated is Ok);
    proof {
        reveal(encrypted_image);
    }
    assert(buffer@ == encrypted_image(x, c));
    proof {
        assert(encryption_of(x, level) == Some(buffer@));
        lemma_encryption_starts_with_magic(x, level, buffer@);
    }
    Ok(buffer)
}

} // verus!
