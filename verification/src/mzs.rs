//! M2 MZS archives: a zstd frame XOR-ed with a keystream drawn from MT19937,
//! which is seeded with MD5(game key + lowercase file name).
//!
//! Layout: `"mzs\0"`, uncompressed size (u32 LE), then the encrypted payload.
use vstd::prelude::*;
use md5::Digest;
use vstd::slice::SliceAdditionalExecFns;
use vstd::string::StringSliceAdditionalSpecFns;
use crate::mt19937::{init_by_array_state, refreshed, temper, N, MT19937};

verus! {

pub const MAGIC: [u8; 4] = [0x6d, 0x7a, 0x73, 0x00];

pub const HEADER_SIZE: usize = 8;

pub const DEFAULT_KEY: &'static str = "8!7ZZnJAr/wfc";

pub const DEFAULT_KEY_LENGTH: usize = 64;

pub const DEFAULT_LEVEL: i32 = 3;

pub const ZSTD_MAGIC: u32 = 0xFD2F_B528;

#[verifier::external_type_specification]
#[verifier::external_body]
pub struct ExIoError(std::io::Error);

/// Why an archive could not be unpacked or packed.
#[derive(Debug)]
pub enum Error {
    BadMagic,
    Truncated,
    NotZstd,
    Zstd(std::io::Error),
    SizeMismatch { expected: u32, actual: usize },
}

// ---- names for what the outside crates compute ----

/// The MD5 digest of a byte string.
pub uninterp spec fn md5_digest(data: Seq<u8>) -> Seq<u8>;

/// The zstd frame that `zstd::encode_all` produces for `data` at `level`.
pub uninterp spec fn zstd_compressed(data: Seq<u8>, level: i32) -> Seq<u8>;

/// What `zstd::decode_all` yields for `frame`, `None` where it fails.
pub uninterp spec fn zstd_decompressed(frame: Seq<u8>) -> Option<Seq<u8>>;

/// Calls `md5::Md5::digest` (RustCrypto `md-5`). The result is named by
/// `md5_digest` of the input bytes; its length, 16, is fixed by the type.
#[verifier::external_body]
pub(crate) fn md5(data: &[u8]) -> (digest: [u8; 16])
    ensures
        digest@ == md5_digest(data@),
{
    md5::Md5::digest(data).into()
}

/// The compression levels that zstd accepts as they are, without clamping.
pub open spec fn level_in_range(level: i32) -> bool {
    1 <= level <= 22
}

/// Calls `zstd::encode_all` on an in-memory slice, writing into a `Vec`.
/// On success the result is named by `zstd_compressed(data, level)` and,
/// being a zstd frame, opens with the four little-endian bytes of the frame
/// magic number. Reading a slice and writing a `Vec` cannot fail, so for a
/// level in zstd's regular range the call succeeds; what remains is an
/// allocation failure, which aborts rather than returning.
#[verifier::external_body]
fn zstd_encode(data: &[u8], level: i32) -> (res: Result<Vec<u8>, std::io::Error>)
    ensures
        res matches Ok(c) ==> {
            &&& c@ == zstd_compressed(data@, level)
            &&& c@.len() >= 4
            &&& le_u32(c@, 0) == ZSTD_MAGIC
        },
        level_in_range(level) ==> res is Ok,
{
    zstd::encode_all(data, level)
}

/// Whether `res`, the outcome of decoding `frame`, gives back the data of
/// every encoding at a regular level that produced `frame`.
pub open spec fn encoder_frame_decodes(frame: Seq<u8>, res: Result<Vec<u8>, std::io::Error>) -> bool {
    forall|orig: Seq<u8>, level: i32|
        #![trigger zstd_compressed(orig, level)]
        level_in_range(level) && frame == zstd_compressed(orig, level) ==> (res matches Ok(d) && d@
            == orig)
}

/// Calls `zstd::decode_all`. Its outcome is named by `zstd_decompressed` of
/// the input. A frame that `zstd::encode_all` produced at a level in the
/// regular range decodes, and gives back the data that was compressed.
#[verifier::external_body]
fn zstd_decode(frame: &[u8]) -> (res: Result<Vec<u8>, std::io::Error>)
    ensures
        res matches Ok(d) ==> zstd_decompressed(frame@) == Some(d@),
        res is Err ==> zstd_decompressed(frame@) is None,
        encoder_frame_decodes(frame@, res),
{
    zstd::decode_all(frame)
}

// ---- keystream ----

/// Little-endian u32 at `at` in `b`.
pub open spec fn le_u32(b: Seq<u8>, at: int) -> u32 {
    (b[at] as u32) | ((b[at + 1] as u32) << 8u32) | ((b[at + 2] as u32) << 16u32) | ((
    b[at + 3] as u32) << 24u32)
}

/// The four little-endian bytes of `w`.
pub open spec fn le_bytes_u32(w: u32) -> Seq<u8> {
    seq![
        (w & 0xffu32) as u8,
        ((w >> 8u32) & 0xffu32) as u8,
        ((w >> 16u32) & 0xffu32) as u8,
        ((w >> 24u32) & 0xffu32) as u8,
    ]
}

/// ASCII upper-case letters lowered, every other byte kept.
pub open spec fn ascii_lower(b: Seq<u8>) -> Seq<u8> {
    Seq::new(b.len(), |i: int| if 65 <= b[i] <= 90 { (b[i] + 32) as u8 } else { b[i] })
}

/// The four seed words read from a 16-byte digest.
pub open spec fn seed_words(digest: Seq<u8>) -> Seq<u32> {
    seq![le_u32(digest, 0), le_u32(digest, 4), le_u32(digest, 8), le_u32(digest, 12)]
}

/// Generator state after `n` draws from `st`.
pub open spec fn state_after(st: (Seq<u32>, nat), n: nat) -> (Seq<u32>, nat)
    decreases n,
{
    if n == 0 {
        st
    } else {
        let r = refreshed(state_after(st, (n - 1) as nat).0, state_after(st, (n - 1) as nat).1);
        (r.0, r.1 + 1)
    }
}

/// The `n`-th word drawn from `st` (counting from 0).
pub open spec fn drawn_word(st: (Seq<u32>, nat), n: nat) -> u32 {
    let s = state_after(st, n);
    let r = refreshed(s.0, s.1);
    temper(r.0[r.1 as int])
}

/// Keystream of `length` bytes for a digest: the drawn words, little-endian, in order.
pub open spec fn keystream_of(digest: Seq<u8>, length: nat) -> Seq<u8> {
    let st = (init_by_array_state(seed_words(digest)), N as nat);
    Seq::new(length, |k: int| le_bytes_u32(drawn_word(st, (k / 4) as nat))[k % 4])
}

/// Byte `b` (0..4) of `w`, least significant first.
proof fn lemma_le_byte(w: u32, b: int)
    requires
        0 <= b < 4,
    ensures
        le_bytes_u32(w)[b] == ((w >> ((8 * b) as u32)) & 0xffu32) as u8,
{
    if b == 0 {
        assert((w >> 0u32) == w) by (bit_vector);
    } else if b == 1 {
        assert(((8 * b) as u32) == 8u32);
    } else if b == 2 {
        assert(((8 * b) as u32) == 16u32);
    } else {
        assert(((8 * b) as u32) == 24u32);
    }
}

/// The keystream of a digest: MT19937 seeded through `init_by_array` with
/// the digest's sixteen bytes read as four little-endian words, in order
/// (bytes 0..4 first), and byte `k` is byte `k % 4` (least significant first)
/// of the `k / 4`-th word drawn.
pub proof fn lemma_keystream_seeding(digest: Seq<u8>, length: nat, k: int)
    requires
        digest.len() == 16,
        0 <= k < length,
    ensures
        keystream_of(digest, length)[k] == ((drawn_word(
            (
                init_by_array_state(
                    seq![
                        (digest[0] as u32) | ((digest[1] as u32) << 8u32) | ((digest[2] as u32) << 16u32) | ((
                        digest[3] as u32) << 24u32),
                        (digest[4] as u32) | ((digest[5] as u32) << 8u32) | ((digest[6] as u32) << 16u32) | ((
                        digest[7] as u32) << 24u32),
                        (digest[8] as u32) | ((digest[9] as u32) << 8u32) | ((digest[10] as u32) << 16u32) | ((
                        digest[11] as u32) << 24u32),
                        (digest[12] as u32) | ((digest[13] as u32) << 8u32) | ((digest[14] as u32) << 16u32) | ((
                        digest[15] as u32) << 24u32),
                    ],
                ),
                N as nat,
            ),
            (k / 4) as nat,
        ) >> ((8 * (k % 4)) as u32)) & 0xffu32) as u8,
{
    let words = seq![
        (digest[0] as u32) | ((digest[1] as u32) << 8u32) | ((digest[2] as u32) << 16u32) | ((digest[3] as u32) << 24u32),
        (digest[4] as u32) | ((digest[5] as u32) << 8u32) | ((digest[6] as u32) << 16u32) | ((digest[7] as u32) << 24u32),
        (digest[8] as u32) | ((digest[9] as u32) << 8u32) | ((digest[10] as u32) << 16u32) | ((digest[11] as u32) << 24u32),
        (digest[12] as u32) | ((digest[13] as u32) << 8u32) | ((digest[14] as u32) << 16u32) | ((digest[15] as u32) << 24u32),
    ];
    assert(seed_words(digest) =~= words);
    lemma_le_byte(drawn_word((init_by_array_state(words), N as nat), (k / 4) as nat), k % 4);
}

/// Keystream for a game key and a file name.
pub open spec fn keystream(game_key: Seq<u8>, filename: Seq<u8>, length: nat) -> Seq<u8> {
    keystream_of(md5_digest(game_key + ascii_lower(filename)), length)
}

/// The keystream of a file name without ASCII capitals comes from the MD5
/// of the game key followed by the name's bytes.
pub proof fn lemma_keystream_digest(game_key: Seq<u8>, filename: Seq<u8>, length: nat)
    requires
        forall|i: int| 0 <= i < filename.len() ==> !(65 <= #[trigger] filename[i] <= 90),
    ensures
        keystream(game_key, filename, length) == keystream_of(md5_digest(game_key + filename), length),
{
    assert(ascii_lower(filename) =~= filename);
}

/// Keystreams ignore the ASCII case of the file name: names that differ only
/// in the case of ASCII letters give the same keystream.
pub proof fn lemma_keystream_ignores_case(game_key: Seq<u8>, f1: Seq<u8>, f2: Seq<u8>, length: nat)
    requires
        f1.len() == f2.len(),
        forall|i: int|
            0 <= i < f1.len() ==> #[trigger] f1[i] == #[trigger] f2[i] || (65 <= f1[i] <= 90 && f2[i] == f1[i] + 32)
                || (65 <= f2[i] <= 90 && f1[i] == f2[i] + 32),
    ensures
        keystream(game_key, f1, length) == keystream(game_key, f2, length),
{
    assert(ascii_lower(f1) =~= ascii_lower(f2));
}

/// `data` XOR-ed with `key` repeated.
pub open spec fn xor_with(data: Seq<u8>, key: Seq<u8>) -> Seq<u8> {
    Seq::new(data.len(), |i: int| data[i] ^ key[i % (key.len() as int)])
}

/// XOR with the same key twice gives the data back.
pub proof fn lemma_xor_involution(data: Seq<u8>, key: Seq<u8>)
    requires
        key.len() > 0,
    ensures
        xor_with(xor_with(data, key), key) == data,
{
    assert forall|i: int| 0 <= i < data.len() implies #[trigger] xor_with(
        xor_with(data, key),
        key,
    )[i] == data[i] by {
        let a = data[i];
        let b = key[i % (key.len() as int)];
        assert((a ^ b) ^ b == a) by (bit_vector);
    }
    assert(xor_with(xor_with(data, key), key) =~= data);
}

fn le_u32_at(b: &[u8], at: usize) -> (w: u32)
    requires
        at + 4 <= b@.len(),
    ensures
        w == le_u32(b@, at as int),
{
    (b[at] as u32) | ((b[at + 1] as u32) << 8) | ((b[at + 2] as u32) << 16) | ((
    b[at + 3] as u32) << 24)
}

fn push_le_u32(out: &mut Vec<u8>, w: u32)
    ensures
        final(out)@ == old(out)@ + le_bytes_u32(w),
{
    out.push((w & 0xff) as u8);
    out.push(((w >> 8) & 0xff) as u8);
    out.push(((w >> 16) & 0xff) as u8);
    out.push(((w >> 24) & 0xff) as u8);
    assert(final(out)@ =~= old(out)@ + le_bytes_u32(w));
}

/// Keystream of `length` bytes drawn from a generator seeded with the digest's words.
pub fn keystream_from_digest(digest: &[u8; 16], length: usize) -> (ks: Vec<u8>)
    ensures
        ks@ == keystream_of(digest@, length as nat),
{
    let seed: [u32; 4] = [
        le_u32_at(digest, 0),
        le_u32_at(digest, 4),
        le_u32_at(digest, 8),
        le_u32_at(digest, 12),
    ];
    assert(seed@ =~= seed_words(digest@));
    let mut mt = MT19937::new();
    mt.init_by_array(&seed);
    let ghost st = (init_by_array_state(seed_words(digest@)), N as nat);
    let words: usize = length / 4 + 1;
    let mut all: Vec<u8> = Vec::new();
    let mut n: usize = 0;
    while n < words
        invariant
            words == length / 4 + 1,
            n <= words,
            mt@ == state_after(st, n as nat),
            all@.len() == 4 * n,
            forall|k: int|
                0 <= k < all@.len() ==> all@[k] == le_bytes_u32(drawn_word(st, (k / 4) as nat))[k
                    % 4],
        decreases words - n,
    {
        let ghost before = all@;
        let w = mt.genrand_int32();
        assert(w == drawn_word(st, n as nat));
        push_le_u32(&mut all, w);
        assert forall|k: int| 0 <= k < all@.len() implies all@[k] == le_bytes_u32(
            drawn_word(st, (k / 4) as nat),
        )[k % 4] by {
            if k < before.len() {
                assert(all@[k] == before[k]);
            } else {
                assert(k / 4 == n as int);
                assert(all@[k] == le_bytes_u32(w)[k - 4 * n]);
            }
        }
        n = n + 1;
    }
    let mut out: Vec<u8> = Vec::new();
    let mut i: usize = 0;
    while i < length
        invariant
            i <= length,
            all@.len() == 4 * words,
            words == length / 4 + 1,
            out@ == all@.subrange(0, i as int),
        decreases length - i,
    {
        out.push(all[i]);
        i = i + 1;
    }
    assert forall|k: int| 0 <= k < length implies out@[k] == keystream_of(digest@, length as nat)[k] by {
        assert(out@[k] == all@[k]);
    }
    assert(out@ =~= keystream_of(digest@, length as nat));
    out
}

/// Bytes of `s` with ASCII upper-case letters lowered.
fn lower_ascii_bytes(s: &str) -> (b: Vec<u8>)
    ensures
        b@ == ascii_lower(s.spec_bytes()),
{
    let src = s.as_bytes();
    let mut out: Vec<u8> = Vec::new();
    let mut i: usize = 0;
    while i < src.len()
        invariant
            i <= src@.len(),
            src@ == s.spec_bytes(),
            out@ == ascii_lower(src@).subrange(0, i as int),
        decreases src@.len() - i,
    {
        let c = src[i];
        if 65 <= c && c <= 90 {
            out.push(c + 32);
        } else {
            out.push(c);
        }
        i = i + 1;
        assert(out@ =~= ascii_lower(src@).subrange(0, i as int));
    }
    assert(out@ =~= ascii_lower(src@));
    out
}

/// Builds the XOR keystream for a (game key, file name, length) triple:
/// MD5 of the key followed by the lowercased name seeds MT19937, and the drawn
/// words are laid out little-endian.
pub fn derive_keystream(game_key: &str, filename: &str, length: usize) -> (ks: Vec<u8>)
    ensures
        ks@ == keystream(game_key.spec_bytes(), filename.spec_bytes(), length as nat),
{
    let mut input: Vec<u8> = Vec::new();
    let kb = game_key.as_bytes();
    let mut i: usize = 0;
    while i < kb.len()
        invariant
            i <= kb@.len(),
            input@ == kb@.subrange(0, i as int),
        decreases kb@.len() - i,
    {
        input.push(kb[i]);
        i = i + 1;
    }
    let lower = lower_ascii_bytes(filename);
    let mut j: usize = 0;
    while j < lower.len()
        invariant
            j <= lower@.len(),
            input@ == kb@ + lower@.subrange(0, j as int),
        decreases lower@.len() - j,
    {
        input.push(lower[j]);
        j = j + 1;
    }
    assert(input@ =~= game_key.spec_bytes() + ascii_lower(filename.spec_bytes()));
    let digest = md5(input.as_slice());
    keystream_from_digest(&digest, length)
}

/// XORs `data` in place with `key` repeated over it.
pub fn xor_into(data: &mut [u8], key: &[u8])
    requires
        key@.len() > 0,
    ensures
        final(data)@ == xor_with(old(data)@, key@),
{
    let kl = key.len();
    let mut i: usize = 0;
    while i < data.len()
        invariant
            kl == key@.len(),
            kl > 0,
            i <= data@.len(),
            data@.len() == old(data)@.len(),
            forall|k: int| 0 <= k < i ==> data@[k] == old(data)@[k] ^ key@[k % (kl as int)],
            forall|k: int| i <= k < data@.len() ==> data@[k] == old(data)@[k],
        decreases data@.len() - i,
    {
        let b = data[i] ^ key[i % kl];
        data.set(i, b);
        i = i + 1;
    }
    assert(data@ =~= xor_with(old(data)@, key@));
}

// ---- archive framing ----

/// The sealed archive for a compressed payload, the original size and a keystream.
pub open spec fn sealed(compressed: Seq<u8>, original_len: u32, ks: Seq<u8>) -> Seq<u8> {
    MAGIC@ + le_bytes_u32(original_len) + xor_with(compressed, ks)
}

/// What decrypting an archive with a keystream yields before decompression.
pub enum Opened {
    Truncated,
    BadMagic,
    NotZstd,
    Frame { payload: Seq<u8>, expected: u32 },
}

/// Header checks and decryption of an archive.
pub open spec fn opened(data: Seq<u8>, ks: Seq<u8>) -> Opened {
    if data.len() < HEADER_SIZE {
        Opened::Truncated
    } else if data.subrange(0, 4) != MAGIC@ {
        Opened::BadMagic
    } else {
        let payload = xor_with(data.skip(8), ks);
        if payload.len() >= 4 && le_u32(payload, 0) != ZSTD_MAGIC {
            Opened::NotZstd
        } else {
            Opened::Frame { payload, expected: le_u32(data, 4) }
        }
    }
}

/// Opening what was sealed with the same keystream gives back the compressed
/// frame and the recorded size.
pub proof fn lemma_open_sealed(compressed: Seq<u8>, original_len: u32, ks: Seq<u8>)
    requires
        ks.len() > 0,
        compressed.len() >= 4,
        le_u32(compressed, 0) == ZSTD_MAGIC,
    ensures
        opened(sealed(compressed, original_len, ks), ks) == (Opened::Frame {
            payload: compressed,
            expected: original_len,
        }),
{
    let s = sealed(compressed, original_len, ks);
    assert(s.subrange(0, 4) =~= MAGIC@);
    assert(s.skip(8) =~= xor_with(compressed, ks));
    lemma_xor_involution(compressed, ks);
    let w = original_len;
    assert(le_u32(le_bytes_u32(w), 0) == w) by {
        let b = le_bytes_u32(w);
        assert((((w & 0xffu32) as u8) as u32) | (((((w >> 8u32) & 0xffu32) as u8) as u32) << 8u32)
            | (((((w >> 16u32) & 0xffu32) as u8) as u32) << 16u32) | (((((w >> 24u32)
            & 0xffu32) as u8) as u32) << 24u32) == w) by (bit_vector);
    }
    assert(le_u32(s, 4) == le_u32(le_bytes_u32(w), 0));
}

/// What `unpack` returns for `data`, given the keystream: the header checks
/// decide, then zstd decides, then the recorded size is compared. A frame
/// that `zstd::encode_all` produced decodes to the data that was compressed.
pub open spec fn unpack_result(data: Seq<u8>, ks: Seq<u8>, res: Result<Vec<u8>, Error>) -> bool {
    match opened(data, ks) {
        Opened::Truncated => res matches Err(Error::Truncated),
        Opened::BadMagic => res matches Err(Error::BadMagic),
        Opened::NotZstd => res matches Err(Error::NotZstd),
        Opened::Frame { payload, expected } => {
            &&& match zstd_decompressed(payload) {
                None => res matches Err(Error::Zstd(_)),
                Some(d) => if d.len() == expected {
                    (res matches Ok(out) && out@ == d)
                } else {
                    (res matches Err(Error::SizeMismatch { expected: e, actual: a }) && e
                        == expected && a == d.len())
                },
            }
            &&& forall|orig: Seq<u8>, level: i32|
                #![trigger zstd_compressed(orig, level)]
                level_in_range(level) && payload == zstd_compressed(orig, level)
                    ==> zstd_decompressed(payload) == Some(orig)
        },
    }
}

/// What `pack` returns: on success the archive sealed around the zstd frame
/// of the data; it fails only where zstd fails, which it does not at a level
/// in the regular range.
pub open spec fn pack_result(data: Seq<u8>, level: i32, ks: Seq<u8>, res: Result<Vec<u8>, Error>) -> bool {
    &&& level_in_range(level) ==> res is Ok
    &&& res matches Ok(out) ==> out@ == sealed(zstd_compressed(data, level), data.len() as u32, ks)
    &&& res matches Ok(out) ==> zstd_compressed(data, level).len() >= 4 && le_u32(
        zstd_compressed(data, level),
        0,
    ) == ZSTD_MAGIC
    &&& res is Err ==> res matches Err(Error::Zstd(_))
}

/// Unpacking what `pack` produced, with the same keystream, gives the data
/// back, for data whose length the header can record.
pub proof fn lemma_pack_then_unpack(
    data: Seq<u8>,
    level: i32,
    ks: Seq<u8>,
    packed: Result<Vec<u8>, Error>,
    res: Result<Vec<u8>, Error>,
)
    requires
        ks.len() > 0,
        data.len() <= u32::MAX,
        level_in_range(level),
        pack_result(data, level, ks, packed),
        unpack_result(packed->Ok_0@, ks, res),
    ensures
        res matches Ok(out) && out@ == data,
{
    let frame = zstd_compressed(data, level);
    lemma_open_sealed(frame, data.len() as u32, ks);
    assert(zstd_decompressed(frame) == Some(data));
}

/// Whether `unpack` panics: an empty keystream over a non-empty payload.
pub open spec fn unpack_panics(data: Seq<u8>, key_length: nat) -> bool {
    &&& key_length == 0
    &&& data.len() > HEADER_SIZE
    &&& data.subrange(0, 4) == MAGIC@
}

/// Checks the decompressed size against the size the header records.
pub fn check_size(decoded: Vec<u8>, expected: u32) -> (res: Result<Vec<u8>, Error>)
    ensures
        decoded@.len() == expected ==> (res matches Ok(d) && d@ == decoded@),
        decoded@.len() != expected ==> (res matches Err(Error::SizeMismatch { expected: e, actual: a })
            && e == expected && a == decoded@.len()),
{
    if decoded.len() != expected as usize {
        let actual = decoded.len();
        Err(Error::SizeMismatch { expected, actual })
    } else {
        Ok(decoded)
    }
}

/// Decrypts and decompresses an archive. `filename` is the basename the
/// bytes were read from: the keystream depends on it.
pub fn unpack(data: &[u8], filename: &str, game_key: &str, key_length: usize) -> (res: Result<
    Vec<u8>,
    Error,
>)
    requires
        !unpack_panics(data@, key_length as nat),
        key_length < usize::MAX - 4,
    ensures
        unpack_result(
            data@,
            keystream(game_key.spec_bytes(), filename.spec_bytes(), key_length as nat),
            res,
        ),
{
    let ghost ks = keystream(game_key.spec_bytes(), filename.spec_bytes(), key_length as nat);
    if data.len() < HEADER_SIZE {
        return Err(Error::Truncated);
    }
    if !(data[0] == MAGIC[0] && data[1] == MAGIC[1] && data[2] == MAGIC[2] && data[3] == MAGIC[3]) {
        proof {
            if data@.subrange(0, 4) == MAGIC@ {
                assert(data@[0] == data@.subrange(0, 4)[0]);
                assert(data@[1] == data@.subrange(0, 4)[1]);
                assert(data@[2] == data@.subrange(0, 4)[2]);
                assert(data@[3] == data@.subrange(0, 4)[3]);
            }
        }
        return Err(Error::BadMagic);
    }
    assert(data@.subrange(0, 4) =~= MAGIC@);
    let uncomp_size = le_u32_at(data, 4);
    let mut payload: Vec<u8> = Vec::new();
    let mut i: usize = HEADER_SIZE;
    while i < data.len()
        invariant
            HEADER_SIZE <= i <= data@.len(),
            payload@ == data@.subrange(HEADER_SIZE as int, i as int),
        decreases data@.len() - i,
    {
        payload.push(data[i]);
        i = i + 1;
    }
    assert(payload@ =~= data@.skip(8));
    let key = derive_keystream(game_key, filename, key_length);
    if payload.len() > 0 {
        xor_into(payload.as_mut_slice(), &key);
    } else {
        assert(payload@ =~= xor_with(data@.skip(8), ks));
    }
    if payload.len() >= 4 {
        let magic = le_u32_at(&payload, 0);
        if magic != ZSTD_MAGIC {
            return Err(Error::NotZstd);
        }
    }
    match zstd_decode(&payload) {
        Err(e) => Err(Error::Zstd(e)),
        Ok(decoded) => check_size(decoded, uncomp_size),
    }
}

/// Compresses and encrypts bytes into an archive named `filename`.
pub fn pack(data: &[u8], filename: &str, game_key: &str, key_length: usize, level: i32) -> (res:
    Result<Vec<u8>, Error>)
    requires
        key_length > 0,
        key_length < usize::MAX - 4,
    ensures
        pack_result(
            data@,
            level,
            keystream(game_key.spec_bytes(), filename.spec_bytes(), key_length as nat),
            res,
        ),
{
    let compressed = match zstd_encode(data, level) {
        Ok(c) => c,
        Err(e) => {
            return Err(Error::Zstd(e));
        },
    };
    let mut payload = compressed;
    let key = derive_keystream(game_key, filename, key_length);
    xor_into(payload.as_mut_slice(), &key);
    let mut out: Vec<u8> = Vec::new();
    out.push(MAGIC[0]);
    out.push(MAGIC[1]);
    out.push(MAGIC[2]);
    out.push(MAGIC[3]);
    push_le_u32(&mut out, data.len() as u32);
    let mut i: usize = 0;
    while i < payload.len()
        invariant
            i <= payload@.len(),
            out@.len() == 8 + i,
            out@ == MAGIC@ + le_bytes_u32(data@.len() as u32) + payload@.subrange(0, i as int),
        decreases payload@.len() - i,
    {
        out.push(payload[i]);
        i = i + 1;
    }
    assert(out@ =~= MAGIC@ + le_bytes_u32(data@.len() as u32) + payload@);
    Ok(out)
}

/// Unpacks with the default M2 key and key length.
pub fn unpack_default(data: &[u8], filename: &str) -> (res: Result<Vec<u8>, Error>)
    requires
        !unpack_panics(data@, DEFAULT_KEY_LENGTH as nat),
    ensures
        unpack_result(
            data@,
            keystream(DEFAULT_KEY.spec_bytes(), filename.spec_bytes(), DEFAULT_KEY_LENGTH as nat),
            res,
        ),
{
    unpack(data, filename, DEFAULT_KEY, DEFAULT_KEY_LENGTH)
}

/// Packs with the default M2 key and key length at zstd level 3.
pub fn pack_default(data: &[u8], filename: &str) -> (res: Result<Vec<u8>, Error>)
    ensures
        pack_result(
            data@,
            DEFAULT_LEVEL,
            keystream(DEFAULT_KEY.spec_bytes(), filename.spec_bytes(), DEFAULT_KEY_LENGTH as nat),
            res,
        ),
        res is Ok,
{
    pack(data, filename, DEFAULT_KEY, DEFAULT_KEY_LENGTH, DEFAULT_LEVEL)
}

} // verus!
