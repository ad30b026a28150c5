//! Content comparators: byte equality, the bounded sample hash and the full
//! content hash. They work on bytes the caller has read; a caller that cannot
//! read a file reports the conservative outcome itself.

use vstd::prelude::*;
use vstd::slice::*;

verus! {

/// The two 64-bit words `(h1, h2)` that MurmurHash3 (x64, 128 bit, seed 0)
/// computes for `data`.
pub uninterp spec fn murmur3_words(data: Seq<u8>) -> (u64, u64);

/// The 32-byte BLAKE3 digest of `data`.
pub uninterp spec fn blake3_digest(data: Seq<u8>) -> Seq<u8>;

/// Calls `fastmurmur3::hash`, which runs MurmurHash3 x64-128 with seed 0 over
/// the slice and packs the words `[h1, h2]` into a `u128` in the machine's
/// byte order. The body takes the two words back out in that same byte
/// order, so the pair is the same on every machine. Trusted: that the crate
/// computes a function of the bytes alone.
#[verifier::external_body]
fn murmur3(data: &[u8]) -> (words: (u64, u64))
    ensures
        words == murmur3_words(data@),
{
    let packed = fastmurmur3::hash(data).to_ne_bytes();
    let mut first = [0u8; 8];
    let mut second = [0u8; 8];
    first.copy_from_slice(&packed[..8]);
    second.copy_from_slice(&packed[8..]);
    (u64::from_ne_bytes(first), u64::from_ne_bytes(second))
}

/// Calls `blake3::hash` and copies the 32 digest bytes out of the returned
/// `Hash`. Trusted: that the crate computes a function of the bytes alone.
#[verifier::external_body]
fn blake3_bytes(data: &[u8]) -> (digest: [u8; 32])
    ensures
        digest@ == blake3_digest(data@),
{
    *blake3::hash(data).as_bytes()
}

/// A sample hash as one number: `h2` in the upper 64 bits, `h1` in the lower.
pub open spec fn pack_words(words: (u64, u64)) -> int {
    words.1 * 0x1_0000_0000_0000_0000 + words.0
}

/// The sample hash of a byte sequence.
pub open spec fn sample_value(data: Seq<u8>) -> int {
    pack_words(murmur3_words(data))
}

/// The number of leading bytes that a sample hash covers for a file of
/// `size` bytes: the whole file when it is shorter than the prefix.
pub open spec fn sample_length(size: u64, prefix_len: u64) -> u64 {
    if size < prefix_len {
        size
    } else {
        prefix_len
    }
}

/// Exec form of [`sample_length`].
pub fn sample_len(size: u64, prefix_len: u64) -> (len: u64)
    ensures
        len == sample_length(size, prefix_len),
{
    if size < prefix_len {
        size
    } else {
        prefix_len
    }
}

fn hash_bytes(data: &[u8]) -> (hash: u128)
    ensures
        hash == sample_value(data@),
{
    let words = murmur3(data);
    let high: u128 = words.1 as u128;
    let low: u128 = words.0 as u128;
    high * 0x1_0000_0000_0000_0000 + low
}

/// Hashes exactly the first `min(size, prefix_len)` bytes of `data`, the
/// bytes of a file whose recorded size is `size`. Gives `None` when `data`
/// is shorter than that, so a file that shrank or could not be read in full
/// never yields a hash.
pub fn sample_hash(data: &[u8], size: u64, prefix_len: u64) -> (hash: Option<u128>)
    ensures
        data@.len() < sample_length(size, prefix_len) ==> hash is None,
        data@.len() >= sample_length(size, prefix_len) ==> hash == Some(
            sample_value(data@.subrange(0, sample_length(size, prefix_len) as int)) as u128,
        ),
{
    let wanted = sample_len(size, prefix_len);
    if (data.len() as u64) < wanted {
        None
    } else {
        let prefix = slice_subrange(data, 0, wanted as usize);
        Some(hash_bytes(prefix))
    }
}

/// Whether two byte sequences are the same, length and content.
pub fn bytewise_equal(left: &[u8], right: &[u8]) -> (same: bool)
    ensures
        same == (left@ == right@),
{
    if left.len() != right.len() {
        return false;
    }
    let mut i: usize = 0;
    while i < left.len()
        invariant
            left@.len() == right@.len(),
            i <= left@.len(),
            forall|k: int| 0 <= k < i ==> left@[k] == right@[k],
        decreases left@.len() - i,
    {
        if left[i] != right[i] {
            return false;
        }
        i += 1;
    }
    assert(left@ =~= right@);
    true
}

/// The number that `bytes` spell when read as big-endian digits of base 256,
/// kept to 128 bits.
pub open spec fn be_value(bytes: Seq<u8>) -> u128
    decreases bytes.len(),
{
    if bytes.len() == 0 {
        0
    } else {
        (be_value(bytes.drop_last()) << 8) | (bytes.last() as u128)
    }
}

/// A 256-bit content digest as two numbers: its first sixteen bytes and its
/// last sixteen, each read big-endian. Comparing `(high, low)` pairs orders
/// digests as their bytes order them.
#[derive(Clone, Copy, Debug, PartialEq, Eq, Structural)]
pub struct ContentHash {
    pub high: u128,
    pub low: u128,
}

/// The content hash of a byte sequence.
pub open spec fn content_value(data: Seq<u8>) -> ContentHash {
    ContentHash {
        high: be_value(blake3_digest(data).subrange(0, 16)),
        low: be_value(blake3_digest(data).subrange(16, 32)),
    }
}

fn read_be(digest: &[u8; 32], from: usize) -> (value: u128)
    requires
        from + 16 <= 32,
    ensures
        value == be_value(digest@.subrange(from as int, from + 16)),
{
    let mut value: u128 = 0;
    let mut i: usize = 0;
    while i < 16
        invariant
            from + 16 <= 32,
            i <= 16,
            value == be_value(digest@.subrange(from as int, from + i)),
        decreases 16 - i,
    {
        let byte = digest[from + i];
        proof {
            let longer = digest@.subrange(from as int, from + i + 1);
            assert(longer.drop_last() =~= digest@.subrange(from as int, from + i));
            assert(longer.last() == byte);
        }
        value = (value << 8) | (byte as u128);
        i += 1;
    }
    value
}

/// The content hash of a whole file, given its bytes.
pub fn content_hash(data: &[u8]) -> (hash: ContentHash)
    ensures
        hash == content_value(data@),
{
    let digest = blake3_bytes(data);
    ContentHash { high: read_be(&digest, 0), low: read_be(&digest, 16) }
}

/// The bytes of `name`, each 16-bit unit low byte first.
pub open spec fn le_bytes(name: Seq<u16>) -> Seq<u8>
    decreases name.len(),
{
    if name.len() == 0 {
        Seq::empty()
    } else {
        le_bytes(name.drop_last()).push((name.last() % 256) as u8).push((name.last() / 256) as u8)
    }
}

/// The identity token of a physical file on platforms without inode numbers:
/// the sample hash of the name under which the file system first linked it,
/// given as UTF-16 units without a terminator. Files that are hard links of
/// one another share that name, and so the token.
pub fn link_name_identity(name: &[u16]) -> (token: u128)
    ensures
        token == sample_value(le_bytes(name@)),
{
    let mut bytes: Vec<u8> = Vec::new();
    let mut i: usize = 0;
    while i < name.len()
        invariant
            i <= name@.len(),
            bytes@ == le_bytes(name@.subrange(0, i as int)),
        decreases name@.len() - i,
    {
        let unit = name[i];
        proof {
            let longer = name@.subrange(0, i + 1);
            assert(longer.drop_last() =~= name@.subrange(0, i as int));
            assert(longer.last() == unit);
        }
        bytes.push((unit % 256) as u8);
        bytes.push((unit / 256) as u8);
        i += 1;
    }
    assert(name@.subrange(0, i as int) =~= name@);
    hash_bytes(bytes.as_slice())
}

} // verus!
