//! Block deltas: what has to be sent to turn an old version of a file into a new one.
//!
//! The algorithm is the `fast_rsync` crate's. It finds equal blocks by hashes that can collide,
//! so a delta is only as good as its blocks; whoever applies one compares digests afterwards.
use fast_rsync::SignatureOptions;
use vstd::prelude::*;

use crate::error::DsyncError;
use crate::error::ErrorView;
use crate::text::glue;

verus! {

/// How many bytes of each block's strong hash a signature holds.
pub const CRYPTO_HASH_SIZE: u32 = 8;

/// The hashes of a file's blocks, as bytes.
#[derive(Clone, Debug)]
pub struct Signature(pub Vec<u8>);

/// The difference between two files, as bytes.
#[derive(Clone, Debug)]
pub struct Delta(pub Vec<u8>);

/// The serialized signature of `basis` for blocks of `block_size` bytes, with `hash_size` bytes
/// of strong hash for each block.
pub uninterp spec fn rsync_signature(basis: Seq<u8>, block_size: u32, hash_size: u32) -> Seq<u8>;

/// The delta from what `signature` describes to `new`.
pub uninterp spec fn rsync_delta(signature: Seq<u8>, new: Seq<u8>) -> Seq<u8>;

/// What applying `delta` to `base` gives, or in words why it cannot be applied.
pub uninterp spec fn rsync_patched(base: Seq<u8>, delta: Seq<u8>) -> Result<Seq<u8>, Seq<char>>;

/// Whether applying `delta` to `base` gives `new`.
pub open spec fn gives(base: Seq<u8>, delta: Seq<u8>, new: Seq<u8>) -> bool {
    rsync_patched(base, delta) == Ok::<Seq<u8>, Seq<char>>(new)
}

/// The number that four bytes from `i` on write, the highest first.
pub open spec fn be32(s: Seq<u8>, i: int) -> nat {
    (s[i] * 0x100_0000 + s[i + 1] * 0x1_0000 + s[i + 2] * 0x100 + s[i + 3]) as nat
}

/// The number in front of a signature with MD4 hashes.
pub open spec fn md4_magic() -> nat {
    0x7273_0136
}

/// The number in front of a signature with BLAKE2 hashes.
pub open spec fn blake2_magic() -> nat {
    0x7273_0137
}

/// The block size that a signature's header names.
pub open spec fn block_size_in(s: Seq<u8>) -> nat {
    be32(s, 4)
}

/// The hash size that a signature's header names.
pub open spec fn hash_size_in(s: Seq<u8>) -> nat {
    be32(s, 8)
}

/// Whether bytes can be read as a signature: a known header and whole blocks.
pub open spec fn is_signature(s: Seq<u8>) -> bool {
    &&& s.len() >= 12
    &&& be32(s, 0) == md4_magic() || be32(s, 0) == blake2_magic()
    &&& (s.len() - 12) % (4 + hash_size_in(s) as int) == 0
}

/// Whether a delta can be made from a signature: only MD4 hashes will do.
pub open spec fn is_usable(s: Seq<u8>) -> bool {
    is_signature(s) && be32(s, 0) == md4_magic() && hash_size_in(s) <= 16
}

/// Whether a delta can be asked for: the header's sizes can be worked with.
pub open spec fn has_sane_sizes(s: Seq<u8>) -> bool {
    &&& s.len() >= 12 ==> hash_size_in(s) + 4 <= usize::MAX
    &&& is_usable(s) ==> block_size_in(s) > 0
}

/// How many blocks `len` bytes make.
pub open spec fn block_count(len: nat, block_size: u32) -> nat
    recommends
        block_size > 0,
{
    ((len + block_size - 1) / (block_size as int)) as nat
}

/// The `k`th block of `basis`. The last one may be short.
pub open spec fn block(basis: Seq<u8>, block_size: u32, k: int) -> Seq<u8> {
    let end = (k + 1) * block_size;
    basis.subrange(
        k * block_size,
        if end <= basis.len() {
            end
        } else {
            basis.len() as int
        },
    )
}

/// Whether no stretch of `new` is taken for a block of `basis` that it is not.
pub open spec fn matches_are_true(
    basis: Seq<u8>,
    block_size: u32,
    hash_size: u32,
    new: Seq<u8>,
) -> bool {
    forall|i: int, k: int|
        0 <= i && i + block_size <= new.len() && 0 <= k < block_count(basis.len(), block_size)
            && #[trigger] rsync_signature(
            new.subrange(i, i + block_size),
            block_size,
            hash_size,
        ) == #[trigger] rsync_signature(block(basis, block_size, k), block_size, hash_size)
            ==> new.subrange(i, i + block_size) == block(basis, block_size, k)
}

/// Whether `signature` is that of `basis`, and a delta from it to `new` can be relied on.
pub open spec fn is_faithful(signature: Seq<u8>, basis: Seq<u8>, block_size: u32, new: Seq<u8>) -> bool {
    &&& block_size > 0
    &&& basis.len() <= usize::MAX
    &&& block_count(basis.len(), block_size) <= 0x1_0000_0000
    &&& signature == rsync_signature(basis, block_size, CRYPTO_HASH_SIZE)
    &&& matches_are_true(basis, block_size, CRYPTO_HASH_SIZE, new)
}

/// `fast_rsync::Signature::calculate`, then `into_serialized`: the signature of `basis`. Its
/// header names MD4, the block size and the hash size, and an entry of four bytes and one hash
/// follows for each block. The function panics on an empty block size and on a hash size over
/// that of MD4.
#[verifier::external_body]
fn rsync_sign(basis: &[u8], block_size: u32, hash_size: u32) -> (r: Vec<u8>)
    requires
        block_size > 0,
        hash_size <= 16,
    ensures
        r@ == rsync_signature(basis@, block_size, hash_size),
        r@.len() == 12 + block_count(basis@.len(), block_size) * (4 + hash_size),
        be32(r@, 0) == md4_magic(),
        block_size_in(r@) == block_size,
        hash_size_in(r@) == hash_size,
{
    let options = SignatureOptions { block_size, crypto_hash_size: hash_size };
    fast_rsync::Signature::calculate(basis, options).into_serialized()
}

/// `fast_rsync::Signature::deserialize`, `Signature::index` and `fast_rsync::diff`: reads the
/// signature and writes the delta to `new`. Reading fails exactly on bytes that are no signature,
/// the delta exactly on a signature with other hashes than MD4 or with too long ones: writing to
/// memory does not fail. Each failure has one `Display` text. A usable signature with blocks of no
/// bytes is not worked through properly, and a hash size near the machine's limit overflows.
///
/// The delta is made of copied blocks, where the hashes of a stretch of `new` are those of a
/// block, and of stretches of `new` itself. So it gives `new` back wherever equal hashes come
/// from equal bytes. Blocks are numbered with 32 bits.
#[verifier::external_body]
fn rsync_diff(signature: Vec<u8>, new: &[u8]) -> (r: Result<Result<Vec<u8>, String>, String>)
    requires
        has_sane_sizes(signature@),
    ensures
        r is Ok <==> is_signature(signature@),
        r matches Err(t) ==> t@ == "invalid or unsupported signature"@,
        r matches Ok(d) ==> (d is Ok <==> is_usable(signature@)),
        r matches Ok(Err(t)) ==> t@ == "invalid or unsupported signature for diff"@,
        r matches Ok(Ok(d)) ==> d@ == rsync_delta(signature@, new@),
        r matches Ok(Ok(d)) ==> forall|basis: Seq<u8>, block_size: u32| #[trigger]
            is_faithful(signature@, basis, block_size, new@) ==> gives(basis, d@, new@),
{
    let parsed = fast_rsync::Signature::deserialize(signature).map_err(|e| e.to_string())?;
    let mut out = Vec::new();
    Ok(match fast_rsync::diff(&parsed.index(), new, &mut out) {
        Ok(()) => Ok(out),
        Err(e) => Err(e.to_string()),
    })
}

/// `fast_rsync::apply`: what `delta` makes of `base`, or the `Display` text of its error.
#[verifier::external_body]
fn rsync_apply(base: &[u8], delta: &[u8]) -> (r: Result<Vec<u8>, String>)
    ensures
        match r {
            Ok(v) => gives(base@, delta@, v@),
            Err(t) => rsync_patched(base@, delta@) matches Err(words) && t@ == words,
        },
{
    let mut out = Vec::new();
    match fast_rsync::apply(base, delta, &mut out) {
        Ok(()) => Ok(out),
        Err(e) => Err(e.to_string()),
    }
}

/// Whether `b` is a block size: a power of two between a kibibyte and 128 kibibytes.
pub open spec fn is_block_size(b: u32) -> bool {
    b == 1024 || b == 2048 || b == 4096 || b == 8192 || b == 16384 || b == 32768 || b == 65536 || b
        == 131072
}

/// The block size for a file of `len` bytes: the one nearest to the square root, the larger one of
/// two equally near. Half way between a block size and its double lies one and a half of it.
pub open spec fn block_size(len: nat) -> u32 {
    if len < 1536 * 1536 {
        1024
    } else if len < 3072 * 3072 {
        2048
    } else if len < 6144 * 6144 {
        4096
    } else if len < 12288 * 12288 {
        8192
    } else if len < 24576 * 24576 {
        16384
    } else if len < 49152 * 49152 {
        32768
    } else if len < 98304 * 98304 {
        65536
    } else {
        131072
    }
}

/// No block size is nearer to the square root: the root lies at or above the middle between the
/// chosen size and any smaller one, and below the middle between it and any larger one.
pub proof fn law_block_size_is_nearest(len: nat, other: u32)
    requires
        is_block_size(other),
    ensures
        is_block_size(block_size(len)),
        other < block_size(len) ==> 4 * len >= (block_size(len) + other) * (block_size(len)
            + other),
        other > block_size(len) ==> 4 * len < (block_size(len) + other) * (block_size(len)
            + other),
{
    let b = block_size(len);
    let m = b + other;
    if other < b {
        let half = 3 * (b / 2);
        assert(m * m <= half * half) by (nonlinear_arith)
            requires
                0 <= m <= half,
        ;
        lemma_squares(b / 2);
    } else if other > b {
        let whole = 3 * b;
        assert(m * m >= whole * whole) by (nonlinear_arith)
            requires
                0 <= whole <= m,
        ;
        lemma_squares(b);
    }
}

proof fn lemma_squares(b: u32)
    by (nonlinear_arith)
    ensures
        b == 1024 ==> (3 * b) * (3 * b) == 4 * 2_359_296,
        b == 2048 ==> (3 * b) * (3 * b) == 4 * 9_437_184,
        b == 4096 ==> (3 * b) * (3 * b) == 4 * 37_748_736,
        b == 8192 ==> (3 * b) * (3 * b) == 4 * 150_994_944,
        b == 16384 ==> (3 * b) * (3 * b) == 4 * 603_979_776,
        b == 32768 ==> (3 * b) * (3 * b) == 4 * 2_415_919_104,
        b == 65536 ==> (3 * b) * (3 * b) == 4 * 9_663_676_416,
        b == 131072 ==> (3 * b) * (3 * b) == 4 * 38_654_705_664,
{
}

/// The block size for a file of `file_len` bytes.
pub fn block_size_for(file_len: u64) -> (r: u32)
    ensures
        r == block_size(file_len as nat),
{
    let mut r: u32 = 1024;
    let mut limit: u64 = 1536 * 1536;
    while r < 131072 && file_len >= limit
        invariant
            is_block_size(r),
            4 * limit == (3 * r) * (3 * r),
            limit <= 38_654_705_664,
            block_size(file_len as nat) >= r,
        decreases 131072 - r,
    {
        proof {
            lemma_squares(r);
            lemma_squares((r * 2) as u32);
        }
        r = r * 2;
        limit = limit * 4;
    }
    proof {
        lemma_squares(r);
    }
    r
}

/// The signature of `basis`, with blocks that suit its length.
pub fn signature(basis: &[u8]) -> (r: Result<Signature, DsyncError>)
    ensures
        r matches Ok(s) && s.0@ == rsync_signature(
            basis@,
            block_size(basis@.len()),
            CRYPTO_HASH_SIZE,
        ) && is_usable(s.0@) && has_sane_sizes(s.0@) && block_size_in(s.0@) == block_size(
            basis@.len(),
        ),
{
    let size = block_size_for(basis.len() as u64);
    let bytes = rsync_sign(basis, size, CRYPTO_HASH_SIZE);
    proof {
        let n = block_count(basis@.len(), size);
        assert((n * 12) % 12 == 0) by (nonlinear_arith);
        assert(bytes@.len() - 12 == n * 12);
    }
    Ok(Signature(bytes))
}

/// The four bytes from `i` on as a number.
fn read_be32(s: &Vec<u8>, i: usize) -> (r: u32)
    requires
        i + 4 <= s@.len(),
    ensures
        r == be32(s@, i as int),
{
    assert(i + 4 <= s.len());
    (s[i] as u32) * 0x100_0000 + (s[i + 1] as u32) * 0x1_0000 + (s[i + 2] as u32) * 0x100 + (s[i
        + 3] as u32)
}

/// Whether a delta can be asked for with this signature.
pub fn sizes_are_sane(sig: &Signature) -> (r: bool)
    ensures
        r == has_sane_sizes(sig.0@),
{
    let s = &sig.0;
    if s.len() < 12 {
        return true;
    }
    let hash = read_be32(s, 8);
    if hash as u64 + 4 > usize::MAX as u64 {
        return false;
    }
    if read_be32(s, 4) > 0 {
        return true;
    }
    !(read_be32(s, 0) == 0x7273_0136 && (s.len() - 12) % (4 + hash as usize) == 0 && hash <= 16)
}

/// The delta that turns the file with signature `sig` into `new_data`. Where no stretch of
/// `new_data` is mistaken for a block of that file, applying the delta to the file gives
/// `new_data`.
pub fn diff(sig: &Signature, new_data: &[u8]) -> (r: Result<Delta, DsyncError>)
    requires
        has_sane_sizes(sig.0@),
    ensures
        r is Ok <==> is_usable(sig.0@),
        match r {
            Ok(d) => {
                &&& d.0@ == rsync_delta(sig.0@, new_data@)
                &&& forall|basis: Seq<u8>, size: u32| #[trigger]
                    is_faithful(sig.0@, basis, size, new_data@) ==> gives(
                        basis,
                        d.0@,
                        new_data@,
                    )
            },
            Err(e) => if is_signature(sig.0@) {
                e@ == ErrorView::Other(
                    "delta diff failed: "@ + "invalid or unsupported signature for diff"@,
                )
            } else {
                e@ == ErrorView::Other(
                    "invalid signature: "@ + "invalid or unsupported signature"@,
                )
            },
        },
{
    match rsync_diff(sig.0.clone(), new_data) {
        Err(reason) => Err(DsyncError::Other(glue("invalid signature: ", reason.as_str()))),
        Ok(Err(reason)) => Err(DsyncError::Other(glue("delta diff failed: ", reason.as_str()))),
        Ok(Ok(bytes)) => Ok(Delta(bytes)),
    }
}

/// What `delta` makes of `basis`.
pub fn apply(basis: &[u8], delta: &Delta) -> (r: Result<Vec<u8>, DsyncError>)
    ensures
        match (rsync_patched(basis@, delta.0@), r) {
            (Ok(new), Ok(v)) => v@ == new,
            (Err(reason), Err(e)) => e@ == ErrorView::Other("delta apply failed: "@ + reason),
            _ => false,
        },
{
    match rsync_apply(basis, delta.0.as_slice()) {
        Ok(bytes) => Ok(bytes),
        Err(reason) => Err(DsyncError::Other(glue("delta apply failed: ", reason.as_str()))),
    }
}

/// A signature that a delta could be made from is refused only for blocks of no size or hashes too
/// long to count.
pub proof fn law_blocks_must_have_a_size(s: Seq<u8>)
    ensures
        is_usable(s) && s[4] == 0 && s[5] == 0 && s[6] == 0 && s[7] == 0 ==> !has_sane_sizes(s),
        s.len() < 12 ==> has_sane_sizes(s),
        (s[4] > 0 || s[5] > 0 || s[6] > 0 || s[7] > 0) && be32(s, 8) + 4 <= usize::MAX
            ==> has_sane_sizes(s),
        is_usable(s) ==> s[0] == 0x72 && s[1] == 0x73 && s[2] == 0x01 && s[3] == 0x36,
{
}

} // verus!
