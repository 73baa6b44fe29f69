use std::hash::Hasher;
use vstd::prelude::*;

verus! {

/// The streaming hasher that names are fed into, one 64-bit word at a time.
#[verifier::external_type_specification]
#[verifier::external_body]
pub struct ExAHasher(ahash::AHasher);

/// The words written into a hasher since it was created.
pub uninterp spec fn written(h: ahash::AHasher) -> Seq<u64>;

/// The value that a hasher created with fixed keys yields once the given words
/// have been written into it.
pub uninterp spec fn words_hash(words: Seq<u64>) -> u64;

/// 256 to the power `k`.
pub open spec fn pow256(k: nat) -> nat
    decreases k,
{
    if k == 0 {
        1
    } else {
        256 * pow256((k - 1) as nat)
    }
}

/// The bytes of `s` read as a little-endian number.
pub open spec fn pack(s: Seq<u8>) -> nat
    decreases s.len(),
{
    if s.len() == 0 {
        0
    } else {
        pack(s.drop_last()) + (s.last() as nat) * pow256((s.len() - 1) as nat)
    }
}

/// The words a name is hashed as: each full block of eight bytes, then the
/// remaining bytes (if any) zero-padded to a word.
pub open spec fn words_of(s: Seq<u8>) -> Seq<u64>
    decreases s.len(),
{
    if s.len() == 0 {
        Seq::empty()
    } else if s.len() <= 8 {
        seq![pack(s) as u64]
    } else {
        seq![pack(s.subrange(0, 8)) as u64] + words_of(s.subrange(8, s.len() as int))
    }
}

/// The hash of a name: its words fed into a fresh hasher.
pub open spec fn name_hash(s: Seq<u8>) -> u64 {
    words_hash(words_of(s))
}

pub proof fn lemma_pack_bound(s: Seq<u8>)
    ensures
        pack(s) < pow256(s.len()),
    decreases s.len(),
{
    if s.len() > 0 {
        let n = (s.len() - 1) as nat;
        lemma_pack_bound(s.drop_last());
        let p = pack(s.drop_last());
        let w = pow256(n);
        let b = s.last() as nat;
        assert(b <= 255);
        assert(p + b * w < 256 * w) by (nonlinear_arith)
            requires
                p < w,
                b <= 255,
        ;
    }
}

pub proof fn lemma_pow256_mono(a: nat, b: nat)
    requires
        a <= b,
    ensures
        pow256(a) <= pow256(b),
    decreases b,
{
    if a < b {
        lemma_pow256_mono(a, (b - 1) as nat);
    }
}

pub proof fn lemma_pow256_8()
    ensures
        pow256(7) == 0x100_0000_0000_0000nat,
        pow256(8) == 0x1_0000_0000_0000_0000nat,
{
    reveal_with_fuel(pow256, 9);
}

/// Relies on `AHasher::default`: a hasher with fixed keys into which nothing
/// has been written yet.
#[verifier::external_body]
pub(crate) fn new_hasher() -> (r: ahash::AHasher)
    ensures
        written(r) == Seq::<u64>::empty(),
{
    ahash::AHasher::default()
}

/// Relies on `AHasher::write_u64`: the word is appended to what the hasher has
/// taken in.
#[verifier::external_body]
pub(crate) fn write_word(h: &mut ahash::AHasher, w: u64)
    ensures
        written(*final(h)) == written(*old(h)).push(w),
{
    h.write_u64(w)
}

/// Relies on `AHasher::finish`: with fixed keys the result depends on the words
/// written alone, and finishing does not change the hasher.
#[verifier::external_body]
pub(crate) fn finish_words(h: &ahash::AHasher) -> (r: u64)
    ensures
        r == words_hash(written(*h)),
{
    h.finish()
}

} // verus!
