use vstd::prelude::*;
use vstd::string::StrSliceExecFns;

verus! {

/// Offset basis of the 64-bit FNV-1a hash.
pub const FNV_OFFSET_BASIS: u64 = 0xcbf2_9ce4_8422_2325;

/// Multiplier of the 64-bit FNV-1a hash.
pub const FNV_PRIME: u64 = 0x0000_0100_0000_01b3;

/// One FNV-1a round: fold one character into the running hash.
pub open spec fn fnv_step(h: u64, c: char) -> u64 {
    (h ^ (c as u64)).wrapping_mul(FNV_PRIME)
}

/// The 64-bit FNV-1a hash of a character sequence. This fixed, stable
/// function is the library's content-addressed vertex identity: equal
/// content always yields the same value, on every run.
pub open spec fn fnv_hash(s: Seq<char>) -> u64
    decreases s.len(),
{
    if s.len() == 0 {
        FNV_OFFSET_BASIS
    } else {
        fnv_step(fnv_hash(s.drop_last()), s.last())
    }
}

/// Computes the FNV-1a hash of a string, character by character.
pub fn hash_str(s: &str) -> (h: u64)
    ensures
        h == fnv_hash(s@),
{
    let n = s.unicode_len();
    let mut h: u64 = FNV_OFFSET_BASIS;
    let mut i: usize = 0;
    while i < n
        invariant
            i <= n,
            n == s@.len(),
            h == fnv_hash(s@.subrange(0, i as int)),
        decreases n - i,
    {
        let c = s.get_char(i);
        h = (h ^ (c as u64)).wrapping_mul(FNV_PRIME);
        i = i + 1;
        proof {
            let prefix = s@.subrange(0, i as int);
            assert(prefix.drop_last() =~= s@.subrange(0, i - 1));
        }
    }
    proof {
        assert(s@.subrange(0, n as int) =~= s@);
    }
    h
}

/// Vertex identity is a pure function of content: equal character
/// sequences always derive the same identifier.
pub proof fn lemma_identity_deterministic(a: Seq<char>, b: Seq<char>)
    requires
        a == b,
    ensures
        fnv_hash(a) == fnv_hash(b),
{
}

} // verus!
