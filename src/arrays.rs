use vstd::prelude::*;

verus! {

/// The array whose bytes are `s`.
pub open spec fn array_of<const N: usize>(s: Seq<u8>) -> [u8; N] {
    choose|a: [u8; N]| a@ == s
}

/// An array is the array of its own bytes.
pub proof fn lemma_array_of<const N: usize>(a: [u8; N])
    ensures
        array_of::<N>(a@) == a,
{
    let b = array_of::<N>(a@);
    assert(b@ == a@);
    assert(b =~= a);
}

/// The bytes at `at`, as an array.
pub fn read_array<const N: usize>(f: &[u8], at: usize) -> (r: [u8; N])
    requires
        at + N <= f@.len(),
    ensures
        r@ == f@.subrange(at as int, at + N),
        r == array_of::<N>(f@.subrange(at as int, at + N)),
{
    let len: usize = f.len();
    let mut r = [0u8; N];
    let mut i: usize = 0;
    while i < N
        invariant
            0 <= i <= N,
            len == f@.len(),
            at + N <= len,
            forall|j: int| 0 <= j < i ==> r[j] == f@[at + j],
        decreases N - i,
    {
        r[i] = f[at + i];
        i += 1;
    }
    assert(r@ =~= f@.subrange(at as int, at + N));
    proof {
        lemma_array_of(r);
    }
    r
}

} // verus!
