//! Small verified helpers over byte strings and chunk-identifier lists.

use vstd::prelude::*;

verus! {

/// The views of every element of a list of byte strings.
pub open spec fn views_of(s: Seq<Vec<u8>>) -> Seq<Seq<u8>> {
    s.map_values(|v: Vec<u8>| v@)
}

/// Byte-for-byte equality of two byte strings.
pub fn bytes_eq(a: &Vec<u8>, b: &Vec<u8>) -> (r: bool)
    ensures
        r == (a@ == b@),
{
    if a.len() != b.len() {
        return false;
    }
    let n = a.len();
    let mut i: usize = 0;
    while i < n
        invariant
            n == a@.len() == b@.len(),
            i <= n,
            forall|k: int| 0 <= k < i ==> a@[k] == b@[k],
        decreases n - i,
    {
        if a[i] != b[i] {
            return false;
        }
        i = i + 1;
    }
    proof {
        assert(a@ =~= b@);
    }
    true
}

/// A fresh copy of the bytes of `a` between `from` and `to`.
pub fn copy_range(a: &Vec<u8>, from: usize, to: usize) -> (r: Vec<u8>)
    requires
        from <= to <= a@.len(),
    ensures
        r@ == a@.subrange(from as int, to as int),
{
    let mut out: Vec<u8> = Vec::new();
    let mut i: usize = from;
    while i < to
        invariant
            from <= i <= to <= a@.len(),
            out@ == a@.subrange(from as int, i as int),
        decreases to - i,
    {
        out.push(a[i]);
        proof {
            assert(out@ =~= a@.subrange(from as int, i + 1));
        }
        i = i + 1;
    }
    out
}

/// A fresh copy of a byte string.
pub fn copy_bytes(a: &Vec<u8>) -> (r: Vec<u8>)
    ensures
        r@ == a@,
{
    let out = copy_range(a, 0, a.len());
    proof {
        assert(a@.subrange(0, a@.len() as int) =~= a@);
    }
    out
}

/// Whether a chunk-identifier list holds `x`.
pub fn contains_u64(list: &Vec<u64>, x: u64) -> (r: bool)
    ensures
        r == list@.contains(x),
{
    let n = list.len();
    let mut i: usize = 0;
    while i < n
        invariant
            n == list@.len(),
            i <= n,
            forall|k: int| 0 <= k < i ==> list@[k] != x,
        decreases n - i,
    {
        if list[i] == x {
            return true;
        }
        i = i + 1;
    }
    false
}

/// A fresh copy of a chunk-identifier list.
pub fn copy_u64s(a: &Vec<u64>) -> (r: Vec<u64>)
    ensures
        r@ == a@,
{
    let mut out: Vec<u64> = Vec::new();
    let n = a.len();
    let mut i: usize = 0;
    while i < n
        invariant
            n == a@.len(),
            i <= n,
            out@ == a@.subrange(0, i as int),
        decreases n - i,
    {
        out.push(a[i]);
        proof {
            assert(out@ =~= a@.subrange(0, i + 1));
        }
        i = i + 1;
    }
    proof {
        assert(out@ =~= a@);
    }
    out
}

} // verus!
