//! Small byte-buffer helpers shared by the segment framer and the IPTC
//! sub-codec.

use vstd::prelude::*;

verus! {

/// Copies `b[from..to]` into a fresh vector.
pub fn copy_range(b: &[u8], from: usize, to: usize) -> (v: Vec<u8>)
    requires
        from <= to <= b@.len(),
    ensures
        v@ == b@.subrange(from as int, to as int),
{
    let mut v: Vec<u8> = Vec::new();
    let mut i: usize = from;
    while i < to
        invariant
            from <= i <= to <= b@.len(),
            v@ == b@.subrange(from as int, i as int),
        decreases to - i,
    {
        v.push(b[i]);
        i = i + 1;
        assert(v@ =~= b@.subrange(from as int, i as int));
    }
    v
}

/// The position of the first occurrence of `x` at or after `from`, or the
/// length of the buffer when none follows.
pub open spec fn spec_find_byte(b: Seq<u8>, from: int, x: u8) -> int
    decreases b.len() - from,
{
    if from < 0 || from >= b.len() {
        b.len() as int
    } else if b[from] == x {
        from
    } else {
        spec_find_byte(b, from + 1, x)
    }
}

/// Where the first occurrence lies and what stands before it.
pub proof fn lemma_find_byte(b: Seq<u8>, from: int, x: u8)
    requires
        0 <= from <= b.len(),
    ensures
        from <= spec_find_byte(b, from, x) <= b.len(),
        forall|j: int| from <= j < spec_find_byte(b, from, x) ==> b[j] != x,
        spec_find_byte(b, from, x) < b.len() ==> b[spec_find_byte(b, from, x)] == x,
    decreases b.len() - from,
{
    if from < b.len() && b[from] != x {
        lemma_find_byte(b, from + 1, x);
    }
}

/// An occurrence at `z`, with none between `from` and `z`, is the first
/// occurrence found from `from`.
pub proof fn lemma_find_byte_at(b: Seq<u8>, from: int, z: int, x: u8)
    requires
        0 <= from <= z <= b.len(),
        forall|j: int| from <= j < z ==> b[j] != x,
        z < b.len() ==> b[z] == x,
    ensures
        spec_find_byte(b, from, x) == if z < b.len() {
            z
        } else {
            b.len() as int
        },
    decreases z - from,
{
    if from < z {
        lemma_find_byte_at(b, from + 1, z, x);
    }
}

/// Finds the first occurrence of `x` at or after `from`.
pub fn find_byte(b: &[u8], from: usize, x: u8) -> (r: usize)
    requires
        from <= b@.len(),
    ensures
        r == spec_find_byte(b@, from as int, x),
        from <= r <= b@.len(),
{
    proof {
        lemma_find_byte(b@, from as int, x);
    }
    let mut i: usize = from;
    while i < b.len()
        invariant
            from <= i <= b@.len(),
            spec_find_byte(b@, from as int, x) == spec_find_byte(b@, i as int, x),
        decreases b@.len() - i,
    {
        if b[i] == x {
            return i;
        }
        i = i + 1;
    }
    i
}

/// The position of the first zero byte at or after `from`, or the length of
/// the buffer when no zero byte follows.
pub open spec fn spec_find_zero(b: Seq<u8>, from: int) -> int {
    spec_find_byte(b, from, 0)
}

/// A zero byte at `z`, with no zero byte between `from` and `z`, is the
/// first zero byte found from `from`.
pub proof fn lemma_find_zero_at(b: Seq<u8>, from: int, z: int)
    requires
        0 <= from <= z <= b.len(),
        forall|j: int| from <= j < z ==> b[j] != 0,
        z < b.len() ==> b[z] == 0,
    ensures
        spec_find_zero(b, from) == if z < b.len() {
            z
        } else {
            b.len() as int
        },
{
    lemma_find_byte_at(b, from, z, 0);
}

/// Finds the first zero byte at or after `from`.
pub fn find_zero(b: &[u8], from: usize) -> (r: usize)
    requires
        from <= b@.len(),
    ensures
        r == spec_find_zero(b@, from as int),
        from <= r <= b@.len(),
{
    find_byte(b, from, 0)
}

/// Compares two byte strings for equality.
pub fn bytes_eq(a: &[u8], b: &[u8]) -> (r: bool)
    ensures
        r == (a@ == b@),
{
    if a.len() != b.len() {
        assert(a@.len() != b@.len());
        return false;
    }
    let mut i: usize = 0;
    while i < a.len()
        invariant
            0 <= i <= a@.len(),
            a@.len() == b@.len(),
            forall|j: int| 0 <= j < i ==> a@[j] == b@[j],
        decreases a@.len() - i,
    {
        if a[i] != b[i] {
            return false;
        }
        i = i + 1;
    }
    proof {
        assert(a@ =~= b@);
    }
    true
}

} // verus!
