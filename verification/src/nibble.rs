//! Nibble paths: the trie addresses keys by their 4-bit nibble
//! decomposition, most-significant nibble of each byte first.
use vstd::prelude::*;

verus! {

/// The nibble decomposition of a byte key: each byte expands to two
/// nibbles, most-significant first.
pub open spec fn nibbles_of(key: Seq<u8>) -> Seq<u8> {
    Seq::new(
        2 * key.len(),
        |i: int| if i % 2 == 0 { (key[i / 2] >> 4u8) as u8 } else { (key[i / 2] & 0x0fu8) as u8 },
    )
}

/// Every element of a nibble path is below 16.
pub open spec fn valid_path(p: Seq<u8>) -> bool {
    forall|i: int| 0 <= i < p.len() ==> p[i] < 16
}

proof fn lemma_nibble_bounds(b: u8)
    ensures
        (b >> 4u8) < 16,
        (b & 0x0fu8) < 16,
{
    assert((b >> 4u8) < 16 && (b & 0x0fu8) < 16) by (bit_vector);
}

/// A nibble decomposition only holds values below 16.
pub proof fn lemma_nibbles_valid(key: Seq<u8>)
    ensures
        valid_path(nibbles_of(key)),
{
    assert forall|i: int| 0 <= i < nibbles_of(key).len() implies nibbles_of(key)[i] < 16 by {
        lemma_nibble_bounds(key[i / 2]);
    }
}

proof fn lemma_byte_from_nibbles(x: u8, y: u8)
    ensures
        ((x >> 4u8) == (y >> 4u8) && (x & 0x0fu8) == (y & 0x0fu8)) ==> x == y,
{
    assert(((x >> 4u8) == (y >> 4u8) && (x & 0x0fu8) == (y & 0x0fu8)) ==> x == y) by (bit_vector);
}

/// Distinct byte keys have distinct nibble paths.
pub proof fn lemma_nibbles_injective(a: Seq<u8>, b: Seq<u8>)
    requires
        nibbles_of(a) == nibbles_of(b),
    ensures
        a == b,
{
    assert(nibbles_of(a).len() == 2 * a.len());
    assert(nibbles_of(b).len() == 2 * b.len());
    assert(a.len() == b.len());
    assert forall|i: int| 0 <= i < a.len() implies a[i] == b[i] by {
        assert((2 * i) % 2 == 0 && (2 * i) / 2 == i);
        assert((2 * i + 1) % 2 == 1 && (2 * i + 1) / 2 == i);
        assert(nibbles_of(a)[2 * i] == (a[i] >> 4u8));
        assert(nibbles_of(b)[2 * i] == (b[i] >> 4u8));
        assert(nibbles_of(a)[2 * i + 1] == (a[i] & 0x0fu8));
        assert(nibbles_of(b)[2 * i + 1] == (b[i] & 0x0fu8));
        assert((a[i] >> 4u8) == (b[i] >> 4u8));
        assert((a[i] & 0x0fu8) == (b[i] & 0x0fu8));
        lemma_byte_from_nibbles(a[i], b[i]);
    }
    assert(a =~= b);
}

/// Distinct byte keys have distinct nibble paths, stated the other way
/// round.
pub proof fn lemma_nibbles_injective_contra(a: Seq<u8>, b: Seq<u8>)
    requires
        a != b,
    ensures
        nibbles_of(a) != nibbles_of(b),
{
    if nibbles_of(a) == nibbles_of(b) {
        lemma_nibbles_injective(a, b);
    }
}

/// Expands a byte key into its nibble path.
pub fn bytes_to_nibbles(key: &[u8]) -> (r: Vec<u8>)
    ensures
        r@ == nibbles_of(key@),
        valid_path(r@),
{
    let mut out: Vec<u8> = Vec::new();
    let mut i: usize = 0;
    while i < key.len()
        invariant
            i <= key@.len(),
            out@ == nibbles_of(key@).take(2 * i as int),
        decreases key@.len() - i,
    {
        out.push(key[i] >> 4u8);
        out.push(key[i] & 0x0fu8);
        i = i + 1;
        proof {
            assert(out@ =~= nibbles_of(key@).take(2 * i as int));
        }
    }
    proof {
        assert(out@ =~= nibbles_of(key@));
        lemma_nibbles_valid(key@);
    }
    out
}

/// The length of the longest common prefix of two nibble paths.
pub fn common_prefix_len(a: &[u8], b: &[u8]) -> (r: usize)
    ensures
        r <= a@.len() && r <= b@.len(),
        forall|j: int| 0 <= j < r ==> a@[j] == b@[j],
        a@.take(r as int) == b@.take(r as int),
        r < a@.len() && r < b@.len() ==> a@[r as int] != b@[r as int],
{
    let n: usize = if a.len() < b.len() { a.len() } else { b.len() };
    let mut i: usize = 0;
    while i < n && a[i] == b[i]
        invariant
            n <= a@.len() && n <= b@.len(),
            i <= n,
            forall|j: int| 0 <= j < i ==> a@[j] == b@[j],
        decreases n - i,
    {
        i = i + 1;
    }
    proof {
        assert(a@.take(i as int) =~= b@.take(i as int));
        if i < a@.len() && i < b@.len() {
            assert(i < n);
        }
    }
    i
}

/// Splits a nibble path at a point into prefix and suffix.
pub fn split(path: &[u8], at: usize) -> (r: (Vec<u8>, Vec<u8>))
    requires
        at <= path@.len(),
    ensures
        r.0@ == path@.take(at as int),
        r.1@ == path@.skip(at as int),
{
    let prefix = vstd::slice::slice_to_vec(vstd::slice::slice_subrange(path, 0, at));
    let suffix = vstd::slice::slice_to_vec(vstd::slice::slice_subrange(path, at, path.len()));
    proof {
        assert(prefix@ =~= path@.take(at as int));
        assert(suffix@ =~= path@.skip(at as int));
    }
    (prefix, suffix)
}

/// Whether two byte slices hold the same bytes.
pub fn slice_eq(a: &[u8], b: &[u8]) -> (r: bool)
    ensures
        r == (a@ == b@),
{
    if a.len() != b.len() {
        proof {
            assert(a@.len() != b@.len());
        }
        return false;
    }
    let mut i: usize = 0;
    while i < a.len()
        invariant
            a@.len() == b@.len(),
            i <= a@.len(),
            forall|j: int| 0 <= j < i ==> a@[j] == b@[j],
        decreases a@.len() - i,
    {
        if a[i] != b[i] {
            proof {
                assert(a@[i as int] != b@[i as int]);
            }
            return false;
        }
        i = i + 1;
    }
    proof {
        assert(a@ =~= b@);
    }
    true
}

} // verus!
