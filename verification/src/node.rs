//! Trie nodes and their canonical encoding. A node is a leaf (remaining
//! nibble suffix plus inline value), an extension (shared nibble prefix plus
//! one child digest), or a branch (sixteen child slots indexed by the next
//! nibble, plus an optional value for the key ending here). The encoding is
//! deterministic, with a fixed variant tag and length-prefixed fields, so
//! that it is injective: one byte sequence encodes at most one node.
use vstd::prelude::*;

verus! {

/// A trie node as the specifications see it: paths are nibble sequences,
/// children are referenced by the digest of their encoding.
pub enum FNode {
    Leaf { path: Seq<u8>, value: Seq<u8> },
    Extension { path: Seq<u8>, child: Seq<u8> },
    Branch { slots: Seq<Option<Seq<u8>>>, value: Option<Seq<u8>> },
}

/// A trie node. `path` holds nibbles; `child` and the branch slots hold
/// digests of child encodings.
pub enum Node {
    Leaf { path: Vec<u8>, value: Vec<u8> },
    Extension { path: Vec<u8>, child: Vec<u8> },
    Branch { slots: Vec<Option<Vec<u8>>>, value: Option<Vec<u8>> },
}

impl View for Node {
    type V = FNode;

    open spec fn view(&self) -> FNode {
        match self {
            Node::Leaf { path, value } => FNode::Leaf { path: path@, value: value@ },
            Node::Extension { path, child } => FNode::Extension { path: path@, child: child@ },
            Node::Branch { slots, value } => FNode::Branch {
                slots: slots.deep_view(),
                value: value.deep_view(),
            },
        }
    }
}

/// A structurally sound node: a branch has exactly sixteen slots, and every
/// field is small enough for its length to be written in eight bytes.
pub open spec fn node_wf(f: FNode) -> bool {
    match f {
        FNode::Leaf { path, value } => path.len() <= u64::MAX && value.len() <= u64::MAX,
        FNode::Extension { path, child } => path.len() <= u64::MAX && child.len() <= u64::MAX,
        FNode::Branch { slots, value } => {
            &&& slots.len() == 16
            &&& forall|i: int|
                0 <= i < 16 ==> (#[trigger] slots[i] matches Some(d) ==> d.len() <= u64::MAX)
            &&& (value matches Some(v) ==> v.len() <= u64::MAX)
        },
    }
}

/// The eight little-endian bytes of a length.
pub open spec fn len8(n: u64) -> Seq<u8> {
    seq![
        (n & 0xff) as u8,
        ((n >> 8u64) & 0xff) as u8,
        ((n >> 16u64) & 0xff) as u8,
        ((n >> 24u64) & 0xff) as u8,
        ((n >> 32u64) & 0xff) as u8,
        ((n >> 40u64) & 0xff) as u8,
        ((n >> 48u64) & 0xff) as u8,
        ((n >> 56u64) & 0xff) as u8,
    ]
}

/// A length-prefixed byte field.
pub open spec fn enc_bytes(b: Seq<u8>) -> Seq<u8> {
    len8(b.len() as u64) + b
}

/// An optional byte field: absence marker, or presence marker plus field.
pub open spec fn enc_opt(v: Option<Seq<u8>>) -> Seq<u8> {
    match v {
        None => seq![0u8],
        Some(b) => seq![1u8] + enc_bytes(b),
    }
}

/// The encodings of branch slots `i` to 15, concatenated.
pub open spec fn enc_slots(slots: Seq<Option<Seq<u8>>>, i: int) -> Seq<u8>
    decreases 16 - i,
{
    if i >= 16 {
        Seq::empty()
    } else {
        enc_opt(slots[i]) + enc_slots(slots, i + 1)
    }
}

/// The encodings of branch slots 0 to `i - 1`, concatenated.
pub open spec fn enc_upto(slots: Seq<Option<Seq<u8>>>, i: int) -> Seq<u8>
    decreases i,
{
    if i <= 0 {
        Seq::empty()
    } else {
        enc_upto(slots, i - 1) + enc_opt(slots[i - 1])
    }
}

/// The canonical encoding of a node.
pub open spec fn spec_enc(f: FNode) -> Seq<u8> {
    match f {
        FNode::Leaf { path, value } => seq![0u8] + enc_bytes(path) + enc_bytes(value),
        FNode::Extension { path, child } => seq![1u8] + enc_bytes(path) + enc_bytes(child),
        FNode::Branch { slots, value } => seq![2u8] + enc_slots(slots, 0) + enc_opt(value),
    }
}

pub proof fn lemma_enc_upto_full(slots: Seq<Option<Seq<u8>>>, i: int)
    requires
        0 <= i <= 16,
    ensures
        enc_slots(slots, 0) == enc_upto(slots, i) + enc_slots(slots, i),
    decreases i,
{
    if i == 0 {
        assert(enc_slots(slots, 0) =~= enc_upto(slots, 0) + enc_slots(slots, 0));
    } else {
        lemma_enc_upto_full(slots, i - 1);
        assert(enc_slots(slots, i - 1) == enc_opt(slots[i - 1]) + enc_slots(slots, i));
        assert(enc_upto(slots, i - 1) + (enc_opt(slots[i - 1]) + enc_slots(slots, i)) =~= (
        enc_upto(slots, i - 1) + enc_opt(slots[i - 1])) + enc_slots(slots, i));
    }
}

proof fn lemma_len8_inj(m: u64, n: u64)
    requires
        len8(m) == len8(n),
    ensures
        m == n,
{
    assert(len8(m)[0] == len8(n)[0]);
    assert(len8(m)[1] == len8(n)[1]);
    assert(len8(m)[2] == len8(n)[2]);
    assert(len8(m)[3] == len8(n)[3]);
    assert(len8(m)[4] == len8(n)[4]);
    assert(len8(m)[5] == len8(n)[5]);
    assert(len8(m)[6] == len8(n)[6]);
    assert(len8(m)[7] == len8(n)[7]);
    assert((((m & 0xff) as u8) == ((n & 0xff) as u8) && (((m >> 8u64) & 0xff) as u8) == (((n
        >> 8u64) & 0xff) as u8) && (((m >> 16u64) & 0xff) as u8) == (((n >> 16u64) & 0xff) as u8)
        && (((m >> 24u64) & 0xff) as u8) == (((n >> 24u64) & 0xff) as u8) && (((m >> 32u64) & 0xff)
        as u8) == (((n >> 32u64) & 0xff) as u8) && (((m >> 40u64) & 0xff) as u8) == (((n >> 40u64)
        & 0xff) as u8) && (((m >> 48u64) & 0xff) as u8) == (((n >> 48u64) & 0xff) as u8) && (((m
        >> 56u64) & 0xff) as u8) == (((n >> 56u64) & 0xff) as u8)) ==> m == n) by (bit_vector);
}

/// Splitting a concatenation at the length of its first part recovers the
/// parts.
pub proof fn lemma_concat_split(a: Seq<u8>, b: Seq<u8>, c: Seq<u8>, d: Seq<u8>)
    requires
        a + b == c + d,
        a.len() == c.len(),
    ensures
        a == c,
        b == d,
{
    assert forall|i: int| 0 <= i < a.len() implies a[i] == c[i] by {
        assert((a + b)[i] == a[i]);
        assert((c + d)[i] == c[i]);
    }
    assert((a + b).len() == a.len() + b.len());
    assert((c + d).len() == c.len() + d.len());
    assert((a + b).len() == (c + d).len());
    assert(b.len() == d.len());
    assert forall|i: int| 0 <= i < b.len() implies b[i] == d[i] by {
        assert((a + b)[a.len() + i] == b[i]);
        assert((c + d)[c.len() + i] == d[i]);
    }
    assert(a =~= c);
    assert(b =~= d);
}

/// A length-prefixed field determines itself and whatever follows it.
pub proof fn lemma_enc_bytes_prefix(a: Seq<u8>, r: Seq<u8>, b: Seq<u8>, s: Seq<u8>)
    requires
        a.len() <= u64::MAX,
        b.len() <= u64::MAX,
        enc_bytes(a) + r == enc_bytes(b) + s,
    ensures
        a == b,
        r == s,
{
    assert(enc_bytes(a) + r =~= len8(a.len() as u64) + (a + r));
    assert(enc_bytes(b) + s =~= len8(b.len() as u64) + (b + s));
    lemma_concat_split(len8(a.len() as u64), a + r, len8(b.len() as u64), b + s);
    lemma_len8_inj(a.len() as u64, b.len() as u64);
    assert(a.len() == b.len());
    lemma_concat_split(a, r, b, s);
}

/// The first byte of an encoding names its variant.
proof fn lemma_tag(f: FNode)
    ensures
        spec_enc(f).len() >= 1,
        f is Leaf ==> spec_enc(f)[0] == 0u8,
        f is Extension ==> spec_enc(f)[0] == 1u8,
        f is Branch ==> spec_enc(f)[0] == 2u8,
{
    match f {
        FNode::Leaf { path, value } => {
            assert(spec_enc(f)[0] == (seq![0u8] + enc_bytes(path))[0]);
            assert((seq![0u8] + enc_bytes(path))[0] == 0u8);
        },
        FNode::Extension { path, child } => {
            assert(spec_enc(f)[0] == (seq![1u8] + enc_bytes(path))[0]);
            assert((seq![1u8] + enc_bytes(path))[0] == 1u8);
        },
        FNode::Branch { slots, value } => {
            assert(spec_enc(f)[0] == (seq![2u8] + enc_slots(slots, 0))[0]);
            assert((seq![2u8] + enc_slots(slots, 0))[0] == 2u8);
        },
    }
}

proof fn lemma_enc_opt_prefix(v: Option<Seq<u8>>, r: Seq<u8>, w: Option<Seq<u8>>, s: Seq<u8>)
    requires
        (v matches Some(b) ==> b.len() <= u64::MAX),
        (w matches Some(b) ==> b.len() <= u64::MAX),
        enc_opt(v) + r == enc_opt(w) + s,
    ensures
        v == w,
        r == s,
{
    assert((enc_opt(v) + r)[0] == (enc_opt(w) + s)[0]);
    match (v, w) {
        (None, None) => {
            lemma_concat_split(enc_opt(v), r, enc_opt(w), s);
        },
        (Some(a), Some(b)) => {
            assert(enc_opt(v) + r =~= seq![1u8] + (enc_bytes(a) + r));
            assert(enc_opt(w) + s =~= seq![1u8] + (enc_bytes(b) + s));
            lemma_concat_split(seq![1u8], enc_bytes(a) + r, seq![1u8], enc_bytes(b) + s);
            lemma_enc_bytes_prefix(a, r, b, s);
        },
        (None, Some(b)) => {
            assert((enc_opt(v) + r)[0] == enc_opt(v)[0]);
            assert(enc_opt(v)[0] == 0u8);
            assert(enc_opt(w) =~= seq![1u8] + enc_bytes(b));
            assert((enc_opt(w) + s)[0] == enc_opt(w)[0]);
            assert(enc_opt(w)[0] == (seq![1u8] + enc_bytes(b))[0]);
            assert(false);
        },
        (Some(a), None) => {
            assert((enc_opt(v) + r)[0] == enc_opt(v)[0]);
            assert(enc_opt(v) =~= seq![1u8] + enc_bytes(a));
            assert(enc_opt(v)[0] == (seq![1u8] + enc_bytes(a))[0]);
            assert((enc_opt(w) + s)[0] == enc_opt(w)[0]);
            assert(enc_opt(w)[0] == 0u8);
            assert(false);
        },
    }
}

proof fn lemma_enc_slots_inj(
    s1: Seq<Option<Seq<u8>>>,
    s2: Seq<Option<Seq<u8>>>,
    i: int,
    r1: Seq<u8>,
    r2: Seq<u8>,
)
    requires
        0 <= i <= 16,
        forall|j: int| 0 <= j < 16 ==> (#[trigger] s1[j] matches Some(d) ==> d.len() <= u64::MAX),
        forall|j: int| 0 <= j < 16 ==> (#[trigger] s2[j] matches Some(d) ==> d.len() <= u64::MAX),
        enc_slots(s1, i) + r1 == enc_slots(s2, i) + r2,
    ensures
        forall|j: int| i <= j < 16 ==> s1[j] == s2[j],
        r1 == r2,
    decreases 16 - i,
{
    if i >= 16 {
        lemma_concat_split(enc_slots(s1, i), r1, enc_slots(s2, i), r2);
    } else {
        assert(enc_slots(s1, i) + r1 =~= enc_opt(s1[i]) + (enc_slots(s1, i + 1) + r1));
        assert(enc_slots(s2, i) + r2 =~= enc_opt(s2[i]) + (enc_slots(s2, i + 1) + r2));
        lemma_enc_opt_prefix(s1[i], enc_slots(s1, i + 1) + r1, s2[i], enc_slots(s2, i + 1) + r2);
        lemma_enc_slots_inj(s1, s2, i + 1, r1, r2);
    }
}

/// The encoding is injective over structurally sound nodes: equal encodings
/// mean equal nodes.
pub proof fn lemma_enc_injective(x: FNode, y: FNode)
    requires
        node_wf(x),
        node_wf(y),
        spec_enc(x) == spec_enc(y),
    ensures
        x == y,
{
    lemma_tag(x);
    lemma_tag(y);
    assert(spec_enc(x)[0] == spec_enc(y)[0]);
    match (x, y) {
        (FNode::Leaf { path: p1, value: v1 }, FNode::Leaf { path: p2, value: v2 }) => {
            assert(spec_enc(x) =~= seq![0u8] + (enc_bytes(p1) + (enc_bytes(v1) + Seq::empty())));
            assert(spec_enc(y) =~= seq![0u8] + (enc_bytes(p2) + (enc_bytes(v2) + Seq::empty())));
            lemma_concat_split(
                seq![0u8],
                enc_bytes(p1) + (enc_bytes(v1) + Seq::empty()),
                seq![0u8],
                enc_bytes(p2) + (enc_bytes(v2) + Seq::empty()),
            );
            lemma_enc_bytes_prefix(p1, enc_bytes(v1) + Seq::empty(), p2, enc_bytes(v2) + Seq::empty());
            lemma_enc_bytes_prefix(v1, Seq::empty(), v2, Seq::empty());
        },
        (FNode::Extension { path: p1, child: c1 }, FNode::Extension { path: p2, child: c2 }) => {
            assert(spec_enc(x) =~= seq![1u8] + (enc_bytes(p1) + (enc_bytes(c1) + Seq::empty())));
            assert(spec_enc(y) =~= seq![1u8] + (enc_bytes(p2) + (enc_bytes(c2) + Seq::empty())));
            lemma_concat_split(
                seq![1u8],
                enc_bytes(p1) + (enc_bytes(c1) + Seq::empty()),
                seq![1u8],
                enc_bytes(p2) + (enc_bytes(c2) + Seq::empty()),
            );
            lemma_enc_bytes_prefix(p1, enc_bytes(c1) + Seq::empty(), p2, enc_bytes(c2) + Seq::empty());
            lemma_enc_bytes_prefix(c1, Seq::empty(), c2, Seq::empty());
        },
        (FNode::Branch { slots: s1, value: v1 }, FNode::Branch { slots: s2, value: v2 }) => {
            assert(spec_enc(x) =~= seq![2u8] + (enc_slots(s1, 0) + enc_opt(v1)));
            assert(spec_enc(y) =~= seq![2u8] + (enc_slots(s2, 0) + enc_opt(v2)));
            lemma_concat_split(
                seq![2u8],
                enc_slots(s1, 0) + enc_opt(v1),
                seq![2u8],
                enc_slots(s2, 0) + enc_opt(v2),
            );
            lemma_enc_slots_inj(s1, s2, 0, enc_opt(v1), enc_opt(v2));
            lemma_enc_opt_prefix(v1, Seq::empty(), v2, Seq::empty());
            assert(enc_opt(v1) + Seq::empty() =~= enc_opt(v1));
            assert(enc_opt(v2) + Seq::empty() =~= enc_opt(v2));
            assert(s1 =~= s2);
        },
        _ => {
            assert(false);
        },
    }
}

proof fn lemma_vec_len_bound(v: Vec<u8>)
    ensures
        v@.len() <= u64::MAX,
{
    vstd::std_specs::vec::axiom_spec_len(&v);
    assert(usize::MAX <= u64::MAX);
}

/// Appends a byte slice.
pub(crate) fn push_all(out: &mut Vec<u8>, s: &[u8])
    ensures
        final(out)@ == old(out)@ + s@,
{
    let mut i: usize = 0;
    while i < s.len()
        invariant
            i <= s@.len(),
            out@ == old(out)@ + s@.take(i as int),
        decreases s@.len() - i,
    {
        out.push(s[i]);
        i = i + 1;
        proof {
            assert(out@ =~= old(out)@ + s@.take(i as int));
        }
    }
    proof {
        assert(out@ =~= old(out)@ + s@);
    }
}

/// Appends the eight little-endian bytes of a length.
fn push_len8(out: &mut Vec<u8>, n: u64)
    ensures
        final(out)@ == old(out)@ + len8(n),
{
    out.push((n & 0xff) as u8);
    out.push(((n >> 8u64) & 0xff) as u8);
    out.push(((n >> 16u64) & 0xff) as u8);
    out.push(((n >> 24u64) & 0xff) as u8);
    out.push(((n >> 32u64) & 0xff) as u8);
    out.push(((n >> 40u64) & 0xff) as u8);
    out.push(((n >> 48u64) & 0xff) as u8);
    out.push(((n >> 56u64) & 0xff) as u8);
    proof {
        assert(out@ =~= old(out)@ + len8(n));
    }
}

/// Appends a length-prefixed byte field.
fn push_bytes(out: &mut Vec<u8>, b: &[u8])
    ensures
        final(out)@ == old(out)@ + enc_bytes(b@),
{
    let n: usize = b.len();
    push_len8(out, n as u64);
    push_all(out, b);
    proof {
        assert(b@.len() as u64 == n as u64);
        assert(out@ =~= old(out)@ + enc_bytes(b@));
    }
}

/// Computes the canonical encoding of a node.
pub fn encode_node(n: &Node) -> (r: Vec<u8>)
    requires
        n@ matches FNode::Branch { slots, .. } ==> slots.len() == 16,
    ensures
        r@ == spec_enc(n@),
        node_wf(n@),
{
    let mut out: Vec<u8> = Vec::new();
    match n {
        Node::Leaf { path, value } => {
            out.push(0u8);
            proof {
                assert(out@ =~= Seq::<u8>::empty() + seq![0u8]);
            }
            push_bytes(&mut out, path.as_slice());
            push_bytes(&mut out, value.as_slice());
            proof {
                lemma_vec_len_bound(*path);
                lemma_vec_len_bound(*value);
                assert(out@ =~= spec_enc(n@));
            }
        },
        Node::Extension { path, child } => {
            out.push(1u8);
            push_bytes(&mut out, path.as_slice());
            push_bytes(&mut out, child.as_slice());
            proof {
                lemma_vec_len_bound(*path);
                lemma_vec_len_bound(*child);
                assert(out@ =~= spec_enc(n@));
            }
        },
        Node::Branch { slots, value } => {
            let ghost fslots = n@->Branch_slots;
            proof {
                assert forall|j: int|
                    0 <= j < 16 implies (#[trigger] fslots[j] matches Some(d) ==> d.len()
                    <= u64::MAX) by {
                    assert(fslots[j] == slots@[j].deep_view());
                    match slots@[j] {
                        Some(v) => {
                            lemma_vec_len_bound(v);
                            assert(fslots[j] == Some(v@));
                        },
                        None => {},
                    }
                }
            }
            out.push(2u8);
            let mut i: usize = 0;
            while i < 16
                invariant
                    i <= 16,
                    slots@.len() == 16,
                    fslots == slots.deep_view(),
                    forall|j: int|
                        0 <= j < 16 ==> (#[trigger] fslots[j] matches Some(d) ==> d.len()
                            <= u64::MAX),
                    out@ == seq![2u8] + enc_upto(fslots, i as int),
                decreases 16 - i,
            {
                match &slots[i] {
                    None => {
                        out.push(0u8);
                        proof {
                            assert(fslots[i as int] is None);
                            assert(out@ =~= seq![2u8] + enc_upto(fslots, i as int + 1));
                        }
                    },
                    Some(d) => {
                        out.push(1u8);
                        push_bytes(&mut out, d.as_slice());
                        proof {
                            assert(fslots[i as int] == Some(d@));
                            assert(enc_opt(fslots[i as int]) =~= seq![1u8] + enc_bytes(d@));
                            assert(out@ =~= seq![2u8] + enc_upto(fslots, i as int + 1));
                        }
                    },
                }
                i = i + 1;
            }
            proof {
                lemma_enc_upto_full(fslots, 16);
                assert(enc_upto(fslots, 16) + enc_slots(fslots, 16) =~= enc_upto(fslots, 16));
            }
            match value {
                None => {
                    out.push(0u8);
                    proof {
                        assert(value.deep_view() is None);
                        assert(out@ =~= spec_enc(n@));
                    }
                },
                Some(v) => {
                    out.push(1u8);
                    push_bytes(&mut out, v.as_slice());
                    proof {
                        lemma_vec_len_bound(*v);
                        assert(value.deep_view() == Some(v@));
                        assert(enc_opt(value.deep_view()) =~= seq![1u8] + enc_bytes(v@));
                        assert(out@ =~= spec_enc(n@));
                    }
                },
            }
        },
    }
    out
}

} // verus!
