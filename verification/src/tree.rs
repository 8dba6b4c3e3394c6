//! The mathematical model of a committed trie: a finite tree of leaves,
//! extensions and branches, together with what it means for such a tree to
//! be persisted in a content-addressable store and what value it associates
//! with a nibble path. The trie engine's contracts all speak in terms of
//! this model.
use vstd::prelude::*;
use crate::hashing::digest_of;
use crate::node::FNode;
use crate::node::spec_enc;
use crate::node::node_wf;
use crate::cas::cas_extends;
use crate::nibble::valid_path;

verus! {

/// A trie as a mathematical tree. Branch `slots` always has sixteen
/// entries, one per nibble.
pub enum STree {
    Leaf { path: Seq<u8>, value: Seq<u8> },
    Extension { path: Seq<u8>, child: Box<STree> },
    Branch { slots: Seq<Option<STree>>, value: Option<Seq<u8>> },
}

/// The digests of branch subtrees `i` to 15, in slot order.
pub open spec fn slot_digests(slots: Seq<Option<STree>>, i: int) -> Seq<Option<Seq<u8>>>
    decreases slots, 16int - i, 0int,
{
    if i >= 16 {
        Seq::empty()
    } else {
        seq![
            if 0 <= i < slots.len() {
                match slots[i] {
                    None => None,
                    Some(c) => Some(tree_digest(c)),
                }
            } else {
                None
            },
        ] + slot_digests(slots, i + 1)
    }
}

/// The node at the top of a tree, children replaced by their digests.
pub open spec fn flat_of(t: STree) -> FNode
    decreases t, 0int, 1int,
{
    match t {
        STree::Leaf { path, value } => FNode::Leaf { path, value },
        STree::Extension { path, child } => FNode::Extension {
            path,
            child: tree_digest(*child),
        },
        STree::Branch { slots, value } => FNode::Branch { slots: slot_digests(slots, 0), value },
    }
}

/// The digest that identifies a tree: the digest of its root node's
/// canonical encoding.
pub open spec fn tree_digest(t: STree) -> Seq<u8>
    decreases t, 0int, 2int,
{
    digest_of(spec_enc(flat_of(t)))
}

/// The canonical encoding of a tree's root node.
pub open spec fn tree_enc(t: STree) -> Seq<u8> {
    spec_enc(flat_of(t))
}

/// Every node of the tree is persisted in the store under its digest,
/// every node is structurally sound, and every path holds nibbles only.
pub open spec fn stored(t: STree, cas: Map<Seq<u8>, Seq<u8>>) -> bool
    decreases t, 1int, 0int,
{
    &&& cas.dom().contains(tree_digest(t))
    &&& cas[tree_digest(t)] == tree_enc(t)
    &&& node_wf(flat_of(t))
    &&& match t {
        STree::Leaf { path, .. } => valid_path(path),
        STree::Extension { path, child } => valid_path(path) && stored(*child, cas),
        STree::Branch { slots, .. } => slots.len() == 16 && slots_stored(slots, 0, cas),
    }
}

/// Every subtree in branch slots `i` to 15 is persisted in the store.
pub open spec fn slots_stored(slots: Seq<Option<STree>>, i: int, cas: Map<Seq<u8>, Seq<u8>>) -> bool
    decreases slots, 16int - i, 2int,
{
    i >= 16 || ({
        &&& (0 <= i < slots.len() ==> (slots[i] matches Some(c) ==> stored(c, cas)))
        &&& slots_stored(slots, i + 1, cas)
    })
}

/// A digest names a tree persisted in the store.
pub open spec fn hashes_to(t: STree, cas: Map<Seq<u8>, Seq<u8>>, d: Seq<u8>) -> bool {
    d == tree_digest(t) && stored(t, cas)
}

/// The value a tree associates with a nibble path.
pub open spec fn lookup(t: STree, p: Seq<u8>) -> Option<Seq<u8>>
    decreases t,
{
    match t {
        STree::Leaf { path, value } => if p == path {
            Some(value)
        } else {
            None
        },
        STree::Extension { path, child } => if path.len() <= p.len() && p.take(path.len() as int)
            == path {
            lookup(*child, p.skip(path.len() as int))
        } else {
            None
        },
        STree::Branch { slots, value } => if p.len() == 0 {
            value
        } else if (p[0] as int) < slots.len() && slots[p[0] as int] is Some {
            lookup(slots[p[0] as int]->0, p.skip(1))
        } else {
            None
        },
    }
}

/// The value an optional tree associates with a nibble path; `None` is the
/// empty trie.
pub open spec fn lookup_root(t: Option<STree>, p: Seq<u8>) -> Option<Seq<u8>> {
    match t {
        None => None,
        Some(tt) => lookup(tt, p),
    }
}

/// `slot_digests` has one entry per remaining slot, each the digest of its
/// subtree.
pub proof fn lemma_slot_digests_index(slots: Seq<Option<STree>>, i: int, j: int)
    requires
        slots.len() == 16,
        0 <= i <= j < 16,
    ensures
        slot_digests(slots, i).len() == 16 - i,
        slot_digests(slots, i)[j - i] == match slots[j] {
            None => None,
            Some(c) => Some(tree_digest(c)),
        },
    decreases j - i,
{
    lemma_slot_digests_len(slots, i);
    if j > i {
        lemma_slot_digests_index(slots, i + 1, j);
    }
}

pub proof fn lemma_slot_digests_len(slots: Seq<Option<STree>>, i: int)
    requires
        0 <= i <= 16,
    ensures
        slot_digests(slots, i).len() == 16 - i,
    decreases 16 - i,
{
    if i < 16 {
        lemma_slot_digests_len(slots, i + 1);
    }
}

/// Whatever is stored stays stored when the store grows.
pub proof fn lemma_stored_monotone(t: STree, cas1: Map<Seq<u8>, Seq<u8>>, cas2: Map<Seq<u8>, Seq<u8>>)
    requires
        stored(t, cas1),
        cas_extends(cas1, cas2),
    ensures
        stored(t, cas2),
    decreases t, 1int, 0int,
{
    match t {
        STree::Leaf { .. } => {},
        STree::Extension { path, child } => {
            lemma_stored_monotone(*child, cas1, cas2);
        },
        STree::Branch { slots, .. } => {
            lemma_slots_stored_monotone(slots, 0, cas1, cas2);
        },
    }
}

/// A tree wrapped in a possibly empty shared prefix.
pub open spec fn splice(pre: Seq<u8>, b: STree) -> STree {
    if pre.len() == 0 {
        b
    } else {
        STree::Extension { path: pre, child: Box::new(b) }
    }
}

/// Looking up under a spliced prefix first consumes the prefix.
pub proof fn lemma_lookup_splice(pre: Seq<u8>, b: STree, q: Seq<u8>)
    ensures
        lookup(splice(pre, b), q) == (if pre.len() <= q.len() && q.take(pre.len() as int) == pre {
            lookup(b, q.skip(pre.len() as int))
        } else {
            None::<Seq<u8>>
        }),
{
    if pre.len() == 0 {
        assert(q.take(0) =~= pre);
        assert(q.skip(0) =~= q);
    }
}

/// Two paths are equal exactly when both halves around a split point are.
pub proof fn lemma_eq_split(q: Seq<u8>, p: Seq<u8>, n: int)
    requires
        0 <= n <= q.len(),
        0 <= n <= p.len(),
    ensures
        (q == p) <==> (q.take(n) == p.take(n) && q.skip(n) == p.skip(n)),
{
    if q.take(n) == p.take(n) && q.skip(n) == p.skip(n) {
        assert(q.skip(n).len() == q.len() - n);
        assert(p.skip(n).len() == p.len() - n);
        assert(q.len() == p.len());
        assert forall|i: int| 0 <= i < q.len() implies q[i] == p[i] by {
            if i < n {
                assert(q.take(n)[i] == q[i]);
                assert(p.take(n)[i] == p[i]);
            } else {
                assert(q.skip(n)[i - n] == q[i]);
                assert(p.skip(n)[i - n] == p[i]);
            }
        }
        assert(q =~= p);
    }
}

/// Being an extension of a path splits at any point where the two already
/// agree: the rest of the path must prefix the rest of the candidate.
pub proof fn lemma_prefix_split(q: Seq<u8>, p: Seq<u8>, n: int)
    requires
        0 <= n <= p.len(),
        n <= q.len(),
        q.take(n) == p.take(n),
    ensures
        (p.len() <= q.len() && q.take(p.len() as int) == p) <==> (p.len() - n <= q.skip(n).len()
            && q.skip(n).take(p.len() - n) == p.skip(n)),
{
    let l = p.len() as int;
    if l <= q.len() && q.take(l) == p {
        assert(q.skip(n).take(l - n) =~= p.skip(n)) by {
            assert forall|i: int| 0 <= i < l - n implies q.skip(n).take(l - n)[i] == p.skip(n)[i] by {
                assert(q.take(l)[n + i] == q[n + i]);
            }
        }
    }
    if l - n <= q.len() - n && q.skip(n).take(l - n) == p.skip(n) {
        assert(q.take(l) =~= p) by {
            assert forall|i: int| 0 <= i < l implies q.take(l)[i] == p[i] by {
                if i < n {
                    assert(q.take(n)[i] == q[i]);
                    assert(p.take(n)[i] == p[i]);
                } else {
                    assert(q.skip(n).take(l - n)[i - n] == q[i]);
                    assert(p.skip(n)[i - n] == p[i]);
                }
            }
        }
    }
}

/// Every slot of a branch whose subtrees are all persisted holds a
/// persisted subtree.
pub proof fn lemma_slots_stored_index(
    slots: Seq<Option<STree>>,
    i: int,
    j: int,
    cas: Map<Seq<u8>, Seq<u8>>,
)
    requires
        slots_stored(slots, i, cas),
        0 <= i <= j < 16,
        j < slots.len(),
    ensures
        slots[j] matches Some(c) ==> stored(c, cas),
    decreases j - i,
{
    if j > i {
        lemma_slots_stored_index(slots, i + 1, j, cas);
    }
}

/// Slots whose subtrees are each persisted are persisted as a whole.
pub proof fn lemma_slots_stored_all(
    slots: Seq<Option<STree>>,
    i: int,
    cas: Map<Seq<u8>, Seq<u8>>,
)
    requires
        0 <= i,
        forall|j: int|
            i <= j < 16 && j < slots.len() ==> (#[trigger] slots[j] matches Some(c) ==> stored(
                c,
                cas,
            )),
    ensures
        slots_stored(slots, i, cas),
    decreases 16 - i,
{
    if i < 16 {
        lemma_slots_stored_all(slots, i + 1, cas);
    }
}

/// Slot digests are determined pointwise: a digest sequence that agrees
/// with the subtrees slot by slot is the slot-digest sequence.
pub proof fn lemma_slot_digests_eq(gslots: Seq<Option<STree>>, dslots: Seq<Option<Seq<u8>>>)
    requires
        gslots.len() == 16,
        dslots.len() == 16,
        forall|j: int|
            0 <= j < 16 ==> (#[trigger] dslots[j]) == (match gslots[j] {
                None => None::<Seq<u8>>,
                Some(c) => Some(tree_digest(c)),
            }),
    ensures
        slot_digests(gslots, 0) == dslots,
{
    lemma_slot_digests_len(gslots, 0);
    assert forall|j: int| 0 <= j < 16 implies slot_digests(gslots, 0)[j] == dslots[j] by {
        lemma_slot_digests_index(gslots, 0, j);
    }
    assert(slot_digests(gslots, 0) =~= dslots);
}

pub proof fn lemma_slots_stored_monotone(
    slots: Seq<Option<STree>>,
    i: int,
    cas1: Map<Seq<u8>, Seq<u8>>,
    cas2: Map<Seq<u8>, Seq<u8>>,
)
    requires
        0 <= i,
        slots_stored(slots, i, cas1),
        cas_extends(cas1, cas2),
    ensures
        slots_stored(slots, i, cas2),
    decreases slots, 16int - i, 2int,
{
    if i < 16 {
        if i < slots.len() {
            match slots[i] {
                None => {},
                Some(c) => {
                    lemma_stored_monotone(c, cas1, cas2);
                },
            }
        }
        lemma_slots_stored_monotone(slots, i + 1, cas1, cas2);
    }
}

} // verus!
