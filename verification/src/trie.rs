//! The trie engine: get, insert and remove against an immutable,
//! structurally shared radix trie whose nodes live in the
//! content-addressable store. Operations never change a stored node; insert
//! and remove construct and persist new nodes along the touched path and
//! return the digest of the new root, so old roots stay readable and share
//! every untouched subtree with new ones.
use vstd::prelude::*;
use crate::cas::Cas;
use crate::cas::CasError;
use crate::cas::cas_extends;
use crate::cas::collision_detected;
use crate::hashing::digest_of;
use crate::nibble::bytes_to_nibbles;
use crate::nibble::nibbles_of;
use crate::nibble::valid_path;
use crate::node::FNode;
use crate::node::Node;
use crate::node::spec_enc;
use crate::node::node_wf;
use crate::node::lemma_enc_injective;
use crate::node::push_all;
use crate::tree::STree;
use crate::tree::flat_of;
use crate::tree::tree_digest;
use crate::tree::tree_enc;
use crate::tree::stored;
use crate::tree::slots_stored;
use crate::tree::hashes_to;
use crate::tree::lookup;
use crate::tree::lookup_root;
use crate::tree::splice;
use crate::tree::slot_digests;
use crate::tree::lemma_slot_digests_index;
use crate::tree::lemma_slot_digests_len;
use crate::tree::lemma_slot_digests_eq;
use crate::tree::lemma_slots_stored_index;
use crate::tree::lemma_slots_stored_all;
use crate::tree::lemma_slots_stored_monotone;
use crate::tree::lemma_stored_monotone;
use crate::tree::lemma_lookup_splice;
use crate::tree::lemma_eq_split;
use crate::tree::lemma_prefix_split;
use vstd::slice::slice_subrange;
use vstd::slice::slice_to_vec;

verus! {

/// Whether the suffix of `path` from `pos` holds exactly the bytes of
/// `rest`.
fn suffix_matches(path: &[u8], pos: usize, rest: &[u8]) -> (r: bool)
    requires
        pos <= path@.len(),
    ensures
        r == (path@.skip(pos as int) == rest@),
{
    if path.len() - pos != rest.len() {
        proof {
            assert(path@.skip(pos as int).len() == path@.len() - pos);
        }
        return false;
    }
    let mut j: usize = 0;
    while j < rest.len()
        invariant
            pos <= path@.len(),
            path@.len() <= usize::MAX,
            path@.len() - pos == rest@.len(),
            j <= rest@.len(),
            forall|k: int| 0 <= k < j ==> path@[pos + k] == rest@[k],
        decreases rest@.len() - j,
    {
        if path[pos + j] != rest[j] {
            proof {
                assert(path@.skip(pos as int)[j as int] == path@[pos + j]);
            }
            return false;
        }
        j = j + 1;
    }
    proof {
        assert(path@.skip(pos as int) =~= rest@);
    }
    true
}

/// Whether `pre` is a prefix of the suffix of `path` from `pos`.
fn prefix_matches(path: &[u8], pos: usize, pre: &[u8]) -> (r: bool)
    requires
        pos <= path@.len(),
    ensures
        r == (pre@.len() <= path@.len() - pos && path@.skip(pos as int).take(pre@.len() as int)
            == pre@),
{
    if path.len() - pos < pre.len() {
        return false;
    }
    let mut j: usize = 0;
    while j < pre.len()
        invariant
            pos <= path@.len(),
            path@.len() <= usize::MAX,
            pre@.len() <= path@.len() - pos,
            j <= pre@.len(),
            forall|k: int| 0 <= k < j ==> path@[pos + k] == pre@[k],
        decreases pre@.len() - j,
    {
        if path[pos + j] != pre[j] {
            proof {
                assert(path@.skip(pos as int).take(pre@.len() as int)[j as int] == path@[pos
                    + j]);
            }
            return false;
        }
        j = j + 1;
    }
    proof {
        assert(path@.skip(pos as int).take(pre@.len() as int) =~= pre@);
    }
    true
}

/// The length of the longest common prefix of the suffix of `path` from
/// `pos` and `other`.
fn common_from(path: &[u8], pos: usize, other: &[u8]) -> (r: usize)
    requires
        pos <= path@.len(),
    ensures
        pos + r <= path@.len(),
        r <= other@.len(),
        forall|j: int| 0 <= j < r ==> path@[pos + j] == other@[j],
        pos + r < path@.len() && r < other@.len() ==> path@[pos + r] != other@[r as int],
{
    let max: usize = if path.len() - pos < other.len() {
        path.len() - pos
    } else {
        other.len()
    };
    let mut j: usize = 0;
    while j < max && path[pos + j] == other[j]
        invariant
            pos <= path@.len(),
            path@.len() <= usize::MAX,
            max <= path@.len() - pos,
            max <= other@.len(),
            j <= max,
            forall|k: int| 0 <= k < j ==> path@[pos + k] == other@[k],
        decreases max - j,
    {
        j = j + 1;
    }
    j
}

/// Copies a slot vector; the copy holds the same digests.
fn copy_slots(src: &Vec<Option<Vec<u8>>>) -> (r: Vec<Option<Vec<u8>>>)
    ensures
        r@.len() == src@.len(),
        r.deep_view() == src.deep_view(),
{
    let mut out: Vec<Option<Vec<u8>>> = Vec::new();
    let mut i: usize = 0;
    while i < src.len()
        invariant
            i <= src@.len(),
            out@.len() == i,
            forall|j: int| 0 <= j < i ==> (#[trigger] out@[j]).deep_view() == src@[j].deep_view(),
        decreases src@.len() - i,
    {
        match &src[i] {
            None => {
                out.push(None);
                proof {
                    assert(out@[i as int].deep_view() == src@[i as int].deep_view());
                }
            },
            Some(d) => {
                out.push(Some(slice_to_vec(d.as_slice())));
                proof {
                    assert(out@[i as int].deep_view() == src@[i as int].deep_view());
                }
            },
        }
        i = i + 1;
    }
    proof {
        assert forall|j: int| 0 <= j < src@.len() implies out.deep_view()[j]
            == src.deep_view()[j] by {
            assert(out@[j].deep_view() == src@[j].deep_view());
        }
        assert(out.deep_view() =~= src.deep_view());
    }
    out
}

/// Sixteen empty slots.
fn empty_slots() -> (r: Vec<Option<Vec<u8>>>)
    ensures
        r@.len() == 16,
        forall|j: int| 0 <= j < 16 ==> (#[trigger] r@[j]) is None,
{
    let mut out: Vec<Option<Vec<u8>>> = Vec::new();
    let mut i: usize = 0;
    while i < 16
        invariant
            i <= 16,
            out@.len() == i,
            forall|j: int| 0 <= j < i ==> (#[trigger] out@[j]) is None,
        decreases 16 - i,
    {
        out.push(None);
        i = i + 1;
    }
    out
}

/// Builds and persists a leaf holding the suffix of `path` from `pos` and
/// `value`.
fn make_leaf(cas: &mut Cas, path: &[u8], pos: usize, value: &[u8]) -> (r: Result<
    (Vec<u8>, Ghost<STree>),
    CasError,
>)
    requires
        pos <= path@.len(),
        valid_path(path@),
    ensures
        cas_extends(old(cas)@, final(cas)@),
        r is Err ==> collision_detected(final(cas)@),
        r matches Ok(p) ==> p.1@ == (STree::Leaf { path: path@.skip(pos as int), value: value@ })
            && hashes_to(p.1@, final(cas)@, p.0@),
{
    let suffix = slice_to_vec(slice_subrange(path, pos, path.len()));
    proof {
        assert(suffix@ =~= path@.skip(pos as int));
    }
    let node = Node::Leaf { path: suffix, value: slice_to_vec(value) };
    let ghost gt = STree::Leaf { path: path@.skip(pos as int), value: value@ };
    proof {
        assert(flat_of(gt) == node@);
        assert(valid_path(path@.skip(pos as int))) by {
            assert forall|i: int|
                0 <= i < path@.skip(pos as int).len() implies path@.skip(pos as int)[i] < 16 by {
                assert(path@.skip(pos as int)[i] == path@[pos + i]);
            }
        }
    }
    match cas.put_node(node) {
        Ok(d) => {
            proof {
                assert(tree_digest(gt) == d@);
                assert(cas@[d@] == tree_enc(gt));
            }
            Ok((d, Ghost(gt)))
        },
        Err(e) => Err(e),
    }
}

/// Builds and persists a branch whose slots hold the digests of the given
/// subtrees.
fn make_branch(
    cas: &mut Cas,
    slots: Vec<Option<Vec<u8>>>,
    value: Option<Vec<u8>>,
    Ghost(gslots): Ghost<Seq<Option<STree>>>,
) -> (r: Result<(Vec<u8>, Ghost<STree>), CasError>)
    requires
        slots@.len() == 16,
        gslots.len() == 16,
        forall|j: int|
            0 <= j < 16 ==> (#[trigger] slots.deep_view()[j]) == (match gslots[j] {
                None => None::<Seq<u8>>,
                Some(c) => Some(tree_digest(c)),
            }),
        forall|j: int|
            0 <= j < 16 ==> (#[trigger] gslots[j] matches Some(c) ==> stored(c, old(cas)@)),
    ensures
        cas_extends(old(cas)@, final(cas)@),
        r is Err ==> collision_detected(final(cas)@),
        r matches Ok(p) ==> p.1@ == (STree::Branch { slots: gslots, value: value.deep_view() })
            && hashes_to(p.1@, final(cas)@, p.0@),
{
    let ghost gt = STree::Branch { slots: gslots, value: value.deep_view() };
    let node = Node::Branch { slots, value };
    proof {
        lemma_slot_digests_eq(gslots, node@->Branch_slots);
        assert(flat_of(gt) == node@);
    }
    match cas.put_node(node) {
        Ok(d) => {
            proof {
                assert(tree_digest(gt) == d@);
                assert(cas@[d@] == tree_enc(gt));
                assert forall|j: int|
                    0 <= j < 16 && j < gslots.len() implies (#[trigger] gslots[j] matches Some(c)
                    ==> stored(c, cas@)) by {
                    match gslots[j] {
                        Some(c) => {
                            lemma_stored_monotone(c, old(cas)@, cas@);
                        },
                        None => {},
                    }
                }
                lemma_slots_stored_all(gslots, 0, cas@);
            }
            Ok((d, Ghost(gt)))
        },
        Err(e) => Err(e),
    }
}

/// Builds and persists an extension with the given prefix over an already
/// persisted child.
fn make_extension(
    cas: &mut Cas,
    path: Vec<u8>,
    child_digest: Vec<u8>,
    Ghost(gchild): Ghost<STree>,
) -> (r: Result<(Vec<u8>, Ghost<STree>), CasError>)
    requires
        stored(gchild, old(cas)@),
        child_digest@ == tree_digest(gchild),
        valid_path(path@),
    ensures
        cas_extends(old(cas)@, final(cas)@),
        r is Err ==> collision_detected(final(cas)@),
        r matches Ok(p) ==> p.1@ == (STree::Extension { path: path@, child: Box::new(gchild) })
            && hashes_to(p.1@, final(cas)@, p.0@),
{
    let ghost gt = STree::Extension { path: path@, child: Box::new(gchild) };
    let node = Node::Extension { path, child: child_digest };
    proof {
        assert(flat_of(gt) == node@);
    }
    match cas.put_node(node) {
        Ok(d) => {
            proof {
                assert(tree_digest(gt) == d@);
                assert(cas@[d@] == tree_enc(gt));
                lemma_stored_monotone(gchild, old(cas)@, cas@);
            }
            Ok((d, Ghost(gt)))
        },
        Err(e) => Err(e),
    }
}

/// Walks the persisted trie from a node digest, consuming the suffix of
/// `path` from `pos`, and returns the value found there, if any.
fn get_node_rec(cas: &Cas, digest: &[u8], path: &[u8], pos: usize, Ghost(t): Ghost<STree>) -> (r:
    Option<Vec<u8>>)
    requires
        hashes_to(t, cas@, digest@),
        pos <= path@.len(),
        valid_path(path@),
    ensures
        r.deep_view() == lookup(t, path@.skip(pos as int)),
    decreases t,
{
    let ghost p = path@.skip(pos as int);
    let node = match cas.get_node(digest) {
        Some(n) => n,
        None => {
            proof {
                assert(false);
            }
            return None;
        },
    };
    proof {
        lemma_enc_injective(node@, flat_of(t));
    }
    match node {
        Node::Leaf { path: lp, value: lv } => {
            proof {
                assert(t matches STree::Leaf { path, value } && path == lp@ && value == lv@);
            }
            if suffix_matches(path, pos, lp.as_slice()) {
                Some(slice_to_vec(lv.as_slice()))
            } else {
                None
            }
        },
        Node::Extension { path: ep, child } => {
            let ghost tc = *t->Extension_child;
            proof {
                assert(t matches STree::Extension { path, child } && path == ep@ && tree_digest(
                    *child,
                ) == node@->Extension_child);
            }
            if prefix_matches(path, pos, ep.as_slice()) {
                let plen: usize = path.len();
                let r = get_node_rec(cas, child.as_slice(), path, pos + ep.len(), Ghost(tc));
                proof {
                    assert(path@.skip((pos + ep@.len()) as int) =~= p.skip(ep@.len() as int));
                }
                r
            } else {
                None
            }
        },
        Node::Branch { slots, value } => {
            let ghost gslots = t->Branch_slots;
            proof {
                assert(t is Branch);
                assert(slots.deep_view() == slot_digests(gslots, 0));
                lemma_slot_digests_len(gslots, 0);
                assert(slots@.len() == slots.deep_view().len());
            }
            if pos == path.len() {
                proof {
                    assert(p =~= Seq::<u8>::empty());
                    assert(value.deep_view() == t->Branch_value);
                }
                match value {
                    Some(v) => Some(slice_to_vec(v.as_slice())),
                    None => None,
                }
            } else {
                let nib = path[pos];
                proof {
                    assert(p[0] == path@[pos as int]);
                    assert(nib < 16);
                    lemma_slot_digests_index(gslots, 0, nib as int);
                    assert(slots.deep_view()[nib as int] == slot_digests(gslots, 0)[nib as int]);
                }
                match &slots[nib as usize] {
                    None => {
                        proof {
                            assert(gslots[nib as int] is None);
                            assert(lookup(t, p) is None);
                        }
                        None
                    },
                    Some(d) => {
                        let ghost tc = gslots[nib as int]->0;
                        proof {
                            assert(gslots[nib as int] is Some);
                            assert(d@ == tree_digest(tc));
                            lemma_slots_stored_index(gslots, 0, nib as int, cas@);
                            assert(path@.skip((pos + 1) as int) =~= p.skip(1));
                        }
                        get_node_rec(cas, d.as_slice(), path, pos + 1, Ghost(tc))
                    },
                }
            }
        },
    }
}

/// Copies a node out of the store so the store can be written while the
/// node is still in hand.
fn clone_node(n: &Node) -> (r: Node)
    ensures
        r@ == n@,
{
    match n {
        Node::Leaf { path, value } => Node::Leaf {
            path: slice_to_vec(path.as_slice()),
            value: slice_to_vec(value.as_slice()),
        },
        Node::Extension { path, child } => Node::Extension {
            path: slice_to_vec(path.as_slice()),
            child: slice_to_vec(child.as_slice()),
        },
        Node::Branch { slots, value } => {
            let v = match value {
                None => None,
                Some(b) => Some(slice_to_vec(b.as_slice())),
            };
            let r = Node::Branch { slots: copy_slots(slots), value: v };
            proof {
                assert(r@ == n@);
            }
            r
        },
    }
}

/// Inserts at a leaf: replace the value on an exact match, else split
/// into a branch under the common prefix.
#[verifier::rlimit(100)]
fn insert_at_leaf(
    cas: &mut Cas,
    lp: Vec<u8>,
    lv: Vec<u8>,
    path: &[u8],
    pos: usize,
    value: &[u8],
    Ghost(t): Ghost<STree>,
) -> (r: Result<(Vec<u8>, Ghost<STree>), CasError>)
    requires
        stored(t, old(cas)@),
        pos <= path@.len(),
        valid_path(path@),
        t == (STree::Leaf { path: lp@, value: lv@ }),
    ensures
        cas_extends(old(cas)@, final(cas)@),
        r is Err ==> collision_detected(final(cas)@),
        r matches Ok(p) ==> hashes_to(p.1@, final(cas)@, p.0@) && (forall|q: Seq<u8>|
            (#[trigger] lookup(p.1@, q)) == (if q == path@.skip(pos as int) {
                Some(value@)
            } else {
                lookup(t, q)
            })),
    decreases t, 0int,
{
    let ghost rest = path@.skip(pos as int);
    let plen: usize = path.len();

    let ghost glp = lp@;
    let ghost glv = lv@;
    proof {
        assert(t == (STree::Leaf { path: glp, value: glv }));
    }
    if suffix_matches(path, pos, lp.as_slice()) {
        match make_leaf(cas, path, pos, value) {
            Ok((d2, gt2)) => {
                proof {
                    assert forall|q: Seq<u8>|
                        (#[trigger] lookup(gt2@, q)) == (if q == rest {
                            Some(value@)
                        } else {
                            lookup(t, q)
                        }) by {}
                }
                Ok((d2, gt2))
            },
            Err(e) => Err(e),
        }
    } else {
        let cpl = common_from(path, pos, lp.as_slice());
        let ghost pre = rest.take(cpl as int);
        let ghost ra = rest.skip(cpl as int);
        let ghost la = glp.skip(cpl as int);
        proof {
            assert(rest.len() == path@.len() - pos);
            assert forall|j: int| 0 <= j < cpl implies rest[j] == glp[j] by {
                assert(rest[j] == path@[pos + j]);
            }
            assert(glp.take(cpl as int) =~= pre);
            if ra.len() == 0 && la.len() == 0 {
                assert(rest =~= glp);
                assert(false);
            }
            if ra.len() > 0 && la.len() > 0 {
                assert(ra[0] == path@[pos + cpl]);
                assert(la[0] == glp[cpl as int]);
                assert(ra[0] != la[0]);
            }
        }
        let mut slots = empty_slots();
        let mut bval: Option<Vec<u8>> = None;
        let ghost gs0 = Seq::new(16, |k: int| None::<STree>);
        let ghost mut gs = gs0;
        let ghost mut gbval: Option<Seq<u8>> = None;
        let ghost snap0 = cas@;

        // the side of the existing leaf
        let ghost gl_sub = STree::Leaf { path: la.skip(1), value: glv };
        if cpl < lp.len() {
            let li = lp[cpl];
            proof {
                assert(la[0] == glp[cpl as int]);
                // a stored leaf path holds nibbles only
                assert(li < 16);
            }
            let (dl, gl) = match make_leaf(cas, lp.as_slice(), cpl + 1, lv.as_slice()) {
                Ok(x) => x,
                Err(e) => {
                    return Err(e);
                },
            };
            proof {
                assert(glp.skip(cpl + 1) =~= la.skip(1));
                assert(gl@ == gl_sub);
            }
            slots[li as usize] = Some(dl);
            proof {
                gs = gs.update(li as int, Some(gl@));
                assert forall|j: int|
                    0 <= j < 16 implies (#[trigger] slots@[j]).deep_view() == (match gs[j] {
                    None => None::<Seq<u8>>,
                    Some(c) => Some(tree_digest(c)),
                }) by {
                    if j == li as int {
                        assert(slots@[j] == Some(dl));
                        assert(gs[j] == Some(gl@));
                    } else {
                        assert(slots@[j] is None);
                        assert(gs[j] is None);
                    }
                }
            }
        } else {
            bval = Some(slice_to_vec(lv.as_slice()));
            proof {
                gbval = Some(glv);
                assert forall|j: int|
                    0 <= j < 16 implies (#[trigger] slots@[j]).deep_view() == (match gs[j] {
                    None => None::<Seq<u8>>,
                    Some(c) => Some(tree_digest(c)),
                }) by {
                    assert(slots@[j] is None);
                    assert(gs[j] is None);
                }
            }
        }
        let ghost snap1 = cas@;

        // the side of the new key
        let ghost gr_sub = STree::Leaf { path: ra.skip(1), value: value@ };
        if pos + cpl < plen {
            let ri = path[pos + cpl];
            proof {
                assert(ra[0] == path@[pos + cpl]);
                assert(ri < 16);
            }
            let (dr, gr) = match make_leaf(cas, path, pos + cpl + 1, value) {
                Ok(x) => x,
                Err(e) => {
                    return Err(e);
                },
            };
            proof {
                assert(path@.skip(pos + cpl + 1) =~= ra.skip(1));
                assert(gr@ == gr_sub);
            }
            let ghost slots_pre = slots@;
            let ghost gs_pre = gs;
            slots[ri as usize] = Some(dr);
            proof {
                gs = gs.update(ri as int, Some(gr@));
                assert forall|j: int|
                    0 <= j < 16 implies (#[trigger] slots@[j]).deep_view() == (match gs[j] {
                    None => None::<Seq<u8>>,
                    Some(c) => Some(tree_digest(c)),
                }) by {
                    if j == ri as int {
                        assert(slots@[j] == Some(dr));
                        assert(gs[j] == Some(gr@));
                    } else {
                        assert(slots@[j] == slots_pre[j]);
                        assert(gs[j] == gs_pre[j]);
                        assert(slots_pre[j].deep_view() == (match gs_pre[j] {
                            None => None::<Seq<u8>>,
                            Some(c) => Some(tree_digest(c)),
                        }));
                    }
                }
            }
        } else {
            bval = Some(slice_to_vec(value));
            proof {
                gbval = Some(value@);
            }
        }
        proof {
            if la.len() > 0 {
                lemma_stored_monotone(gl_sub, snap1, cas@);
            }
            assert forall|j: int|
                0 <= j < 16 implies (#[trigger] slots.deep_view()[j]) == (match gs[j] {
                None => None::<Seq<u8>>,
                Some(c) => Some(tree_digest(c)),
            }) by {
                assert(slots.deep_view()[j] == slots@[j].deep_view());
                assert(slots@[j].deep_view() == (match gs[j] {
                    None => None::<Seq<u8>>,
                    Some(c) => Some(tree_digest(c)),
                }));
            }
        }
        let (db, gb) = match make_branch(cas, slots, bval, Ghost(gs)) {
            Ok(x) => x,
            Err(e) => {
                return Err(e);
            },
        };
        let ghost gbt = gb@;
        let (d2, gt2): (Vec<u8>, Ghost<STree>) = if cpl > 0 {
            let prevec = slice_to_vec(slice_subrange(path, pos, pos + cpl));
            proof {
                assert(prevec@ =~= pre);
            }
            match make_extension(cas, prevec, db, Ghost(gbt)) {
                Ok(x) => x,
                Err(e) => {
                    return Err(e);
                },
            }
        } else {
            (db, gb)
        };
        proof {
            assert(gt2@ == splice(pre, gbt));
            assert(stored(gt2@, cas@)) by {
                if cpl > 0 {
                } else {
                    assert(gt2@ == gbt);
                }
            }
            assert forall|q: Seq<u8>|
                (#[trigger] lookup(gt2@, q)) == (if q == rest {
                    Some(value@)
                } else {
                    lookup(t, q)
                }) by {
                lemma_lookup_splice(pre, gbt, q);
                if pre.len() <= q.len() && q.take(pre.len() as int) == pre {
                    let s = q.skip(pre.len() as int);
                    lemma_eq_split(q, rest, cpl as int);
                    lemma_eq_split(q, glp, cpl as int);
                    assert(rest.skip(cpl as int) == ra);
                    assert(glp.skip(cpl as int) == la);
                    assert((q == rest) <==> (s == ra));
                    assert((q == glp) <==> (s == la));
                    if s.len() == 0 {
                        assert(lookup(gbt, s) == gbval);
                        if ra.len() == 0 {
                            assert(s =~= ra);
                        } else {
                            assert(s != ra);
                            if la.len() == 0 {
                                assert(s =~= la);
                            } else {
                                assert(s != la);
                            }
                        }
                    } else {
                        let x = s[0];
                        if ra.len() > 0 && x == ra[0] {
                            assert(gs[x as int] == Some(gr_sub));
                            assert(lookup(gbt, s) == lookup(gr_sub, s.skip(1)));
                            assert(s.take(1) =~= ra.take(1));
                            lemma_eq_split(s, ra, 1);
                            if la.len() > 0 {
                                assert(x != la[0]);
                                assert(s != la);
                            } else {
                                assert(s != la);
                            }
                        } else if la.len() > 0 && x == la[0] {
                            assert(gs[x as int] == Some(gl_sub));
                            assert(lookup(gbt, s) == lookup(gl_sub, s.skip(1)));
                            assert(s.take(1) =~= la.take(1));
                            lemma_eq_split(s, la, 1);
                            assert(s != ra);
                        } else {
                            assert(s != ra && s != la);
                            if (x as int) < 16 {
                                assert(gs[x as int] is None);
                            }
                            assert(lookup(gbt, s) is None);
                        }
                    }
                } else {
                    assert(q != rest) by {
                        if q == rest {
                            assert(q.take(cpl as int) =~= pre);
                        }
                    }
                    assert(q != glp) by {
                        if q == glp {
                            assert(q.take(cpl as int) =~= pre);
                        }
                    }
                }
            }
        }
        Ok((d2, gt2))
    }

}

/// Inserts under an extension: descend when the whole prefix matches, else
/// split the extension at the divergence point.
#[verifier::rlimit(100)]
fn insert_at_ext(
    cas: &mut Cas,
    ep: Vec<u8>,
    child: Vec<u8>,
    path: &[u8],
    pos: usize,
    value: &[u8],
    Ghost(t): Ghost<STree>,
) -> (r: Result<(Vec<u8>, Ghost<STree>), CasError>)
    requires
        stored(t, old(cas)@),
        pos <= path@.len(),
        valid_path(path@),
        t matches STree::Extension { path: p, child: c } && p == ep@ && tree_digest(*c)
            == child@,
    ensures
        cas_extends(old(cas)@, final(cas)@),
        r is Err ==> collision_detected(final(cas)@),
        r matches Ok(p) ==> hashes_to(p.1@, final(cas)@, p.0@) && (forall|q: Seq<u8>|
            (#[trigger] lookup(p.1@, q)) == (if q == path@.skip(pos as int) {
                Some(value@)
            } else {
                lookup(t, q)
            })),
    decreases t, 0int,
{
    let ghost rest = path@.skip(pos as int);
    let plen: usize = path.len();

    let ghost gep = ep@;
    let ghost tc = *t->Extension_child;
    proof {
        assert(t == (STree::Extension { path: gep, child: Box::new(tc) }));
        assert(child@ == tree_digest(tc));
        assert(stored(tc, old(cas)@));
    }
    let cpl = common_from(path, pos, ep.as_slice());
    if cpl == ep.len() {
        // the whole prefix matches: insert below the extension
        let ghost srest = path@.skip((pos + cpl) as int);
        let (dc, gc2) = match insert_node(cas, child.as_slice(), path, pos + cpl, value, Ghost(tc)) {
            Ok(x) => x,
            Err(e) => {
                return Err(e);
            },
        };
        let (d2, gt2) = match make_extension(cas, ep, dc, Ghost(gc2@)) {
            Ok(x) => x,
            Err(e) => {
                return Err(e);
            },
        };
        proof {
            assert forall|j: int| 0 <= j < cpl implies rest[j] == gep[j] by {
                assert(rest[j] == path@[pos + j]);
            }
            assert(rest.take(cpl as int) =~= gep);
            assert forall|q: Seq<u8>|
                (#[trigger] lookup(gt2@, q)) == (if q == rest {
                    Some(value@)
                } else {
                    lookup(t, q)
                }) by {
                if gep.len() <= q.len() && q.take(gep.len() as int) == gep {
                    let s = q.skip(cpl as int);
                    lemma_eq_split(q, rest, cpl as int);
                    assert(s =~= q.skip(gep.len() as int));
                    assert(rest.skip(cpl as int) =~= srest);
                    assert(lookup(gt2@, q) == lookup(gc2@, s));
                    assert(lookup(t, q) == lookup(tc, s));
                } else {
                    assert(lookup(gt2@, q) is None);
                    assert(lookup(t, q) is None);
                    assert(q != rest) by {
                        if q == rest {
                            assert(q.take(cpl as int) =~= gep);
                        }
                    }
                }
            }
        }
        Ok((d2, gt2))
    } else {
        // the prefix diverges: split the extension
        let ghost pre = rest.take(cpl as int);
        let ghost ra = rest.skip(cpl as int);
        let ghost la = gep.skip(cpl as int);
        proof {
            assert(rest.len() == path@.len() - pos);
            assert forall|j: int| 0 <= j < cpl implies rest[j] == gep[j] by {
                assert(rest[j] == path@[pos + j]);
            }
            assert(gep.take(cpl as int) =~= pre);
            assert(la.len() > 0);
            if ra.len() > 0 {
                assert(ra[0] == path@[pos + cpl]);
                assert(la[0] == gep[cpl as int]);
                assert(ra[0] != la[0]);
            }
            assert(node_wf(flat_of(t)));
            assert(la[0] == gep[cpl as int]);
        }
        let li = ep[cpl];
        let ghost gl_sub: STree;
        let mut slots = empty_slots();
        let mut bval: Option<Vec<u8>> = None;
        let ghost gs0 = Seq::new(16, |k: int| None::<STree>);
        let ghost mut gs = gs0;
        let ghost mut gbval: Option<Seq<u8>> = None;

        proof {
            assert(stored(t, old(cas)@));
            // a stored extension path holds nibbles only
            assert(li < 16);
        }
        let (dl, gl) = if cpl + 1 == ep.len() {
            proof {
                gl_sub = tc;
                assert(la.len() == 1);
            }
            (slice_to_vec(child.as_slice()), Ghost(tc))
        } else {
            let sub = slice_to_vec(slice_subrange(ep.as_slice(), cpl + 1, ep.len()));
            proof {
                assert(sub@ =~= la.skip(1));
            }
            match make_extension(cas, sub, child, Ghost(tc)) {
                Ok(x) => {
                    proof {
                        gl_sub = x.1@;
                    }
                    x
                },
                Err(e) => {
                    return Err(e);
                },
            }
        };
        proof {
            assert(dl@ == tree_digest(gl_sub));
            assert(stored(gl_sub, cas@));
        }
        slots[li as usize] = Some(dl);
        proof {
            gs = gs.update(li as int, Some(gl_sub));
            assert forall|j: int|
                0 <= j < 16 implies (#[trigger] slots@[j]).deep_view() == (match gs[j] {
                None => None::<Seq<u8>>,
                Some(c) => Some(tree_digest(c)),
            }) by {
                if j == li as int {
                    assert(slots@[j] == Some(dl));
                    assert(gs[j] == Some(gl_sub));
                } else {
                    assert(slots@[j] is None);
                    assert(gs[j] is None);
                }
            }
        }
        let ghost snap1 = cas@;
        let ghost gr_sub = STree::Leaf { path: ra.skip(1), value: value@ };
        if pos + cpl < plen {
            let ri = path[pos + cpl];
            proof {
                assert(ra[0] == path@[pos + cpl]);
                assert(ri < 16);
                assert(ri != li);
            }
            let (dr, gr) = match make_leaf(cas, path, pos + cpl + 1, value) {
                Ok(x) => x,
                Err(e) => {
                    return Err(e);
                },
            };
            proof {
                assert(path@.skip(pos + cpl + 1) =~= ra.skip(1));
                assert(gr@ == gr_sub);
            }
            let ghost slots_pre = slots@;
            let ghost gs_pre = gs;
            slots[ri as usize] = Some(dr);
            proof {
                gs = gs.update(ri as int, Some(gr@));
                assert forall|j: int|
                    0 <= j < 16 implies (#[trigger] slots@[j]).deep_view() == (match gs[j] {
                    None => None::<Seq<u8>>,
                    Some(c) => Some(tree_digest(c)),
                }) by {
                    if j == ri as int {
                        assert(slots@[j] == Some(dr));
                        assert(gs[j] == Some(gr@));
                    } else {
                        assert(slots@[j] == slots_pre[j]);
                        assert(gs[j] == gs_pre[j]);
                        assert(slots_pre[j].deep_view() == (match gs_pre[j] {
                            None => None::<Seq<u8>>,
                            Some(c) => Some(tree_digest(c)),
                        }));
                    }
                }
            }
        } else {
            bval = Some(slice_to_vec(value));
            proof {
                gbval = Some(value@);
            }
        }
        proof {
            lemma_stored_monotone(gl_sub, snap1, cas@);
            assert forall|j: int|
                0 <= j < 16 implies (#[trigger] slots.deep_view()[j]) == (match gs[j] {
                None => None::<Seq<u8>>,
                Some(c) => Some(tree_digest(c)),
            }) by {
                assert(slots.deep_view()[j] == slots@[j].deep_view());
                assert(slots@[j].deep_view() == (match gs[j] {
                    None => None::<Seq<u8>>,
                    Some(c) => Some(tree_digest(c)),
                }));
            }
        }
        let (db, gb) = match make_branch(cas, slots, bval, Ghost(gs)) {
            Ok(x) => x,
            Err(e) => {
                return Err(e);
            },
        };
        let ghost gbt = gb@;
        let (d2, gt2): (Vec<u8>, Ghost<STree>) = if cpl > 0 {
            let prevec = slice_to_vec(slice_subrange(path, pos, pos + cpl));
            proof {
                assert(prevec@ =~= pre);
            }
            match make_extension(cas, prevec, db, Ghost(gbt)) {
                Ok(x) => x,
                Err(e) => {
                    return Err(e);
                },
            }
        } else {
            (db, gb)
        };
        proof {
            assert(gt2@ == splice(pre, gbt));
            assert(stored(gt2@, cas@)) by {
                if cpl == 0 {
                    assert(gt2@ == gbt);
                }
            }
            assert forall|q: Seq<u8>|
                (#[trigger] lookup(gt2@, q)) == (if q == rest {
                    Some(value@)
                } else {
                    lookup(t, q)
                }) by {
                lemma_lookup_splice(pre, gbt, q);
                // whether q lies under the old extension
                let l = gep.len() as int;
                if pre.len() <= q.len() && q.take(pre.len() as int) == pre {
                    let s = q.skip(cpl as int);
                    lemma_eq_split(q, rest, cpl as int);
                    assert((q == rest) <==> (s == ra));
                    if s.len() == 0 {
                        assert(lookup(gbt, s) == gbval);
                        if ra.len() == 0 {
                            assert(s =~= ra);
                        } else {
                            assert(s != ra);
                        }
                        // the old extension cannot match an
                        // exhausted path
                        assert(q.len() < l);
                        assert(lookup(t, q) is None);
                    } else {
                        let x = s[0];
                        if x == li {
                            // under the old extension's remainder
                            assert(gs[x as int] == Some(gl_sub));
                            assert(lookup(gbt, s) == lookup(gl_sub, s.skip(1)));
                            if ra.len() > 0 {
                                assert(x != ra[0]);
                                assert(s != ra);
                            }
                            assert(q != rest);
                            // relate to lookup(t, q)
                            assert(q =~= q.take(cpl as int) + s);
                            if la.len() == 1 {
                                assert(gl_sub == tc);
                                assert((l <= q.len() && q.take(l) == gep) <==> (1
                                    <= s.len() && s.take(1) == la)) by {
                                    lemma_prefix_split(q, gep, cpl as int);
                                }
                                if l <= q.len() && q.take(l) == gep {
                                    assert(s.skip(1) =~= q.skip(l));
                                    assert(lookup(t, q) == lookup(tc, q.skip(l)));
                                } else {
                                    assert(!(1 <= s.len() && s.take(1) == la));
                                    assert(s.take(1) =~= la);
                                    assert(false);
                                }
                            } else {
                                assert(gl_sub == (STree::Extension {
                                    path: la.skip(1),
                                    child: Box::new(tc),
                                }));
                                let m = la.len() as int - 1;
                                assert(lookup(gl_sub, s.skip(1)) == (if m <= s.skip(
                                    1,
                                ).len() && s.skip(1).take(m) == la.skip(1) {
                                    lookup(tc, s.skip(1).skip(m))
                                } else {
                                    None::<Seq<u8>>
                                }));
                                assert((l <= q.len() && q.take(l) == gep) <==> (m <= s.skip(
                                    1,
                                ).len() && s.skip(1).take(m) == la.skip(1))) by {
                                    lemma_prefix_split(q, gep, cpl as int);
                                    assert(s.take(1) =~= la.take(1));
                                    lemma_prefix_split(s, la, 1);
                                }
                                if l <= q.len() && q.take(l) == gep {
                                    assert(s.skip(1).skip(m) =~= q.skip(l));
                                    assert(lookup(t, q) == lookup(tc, q.skip(l)));
                                } else {
                                    assert(lookup(t, q) is None);
                                    assert(lookup(gl_sub, s.skip(1)) is None);
                                }
                            }
                        } else {
                            // not under the old extension
                            assert(!(l <= q.len() && q.take(l) == gep)) by {
                                if l <= q.len() && q.take(l) == gep {
                                    assert(q.take(l)[cpl as int] == q[cpl as int]);
                                    assert(q[cpl as int] == s[0]);
                                    assert(gep[cpl as int] == la[0]);
                                }
                            }
                            assert(lookup(t, q) is None);
                            if ra.len() > 0 && x == ra[0] {
                                assert(gs[x as int] == Some(gr_sub));
                                assert(lookup(gbt, s) == lookup(gr_sub, s.skip(1)));
                                assert(s.take(1) =~= ra.take(1));
                                lemma_eq_split(s, ra, 1);
                            } else {
                                assert(s != ra);
                                if (x as int) < 16 {
                                    assert(gs[x as int] is None);
                                }
                                assert(lookup(gbt, s) is None);
                            }
                        }
                    }
                } else {
                    assert(q != rest) by {
                        if q == rest {
                            assert(q.take(cpl as int) =~= pre);
                        }
                    }
                    assert(!(l <= q.len() && q.take(l) == gep)) by {
                        if l <= q.len() && q.take(l) == gep {
                            assert(q.take(cpl as int) =~= gep.take(cpl as int));
                            assert(q.take(cpl as int) =~= pre);
                        }
                    }
                    assert(lookup(t, q) is None);
                }
            }
        }
        Ok((d2, gt2))
    }

}

/// Inserts at a branch: set the branch value when the key ends here, else
/// descend into (or create) the slot of the next nibble.
#[verifier::rlimit(100)]
fn insert_at_branch(
    cas: &mut Cas,
    nslots: Vec<Option<Vec<u8>>>,
    nval: Option<Vec<u8>>,
    path: &[u8],
    pos: usize,
    value: &[u8],
    Ghost(t): Ghost<STree>,
) -> (r: Result<(Vec<u8>, Ghost<STree>), CasError>)
    requires
        stored(t, old(cas)@),
        pos <= path@.len(),
        valid_path(path@),
        t matches STree::Branch { slots: gs, value: gv } && slot_digests(gs, 0)
            == nslots.deep_view() && gv == nval.deep_view(),
    ensures
        cas_extends(old(cas)@, final(cas)@),
        r is Err ==> collision_detected(final(cas)@),
        r matches Ok(p) ==> hashes_to(p.1@, final(cas)@, p.0@) && (forall|q: Seq<u8>|
            (#[trigger] lookup(p.1@, q)) == (if q == path@.skip(pos as int) {
                Some(value@)
            } else {
                lookup(t, q)
            })),
    decreases t, 0int,
{
    let ghost rest = path@.skip(pos as int);
    let plen: usize = path.len();

    let ghost gslots = t->Branch_slots;
    let ghost gval = t->Branch_value;
    proof {
        assert(t is Branch);
        assert(nslots.deep_view() == slot_digests(gslots, 0));
        lemma_slot_digests_len(gslots, 0);
        assert(nslots@.len() == nslots.deep_view().len());
        assert(gslots.len() == 16);
        assert(nval.deep_view() == gval);
    }
    if pos == plen {
        // the key ends here: set the branch value
        let slots2 = copy_slots(&nslots);
        let ghost gt2 = STree::Branch { slots: gslots, value: Some(value@) };
        proof {
            assert forall|j: int|
                0 <= j < 16 implies (#[trigger] slots2.deep_view()[j]) == (match gslots[j] {
                None => None::<Seq<u8>>,
                Some(c) => Some(tree_digest(c)),
            }) by {
                lemma_slot_digests_index(gslots, 0, j);
            }
            assert forall|j: int|
                0 <= j < 16 implies (#[trigger] gslots[j] matches Some(c) ==> stored(
                c,
                cas@,
            )) by {
                lemma_slots_stored_index(gslots, 0, j, cas@);
            }
        }
        let bv2: Option<Vec<u8>> = Some(slice_to_vec(value));
        proof {
            assert(bv2.deep_view() == Some(value@));
        }
        let (d2, gbx) = match make_branch(cas, slots2, bv2, Ghost(gslots)) {
            Ok(x) => x,
            Err(e) => {
                return Err(e);
            },
        };
        proof {
            assert(gbx@ == gt2);
            assert(rest =~= Seq::<u8>::empty());
            assert forall|q: Seq<u8>|
                (#[trigger] lookup(gt2, q)) == (if q == rest {
                    Some(value@)
                } else {
                    lookup(t, q)
                }) by {
                if q.len() == 0 {
                    assert(q =~= rest);
                } else {
                    assert(q != rest);
                }
            }
        }
        Ok((d2, gbx))
    } else {
        let nib = path[pos];
        proof {
            assert(rest[0] == path@[pos as int]);
            assert(nib < 16);
            lemma_slot_digests_index(gslots, 0, nib as int);
            assert(nslots.deep_view()[nib as int] == slot_digests(gslots, 0)[nib as int]);
            lemma_slots_stored_index(gslots, 0, nib as int, old(cas)@);
        }
        let (dc, gc2) = match &nslots[nib as usize] {
            Some(d) => {
                let ghost tcs = gslots[nib as int]->0;
                proof {
                    assert(gslots[nib as int] is Some);
                    assert(d@ == tree_digest(tcs));
                }
                match insert_node(cas, d.as_slice(), path, pos + 1, value, Ghost(tcs)) {
                    Ok(x) => x,
                    Err(e) => {
                        return Err(e);
                    },
                }
            },
            None => {
                proof {
                    assert(gslots[nib as int] is None);
                }
                match make_leaf(cas, path, pos + 1, value) {
                    Ok(x) => x,
                    Err(e) => {
                        return Err(e);
                    },
                }
            },
        };
        let ghost gsub = gc2@;
        let mut slots2 = copy_slots(&nslots);
        let ghost cpre = slots2@;
        slots2[nib as usize] = Some(dc);
        let ghost gs2 = gslots.update(nib as int, Some(gsub));
        proof {
            assert forall|j: int|
                0 <= j < 16 implies (#[trigger] slots2.deep_view()[j]) == (match gs2[j] {
                None => None::<Seq<u8>>,
                Some(c) => Some(tree_digest(c)),
            }) by {
                assert(slots2.deep_view()[j] == slots2@[j].deep_view());
                if j != nib as int {
                    assert(slots2@[j] == cpre[j]);
                    assert(cpre[j].deep_view() == nslots.deep_view()[j]);
                    assert(nslots.deep_view()[j] == slot_digests(gslots, 0)[j]);
                    lemma_slot_digests_index(gslots, 0, j);
                    assert(gs2[j] == gslots[j]);
                } else {
                    assert(slots2@[j] == Some(dc));
                    assert(gs2[j] == Some(gsub));
                    assert(dc@ == tree_digest(gsub));
                }
            }
            assert forall|j: int|
                0 <= j < 16 implies (#[trigger] gs2[j] matches Some(c) ==> stored(
                c,
                cas@,
            )) by {
                if j != nib as int {
                    lemma_slots_stored_index(gslots, 0, j, old(cas)@);
                    match gslots[j] {
                        Some(c) => {
                            lemma_stored_monotone(c, old(cas)@, cas@);
                        },
                        None => {},
                    }
                }
            }
        }
        let ghost mid = cas@;
        let nv2 = match &nval {
            None => None,
            Some(b) => Some(slice_to_vec(b.as_slice())),
        };
        let (d2, gb) = match make_branch(cas, slots2, nv2, Ghost(gs2)) {
            Ok(x) => x,
            Err(e) => {
                return Err(e);
            },
        };
        let ghost gt2 = gb@;
        proof {
            assert(gt2 == (STree::Branch { slots: gs2, value: gval }));
            assert forall|q: Seq<u8>|
                (#[trigger] lookup(gt2, q)) == (if q == rest {
                    Some(value@)
                } else {
                    lookup(t, q)
                }) by {
                if q.len() == 0 {
                    assert(q != rest);
                    assert(lookup(gt2, q) == gval);
                    assert(lookup(t, q) == gval);
                } else {
                    let x = q[0];
                    lemma_eq_split(q, rest, 1);
                    assert(rest.skip(1) =~= path@.skip((pos + 1) as int));
                    if x == nib {
                        assert(gs2[x as int] == Some(gsub));
                        assert(lookup(gt2, q) == lookup(gsub, q.skip(1)));
                        assert((q == rest) <==> (q.skip(1) == rest.skip(1))) by {
                            assert(q.take(1) =~= rest.take(1));
                        }
                        match gslots[nib as int] {
                            Some(tcs) => {
                                assert(lookup(t, q) == lookup(tcs, q.skip(1)));
                            },
                            None => {
                                assert(lookup(t, q) is None);
                                assert(gsub == (STree::Leaf {
                                    path: rest.skip(1),
                                    value: value@,
                                }));
                            },
                        }
                    } else {
                        assert(q != rest) by {
                            if q == rest {
                                assert(q[0] == rest[0]);
                            }
                        }
                        if (x as int) < 16 {
                            assert(gs2[x as int] == gslots[x as int]);
                        }
                        assert(lookup(gt2, q) == lookup(t, q));
                    }
                }
            }
        }
        Ok((d2, gb))
    }

}

/// Inserts `value` at the suffix of `path` from `pos` into the persisted
/// subtree named by `digest`, building and persisting new nodes; the old
/// subtree stays untouched in the store.
fn insert_node(
    cas: &mut Cas,
    digest: &[u8],
    path: &[u8],
    pos: usize,
    value: &[u8],
    Ghost(t): Ghost<STree>,
) -> (r: Result<(Vec<u8>, Ghost<STree>), CasError>)
    requires
        hashes_to(t, old(cas)@, digest@),
        pos <= path@.len(),
        valid_path(path@),
    ensures
        cas_extends(old(cas)@, final(cas)@),
        r is Err ==> collision_detected(final(cas)@),
        r matches Ok(p) ==> hashes_to(p.1@, final(cas)@, p.0@) && (forall|q: Seq<u8>|
            (#[trigger] lookup(p.1@, q)) == (if q == path@.skip(pos as int) {
                Some(value@)
            } else {
                lookup(t, q)
            })),
    decreases t, 1int,
{
    let node = match cas.get_node(digest) {
        Some(n) => clone_node(n),
        None => {
            proof {
                assert(false);
            }
            return Err(CasError::Corrupted);
        },
    };
    proof {
        lemma_enc_injective(node@, flat_of(t));
    }
    match node {
        Node::Leaf { path: lp, value: lv } => {
            proof {
                if t is Extension {
                    assert(flat_of(t) is Extension);
                }
                if t is Branch {
                    assert(flat_of(t) is Branch);
                }
                assert(t is Leaf);
            }
            insert_at_leaf(cas, lp, lv, path, pos, value, Ghost(t))
        },
        Node::Extension { path: ep, child } => {
            proof {
                if t is Leaf {
                    assert(flat_of(t) is Leaf);
                }
                if t is Branch {
                    assert(flat_of(t) is Branch);
                }
                assert(t is Extension);
            }
            insert_at_ext(cas, ep, child, path, pos, value, Ghost(t))
        },
        Node::Branch { slots: nslots, value: nval } => {
            proof {
                if t is Leaf {
                    assert(flat_of(t) is Leaf);
                }
                if t is Extension {
                    assert(flat_of(t) is Extension);
                }
                assert(t is Branch);
            }
            insert_at_branch(cas, nslots, nval, path, pos, value, Ghost(t))
        },
    }
}

/// Re-canonicalizes a subtree under a nonempty prefix: a leaf or extension
/// child is merged with the prefix into a single node, a branch child gets
/// an extension above it.
#[verifier::rlimit(100)]
fn collapse_extension(
    cas: &mut Cas,
    pre: Vec<u8>,
    child_digest: Vec<u8>,
    Ghost(tc): Ghost<STree>,
) -> (r: Result<(Vec<u8>, Ghost<STree>), CasError>)
    requires
        pre@.len() > 0,
        valid_path(pre@),
        stored(tc, old(cas)@),
        child_digest@ == tree_digest(tc),
    ensures
        cas_extends(old(cas)@, final(cas)@),
        r is Err ==> collision_detected(final(cas)@),
        r matches Ok(p) ==> hashes_to(p.1@, final(cas)@, p.0@) && (forall|q: Seq<u8>|
            (#[trigger] lookup(p.1@, q)) == (if pre@.len() <= q.len() && q.take(pre@.len() as int)
                == pre@ {
                lookup(tc, q.skip(pre@.len() as int))
            } else {
                None::<Seq<u8>>
            })),
{
    let ghost gpre = pre@;
    let l1: usize = pre.len();
    let node = match cas.get_node(child_digest.as_slice()) {
        Some(n) => clone_node(n),
        None => {
            proof {
                assert(false);
            }
            return Err(CasError::Corrupted);
        },
    };
    proof {
        lemma_enc_injective(node@, flat_of(tc));
    }
    match node {
        Node::Leaf { path: lp, value: lv } => {
            proof {
                if tc is Extension {
                    assert(flat_of(tc) is Extension);
                }
                if tc is Branch {
                    assert(flat_of(tc) is Branch);
                }
                assert(tc == (STree::Leaf { path: lp@, value: lv@ }));
            }
            let ghost glp = lp@;
            let mut merged = pre;
            push_all(&mut merged, lp.as_slice());
            let ghost gt2 = STree::Leaf { path: gpre + glp, value: lv@ };
            let mnode = Node::Leaf { path: merged, value: lv };
            proof {
                assert(flat_of(gt2) == mnode@);
                assert(valid_path(gpre + glp)) by {
                    assert forall|i: int| 0 <= i < (gpre + glp).len() implies (gpre + glp)[i]
                        < 16 by {}
                }
            }
            match cas.put_node(mnode) {
                Ok(d2) => {
                    proof {
                        assert(tree_digest(gt2) == d2@);
                        assert(cas@[d2@] == tree_enc(gt2));
                        assert((gpre + glp).take(l1 as int) =~= gpre);
                        assert((gpre + glp).skip(l1 as int) =~= glp);
                        assert forall|q: Seq<u8>|
                            (#[trigger] lookup(gt2, q)) == (if gpre.len() <= q.len() && q.take(
                                gpre.len() as int,
                            ) == gpre {
                                lookup(tc, q.skip(gpre.len() as int))
                            } else {
                                None::<Seq<u8>>
                            }) by {
                            if gpre.len() <= q.len() && q.take(l1 as int) == gpre {
                                lemma_eq_split(q, gpre + glp, l1 as int);
                            } else {
                                assert(q != gpre + glp) by {
                                    if q == gpre + glp {
                                        assert(q.take(l1 as int) =~= gpre);
                                    }
                                }
                            }
                        }
                    }
                    Ok((d2, Ghost(gt2)))
                },
                Err(e) => Err(e),
            }
        },
        Node::Extension { path: ep, child: ec } => {
            proof {
                if tc is Leaf {
                    assert(flat_of(tc) is Leaf);
                }
                if tc is Branch {
                    assert(flat_of(tc) is Branch);
                }
                assert(tc is Extension);
            }
            let ghost gc2 = *tc->Extension_child;
            let ghost gep = ep@;
            proof {
                assert(tc == (STree::Extension { path: gep, child: Box::new(gc2) }));
                assert(ec@ == tree_digest(gc2));
                assert(stored(gc2, old(cas)@));
            }
            let mut merged = pre;
            push_all(&mut merged, ep.as_slice());
            proof {
                assert(valid_path(merged@)) by {
                    assert forall|i: int| 0 <= i < merged@.len() implies merged@[i] < 16 by {}
                }
            }
            match make_extension(cas, merged, ec, Ghost(gc2)) {
                Ok((d2, gt2)) => {
                    proof {
                        let whole = gpre + gep;
                        let l2 = gep.len() as int;
                        assert(gt2@ == (STree::Extension { path: whole, child: Box::new(gc2) }));
                        assert(whole.take(l1 as int) =~= gpre);
                        assert(whole.skip(l1 as int) =~= gep);
                        assert forall|q: Seq<u8>|
                            (#[trigger] lookup(gt2@, q)) == (if gpre.len() <= q.len() && q.take(
                                gpre.len() as int,
                            ) == gpre {
                                lookup(tc, q.skip(gpre.len() as int))
                            } else {
                                None::<Seq<u8>>
                            }) by {
                            if gpre.len() <= q.len() && q.take(l1 as int) == gpre {
                                let s = q.skip(l1 as int);
                                lemma_prefix_split(q, whole, l1 as int);
                                assert((whole.len() <= q.len() && q.take(whole.len() as int)
                                    == whole) <==> (l2 <= s.len() && s.take(l2) == gep));
                                if whole.len() <= q.len() && q.take(whole.len() as int) == whole {
                                    assert(q.skip(whole.len() as int) =~= s.skip(l2));
                                }
                            } else {
                                assert(!(whole.len() <= q.len() && q.take(whole.len() as int)
                                    == whole)) by {
                                    if whole.len() <= q.len() && q.take(whole.len() as int)
                                        == whole {
                                        assert(q.take(l1 as int) =~= whole.take(l1 as int));
                                        assert(q.take(l1 as int) =~= gpre);
                                    }
                                }
                            }
                        }
                    }
                    Ok((d2, gt2))
                },
                Err(e) => Err(e),
            }
        },
        Node::Branch { .. } => {
            proof {
                if tc is Leaf {
                    assert(flat_of(tc) is Leaf);
                }
                if tc is Extension {
                    assert(flat_of(tc) is Extension);
                }
                assert(tc is Branch);
            }
            match make_extension(cas, pre, child_digest, Ghost(tc)) {
                Ok((d2, gt2)) => {
                    proof {
                        assert forall|q: Seq<u8>|
                            (#[trigger] lookup(gt2@, q)) == (if gpre.len() <= q.len() && q.take(
                                gpre.len() as int,
                            ) == gpre {
                                lookup(tc, q.skip(gpre.len() as int))
                            } else {
                                None::<Seq<u8>>
                            }) by {}
                    }
                    Ok((d2, gt2))
                },
                Err(e) => Err(e),
            }
        },
    }
}

/// Counts the occupied slots of a branch; when exactly one slot is
/// occupied, also reports which.
fn count_children(slots: &Vec<Option<Vec<u8>>>, Ghost(gslots): Ghost<Seq<Option<STree>>>) -> (r: (
    usize,
    Option<usize>,
))
    requires
        slots@.len() == 16,
        gslots.len() == 16,
        forall|j: int| 0 <= j < 16 ==> ((#[trigger] slots@[j]) is Some <==> gslots[j] is Some),
    ensures
        r.0 == 0 ==> forall|j: int| 0 <= j < 16 ==> (#[trigger] gslots[j]) is None,
        r.0 == 1 ==> (r.1 matches Some(i) && i < 16 && gslots[i as int] is Some && (forall|
            j: int,
        |
            0 <= j < 16 && j != i ==> (#[trigger] gslots[j]) is None)),
{
    let mut count: usize = 0;
    let mut found: Option<usize> = None;
    let mut i: usize = 0;
    while i < 16
        invariant
            i <= 16,
            slots@.len() == 16,
            gslots.len() == 16,
            forall|j: int| 0 <= j < 16 ==> ((#[trigger] slots@[j]) is Some <==> gslots[j] is Some),
            count <= i,
            count == 0 ==> found is None && (forall|j: int|
                0 <= j < i ==> (#[trigger] gslots[j]) is None),
            count == 1 ==> (found matches Some(k) && k < i && gslots[k as int] is Some && (forall|
                j: int,
            |
                0 <= j < i && j != k ==> (#[trigger] gslots[j]) is None)),
        decreases 16 - i,
    {
        if slots[i].is_some() {
            if count < 16 {
                count = count + 1;
            }
            found = Some(i);
        }
        i = i + 1;
    }
    (count, found)
}

/// Removes the suffix of `path` from `pos` out of the persisted subtree
/// named by `digest`. The result is the replacement subtree's digest, or
/// nothing when the subtree became empty; the old subtree stays untouched
/// in the store.
#[verifier::rlimit(100)]
fn remove_node(
    cas: &mut Cas,
    digest: &[u8],
    path: &[u8],
    pos: usize,
    Ghost(t): Ghost<STree>,
) -> (r: Result<Option<(Vec<u8>, Ghost<STree>)>, CasError>)
    requires
        hashes_to(t, old(cas)@, digest@),
        pos <= path@.len(),
        valid_path(path@),
    ensures
        cas_extends(old(cas)@, final(cas)@),
        r is Err ==> collision_detected(final(cas)@),
        r matches Ok(res) ==> (match res {
            None => forall|q: Seq<u8>|
                q != path@.skip(pos as int) ==> (#[trigger] lookup(t, q)) is None,
            Some(p) => hashes_to(p.1@, final(cas)@, p.0@) && (forall|q: Seq<u8>|
                (#[trigger] lookup(p.1@, q)) == (if q == path@.skip(pos as int) {
                    None::<Seq<u8>>
                } else {
                    lookup(t, q)
                })),
        }),
    decreases t, 1int,
{
    let ghost rest = path@.skip(pos as int);
    let plen: usize = path.len();
    let node = match cas.get_node(digest) {
        Some(n) => clone_node(n),
        None => {
            proof {
                assert(false);
            }
            return Err(CasError::Corrupted);
        },
    };
    proof {
        lemma_enc_injective(node@, flat_of(t));
    }
    match node {
        Node::Leaf { path: lp, value: lv } => {
            proof {
                if t is Extension {
                    assert(flat_of(t) is Extension);
                }
                if t is Branch {
                    assert(flat_of(t) is Branch);
                }
                assert(t == (STree::Leaf { path: lp@, value: lv@ }));
            }
            if suffix_matches(path, pos, lp.as_slice()) {
                Ok(None)
            } else {
                Ok(Some((slice_to_vec(digest), Ghost(t))))
            }
        },
        Node::Extension { path: ep, child } => {
            proof {
                if t is Leaf {
                    assert(flat_of(t) is Leaf);
                }
                if t is Branch {
                    assert(flat_of(t) is Branch);
                }
                assert(t is Extension);
            }
            remove_at_ext(cas, digest, ep, child, path, pos, Ghost(t))
        },
        Node::Branch { slots: nslots, value: nval } => {
            proof {
                if t is Leaf {
                    assert(flat_of(t) is Leaf);
                }
                if t is Extension {
                    assert(flat_of(t) is Extension);
                }
                assert(t is Branch);
            }
            remove_at_branch(cas, digest, nslots, nval, path, pos, Ghost(t))
        },
    }
}

/// Removes under an extension, merging the rebuilt child with the prefix
/// so no extension chain is left behind.
#[verifier::rlimit(100)]
fn remove_at_ext(
    cas: &mut Cas,
    digest: &[u8],
    ep: Vec<u8>,
    child: Vec<u8>,
    path: &[u8],
    pos: usize,
    Ghost(t): Ghost<STree>,
) -> (r: Result<Option<(Vec<u8>, Ghost<STree>)>, CasError>)
    requires
        stored(t, old(cas)@),
        pos <= path@.len(),
        valid_path(path@),
        t matches STree::Extension { path: p, child: c } && p == ep@ && tree_digest(*c) == child@,
        digest@ == tree_digest(t),
    ensures
        cas_extends(old(cas)@, final(cas)@),
        r is Err ==> collision_detected(final(cas)@),
        r matches Ok(res) ==> (match res {
            None => forall|q: Seq<u8>|
                q != path@.skip(pos as int) ==> (#[trigger] lookup(t, q)) is None,
            Some(p) => hashes_to(p.1@, final(cas)@, p.0@) && (forall|q: Seq<u8>|
                (#[trigger] lookup(p.1@, q)) == (if q == path@.skip(pos as int) {
                    None::<Seq<u8>>
                } else {
                    lookup(t, q)
                })),
        }),
    decreases t, 0int,
{
    let ghost rest = path@.skip(pos as int);
    let plen: usize = path.len();
    let ghost gep = ep@;
    let ghost tc = *t->Extension_child;
    let ghost l = gep.len() as int;
    proof {
        assert(t == (STree::Extension { path: gep, child: Box::new(tc) }));
        assert(stored(tc, old(cas)@));
    }
    if !prefix_matches(path, pos, ep.as_slice()) {
        // the key does not run through this extension: nothing changes
        proof {
            assert(lookup(t, rest) is None);
        }
        return Ok(Some((slice_to_vec(digest), Ghost(t))));
    }
    let sub = match remove_node(cas, child.as_slice(), path, pos + ep.len(), Ghost(tc)) {
        Ok(x) => x,
        Err(e) => {
            return Err(e);
        },
    };
    proof {
        assert(rest.take(l) =~= gep);
        assert(path@.skip((pos + gep.len()) as int) =~= rest.skip(l));
    }
    match sub {
        None => {
            proof {
                assert forall|q: Seq<u8>|
                    q != rest implies (#[trigger] lookup(t, q)) is None by {
                    assert(l <= rest.len());
                    if l <= q.len() && q.take(l) == gep {
                        lemma_eq_split(q, rest, l);
                        assert(q.skip(l) != rest.skip(l));
                        assert(lookup(t, q) == lookup(tc, q.skip(l)));
                        assert(lookup(tc, q.skip(l)) is None);
                    } else {
                        assert(lookup(t, q) is None);
                    }
                }
            }
            Ok(None)
        },
        Some((dc, tc2)) => {
            if ep.len() == 0 {
                // an empty prefix adds nothing; hand the child up
                proof {
                    assert forall|q: Seq<u8>|
                        (#[trigger] lookup(tc2@, q)) == (if q == rest {
                            None::<Seq<u8>>
                        } else {
                            lookup(t, q)
                        }) by {
                        assert(q.take(0) =~= gep);
                        assert(q.skip(0) =~= q);
                        assert(lookup(t, q) == lookup(tc, q));
                        assert(rest.skip(l) =~= rest);
                    }
                }
                return Ok(Some((dc, tc2)));
            }
            match collapse_extension(cas, ep, dc, Ghost(tc2@)) {
                Ok((d2, gt2)) => {
                    proof {
                        assert forall|q: Seq<u8>|
                            (#[trigger] lookup(gt2@, q)) == (if q == rest {
                                None::<Seq<u8>>
                            } else {
                                lookup(t, q)
                            }) by {
                            if l <= q.len() && q.take(l) == gep {
                                lemma_eq_split(q, rest, l);
                                assert(lookup(gt2@, q) == lookup(tc2@, q.skip(l)));
                                assert(lookup(t, q) == lookup(tc, q.skip(l)));
                            } else {
                                assert(lookup(gt2@, q) is None);
                                assert(lookup(t, q) is None);
                                assert(q != rest) by {
                                    if q == rest {
                                        assert(q.take(l) =~= gep);
                                    }
                                }
                            }
                        }
                    }
                    Ok(Some((d2, gt2)))
                },
                Err(e) => Err(e),
            }
        },
    }
}

/// Removes at a branch: drop the branch value when the key ends here, else
/// descend into the slot of the next nibble; afterwards collapse a branch
/// left with a single child and no value.
#[verifier::rlimit(100)]
fn remove_at_branch(
    cas: &mut Cas,
    digest: &[u8],
    nslots: Vec<Option<Vec<u8>>>,
    nval: Option<Vec<u8>>,
    path: &[u8],
    pos: usize,
    Ghost(t): Ghost<STree>,
) -> (r: Result<Option<(Vec<u8>, Ghost<STree>)>, CasError>)
    requires
        stored(t, old(cas)@),
        pos <= path@.len(),
        valid_path(path@),
        t matches STree::Branch { slots: gs, value: gv } && slot_digests(gs, 0)
            == nslots.deep_view() && gv == nval.deep_view(),
        digest@ == tree_digest(t),
    ensures
        cas_extends(old(cas)@, final(cas)@),
        r is Err ==> collision_detected(final(cas)@),
        r matches Ok(res) ==> (match res {
            None => forall|q: Seq<u8>|
                q != path@.skip(pos as int) ==> (#[trigger] lookup(t, q)) is None,
            Some(p) => hashes_to(p.1@, final(cas)@, p.0@) && (forall|q: Seq<u8>|
                (#[trigger] lookup(p.1@, q)) == (if q == path@.skip(pos as int) {
                    None::<Seq<u8>>
                } else {
                    lookup(t, q)
                })),
        }),
    decreases t, 0int,
{
    let ghost rest = path@.skip(pos as int);
    let plen: usize = path.len();
    let ghost gslots = t->Branch_slots;
    let ghost gval = t->Branch_value;
    proof {
        assert(nslots.deep_view() == slot_digests(gslots, 0));
        lemma_slot_digests_len(gslots, 0);
        assert(nslots@.len() == nslots.deep_view().len());
        assert(gslots.len() == 16);
        assert(nval.deep_view() == gval);
        assert forall|j: int|
            0 <= j < 16 implies ((#[trigger] nslots@[j]) is Some <==> gslots[j] is Some) by {
            lemma_slot_digests_index(gslots, 0, j);
            assert(nslots@[j].deep_view() == nslots.deep_view()[j]);
        }
    }
    if pos == plen {
        proof {
            assert(rest =~= Seq::<u8>::empty());
        }
        if nval.is_none() {
            // the key carries no value here: nothing changes
            proof {
                assert(lookup(t, rest) is None);
            }
            return Ok(Some((slice_to_vec(digest), Ghost(t))));
        }
        let (count, fidx) = count_children(&nslots, Ghost(gslots));
        if count == 0 {
            proof {
                assert forall|q: Seq<u8>| q != rest implies (#[trigger] lookup(t, q)) is None by {
                    if q.len() == 0 {
                        assert(q =~= rest);
                    }
                    if q.len() > 0 && (q[0] as int) < 16 {
                        assert(gslots[q[0] as int] is None);
                    }
                }
            }
            Ok(None)
        } else if count == 1 {
            let i = match fidx {
                Some(i) => i,
                None => {
                    proof {
                        assert(false);
                    }
                    return Err(CasError::Corrupted);
                },
            };
            let di = match &nslots[i] {
                Some(d) => slice_to_vec(d.as_slice()),
                None => {
                    proof {
                        assert(false);
                    }
                    return Err(CasError::Corrupted);
                },
            };
            let ghost ci = gslots[i as int]->0;
            proof {
                lemma_slot_digests_index(gslots, 0, i as int);
                assert(nslots@[i as int].deep_view() == nslots.deep_view()[i as int]);
                assert(di@ == tree_digest(ci));
                lemma_slots_stored_index(gslots, 0, i as int, cas@);
            }
            let mut pre: Vec<u8> = Vec::new();
            pre.push(i as u8);
            let ghost gpre = pre@;
            match collapse_extension(cas, pre, di, Ghost(ci)) {
                Ok((d2, gt2)) => {
                    proof {
                        assert(gpre =~= seq![i as u8]);
                        assert forall|q: Seq<u8>|
                            (#[trigger] lookup(gt2@, q)) == (if q == rest {
                                None::<Seq<u8>>
                            } else {
                                lookup(t, q)
                            }) by {
                            if q.len() == 0 {
                                assert(q =~= rest);
                                assert(lookup(gt2@, q) is None);
                            } else {
                                assert(q != rest);
                                let x = q[0];
                                if x == i as u8 {
                                    assert(q.take(1) =~= gpre);
                                    assert(lookup(gt2@, q) == lookup(ci, q.skip(1)));
                                    assert(lookup(t, q) == lookup(ci, q.skip(1)));
                                } else {
                                    assert(q.take(1) != gpre) by {
                                        if q.take(1) == gpre {
                                            assert(q.take(1)[0] == q[0]);
                                        }
                                    }
                                    assert(lookup(gt2@, q) is None);
                                    if (x as int) < 16 {
                                        assert(gslots[x as int] is None);
                                    }
                                    assert(lookup(t, q) is None);
                                }
                            }
                        }
                    }
                    Ok(Some((d2, gt2)))
                },
                Err(e) => Err(e),
            }
        } else {
            // at least two children stay: keep the branch, drop its value
            let slots2 = copy_slots(&nslots);
            proof {
                assert forall|j: int|
                    0 <= j < 16 implies (#[trigger] slots2.deep_view()[j]) == (match gslots[j] {
                    None => None::<Seq<u8>>,
                    Some(c) => Some(tree_digest(c)),
                }) by {
                    lemma_slot_digests_index(gslots, 0, j);
                }
                assert forall|j: int|
                    0 <= j < 16 implies (#[trigger] gslots[j] matches Some(c) ==> stored(
                    c,
                    cas@,
                )) by {
                    lemma_slots_stored_index(gslots, 0, j, cas@);
                }
            }
            let (d2, gbx) = match make_branch(cas, slots2, None, Ghost(gslots)) {
                Ok(x) => x,
                Err(e) => {
                    return Err(e);
                },
            };
            proof {
                assert(gbx@ == (STree::Branch { slots: gslots, value: None }));
                assert forall|q: Seq<u8>|
                    (#[trigger] lookup(gbx@, q)) == (if q == rest {
                        None::<Seq<u8>>
                    } else {
                        lookup(t, q)
                    }) by {
                    if q.len() == 0 {
                        assert(q =~= rest);
                    } else {
                        assert(q != rest);
                    }
                }
            }
            Ok(Some((d2, gbx)))
        }
    } else {
        let nib = path[pos];
        proof {
            assert(rest[0] == path@[pos as int]);
            assert(nib < 16);
            lemma_slot_digests_index(gslots, 0, nib as int);
            assert(nslots@[nib as int].deep_view() == nslots.deep_view()[nib as int]);
            lemma_slots_stored_index(gslots, 0, nib as int, cas@);
            assert(rest.skip(1) =~= path@.skip((pos + 1) as int));
        }
        let d = match &nslots[nib as usize] {
            Some(d) => d,
            None => {
                // no subtree for this nibble: nothing changes
                proof {
                    assert(gslots[nib as int] is None);
                    assert(lookup(t, rest) is None);
                }
                return Ok(Some((slice_to_vec(digest), Ghost(t))));
            },
        };
        let ghost ci = gslots[nib as int]->0;
        proof {
            assert(d@ == tree_digest(ci));
        }
        let sub = match remove_node(cas, d.as_slice(), path, pos + 1, Ghost(ci)) {
            Ok(x) => x,
            Err(e) => {
                return Err(e);
            },
        };
        match sub {
            Some((dc, tc2)) => {
                // the subtree stays: swap the rebuilt child in
                let mut slots2 = copy_slots(&nslots);
                let ghost cpre = slots2@;
                slots2[nib as usize] = Some(dc);
                let ghost gs2 = gslots.update(nib as int, Some(tc2@));
                proof {
                    assert forall|j: int|
                        0 <= j < 16 implies (#[trigger] slots2.deep_view()[j]) == (match gs2[j] {
                        None => None::<Seq<u8>>,
                        Some(c) => Some(tree_digest(c)),
                    }) by {
                        assert(slots2.deep_view()[j] == slots2@[j].deep_view());
                        if j != nib as int {
                            assert(slots2@[j] == cpre[j]);
                            assert(cpre[j].deep_view() == nslots.deep_view()[j]);
                            lemma_slot_digests_index(gslots, 0, j);
                            assert(gs2[j] == gslots[j]);
                        } else {
                            assert(slots2@[j] == Some(dc));
                            assert(gs2[j] == Some(tc2@));
                            assert(dc@ == tree_digest(tc2@));
                        }
                    }
                    assert forall|j: int|
                        0 <= j < 16 implies (#[trigger] gs2[j] matches Some(c) ==> stored(
                        c,
                        cas@,
                    )) by {
                        if j != nib as int {
                            lemma_slots_stored_index(gslots, 0, j, old(cas)@);
                            match gslots[j] {
                                Some(c) => {
                                    lemma_stored_monotone(c, old(cas)@, cas@);
                                },
                                None => {},
                            }
                        }
                    }
                }
                let nv2 = match &nval {
                    None => None,
                    Some(b) => Some(slice_to_vec(b.as_slice())),
                };
                proof {
                    assert(nv2.deep_view() == gval);
                }
                let (d2, gbx) = match make_branch(cas, slots2, nv2, Ghost(gs2)) {
                    Ok(x) => x,
                    Err(e) => {
                        return Err(e);
                    },
                };
                proof {
                    assert(gbx@ == (STree::Branch { slots: gs2, value: gval }));
                    assert forall|q: Seq<u8>|
                        (#[trigger] lookup(gbx@, q)) == (if q == rest {
                            None::<Seq<u8>>
                        } else {
                            lookup(t, q)
                        }) by {
                        if q.len() == 0 {
                            assert(q != rest);
                        } else {
                            let x = q[0];
                            if x == nib {
                                assert(gs2[x as int] == Some(tc2@));
                                assert(lookup(gbx@, q) == lookup(tc2@, q.skip(1)));
                                assert(lookup(t, q) == lookup(ci, q.skip(1)));
                                assert(q.take(1) =~= rest.take(1));
                                lemma_eq_split(q, rest, 1);
                            } else {
                                assert(q != rest) by {
                                    if q == rest {
                                        assert(q[0] == rest[0]);
                                    }
                                }
                                if (x as int) < 16 {
                                    assert(gs2[x as int] == gslots[x as int]);
                                }
                                assert(lookup(gbx@, q) == lookup(t, q));
                            }
                        }
                    }
                }
                Ok(Some((d2, gbx)))
            },
            None => {
                // the subtree vanished: clear the slot, then re-canonicalize
                let mut slots2 = copy_slots(&nslots);
                let ghost cpre = slots2@;
                slots2[nib as usize] = None;
                let ghost gs2 = gslots.update(nib as int, None::<STree>);
                proof {
                    assert forall|j: int|
                        0 <= j < 16 implies ((#[trigger] slots2@[j]) is Some <==> gs2[j] is Some) by {
                        if j != nib as int {
                            assert(slots2@[j] == cpre[j]);
                            assert(cpre[j].deep_view() == nslots.deep_view()[j]);
                            lemma_slot_digests_index(gslots, 0, j);
                            assert(gs2[j] == gslots[j]);
                        }
                    }
                }
                let (count, fidx) = count_children(&slots2, Ghost(gs2));
                if count == 0 && nval.is_none() {
                    proof {
                        assert forall|q: Seq<u8>|
                            q != rest implies (#[trigger] lookup(t, q)) is None by {
                            if q.len() > 0 {
                                let x = q[0];
                                if x == nib {
                                    assert(q.take(1) =~= rest.take(1));
                                    lemma_eq_split(q, rest, 1);
                                    assert(lookup(ci, q.skip(1)) is None);
                                } else if (x as int) < 16 {
                                    assert(gs2[x as int] is None);
                                    assert(gslots[x as int] is None);
                                }
                            }
                        }
                    }
                    Ok(None)
                } else if count == 0 {
                    // only the branch value stays: it becomes a leaf with an
                    // empty suffix
                    let v = match nval {
                        Some(v) => v,
                        None => {
                            proof {
                                assert(false);
                            }
                            return Err(CasError::Corrupted);
                        },
                    };
                    let ghost gv0 = v@;
                    let lnode = Node::Leaf { path: Vec::new(), value: v };
                    let ghost gt2 = STree::Leaf { path: Seq::<u8>::empty(), value: gv0 };
                    proof {
                        assert(gval == Some(gv0));
                        assert(flat_of(gt2) == lnode@);
                    }
                    match cas.put_node(lnode) {
                        Ok(d2) => {
                            proof {
                                assert(tree_digest(gt2) == d2@);
                                assert(cas@[d2@] == tree_enc(gt2));
                                assert forall|q: Seq<u8>|
                                    (#[trigger] lookup(gt2, q)) == (if q == rest {
                                        None::<Seq<u8>>
                                    } else {
                                        lookup(t, q)
                                    }) by {
                                    if q.len() == 0 {
                                        assert(q =~= Seq::<u8>::empty());
                                        assert(q != rest);
                                        assert(lookup(gt2, q) == Some(gv0));
                                        assert(lookup(t, q) == gval);
                                    } else {
                                        assert(q != Seq::<u8>::empty());
                                        assert(lookup(gt2, q) is None);
                                        let x = q[0];
                                        if x == nib {
                                            assert(q.take(1) =~= rest.take(1));
                                            lemma_eq_split(q, rest, 1);
                                            if q != rest {
                                                assert(lookup(ci, q.skip(1)) is None);
                                            }
                                            assert(lookup(t, q) == lookup(ci, q.skip(1)));
                                        } else {
                                            assert(q != rest) by {
                                                if q == rest {
                                                    assert(q[0] == rest[0]);
                                                }
                                            }
                                            if (x as int) < 16 {
                                                assert(gs2[x as int] is None);
                                                assert(gslots[x as int] is None);
                                            }
                                            assert(lookup(t, q) is None);
                                        }
                                    }
                                }
                            }
                            Ok(Some((d2, Ghost(gt2))))
                        },
                        Err(e) => Err(e),
                    }
                } else if count == 1 && nval.is_none() {
                    // a single child stays and no value: collapse
                    let i = match fidx {
                        Some(i) => i,
                        None => {
                            proof {
                                assert(false);
                            }
                            return Err(CasError::Corrupted);
                        },
                    };
                    let di = match &slots2[i] {
                        Some(d) => slice_to_vec(d.as_slice()),
                        None => {
                            proof {
                                assert(false);
                            }
                            return Err(CasError::Corrupted);
                        },
                    };
                    let ghost cj = gs2[i as int]->0;
                    proof {
                        assert(i != nib as usize);
                        assert(slots2@[i as int] == cpre[i as int]);
                        assert(cpre[i as int].deep_view() == nslots.deep_view()[i as int]);
                        lemma_slot_digests_index(gslots, 0, i as int);
                        assert(gs2[i as int] == gslots[i as int]);
                        assert(di@ == tree_digest(cj));
                        lemma_slots_stored_index(gslots, 0, i as int, old(cas)@);
                        lemma_stored_monotone(cj, old(cas)@, cas@);
                    }
                    let mut pre: Vec<u8> = Vec::new();
                    pre.push(i as u8);
                    let ghost gpre = pre@;
                    match collapse_extension(cas, pre, di, Ghost(cj)) {
                        Ok((d2, gt2)) => {
                            proof {
                                assert(gpre =~= seq![i as u8]);
                                assert forall|q: Seq<u8>|
                                    (#[trigger] lookup(gt2@, q)) == (if q == rest {
                                        None::<Seq<u8>>
                                    } else {
                                        lookup(t, q)
                                    }) by {
                                    if q.len() == 0 {
                                        assert(q != rest);
                                        assert(lookup(gt2@, q) is None);
                                        assert(lookup(t, q) == gval);
                                    } else {
                                        let x = q[0];
                                        if x == i as u8 {
                                            assert(q.take(1) =~= gpre);
                                            assert(lookup(gt2@, q) == lookup(cj, q.skip(1)));
                                            assert(lookup(t, q) == lookup(cj, q.skip(1)));
                                            assert(q != rest) by {
                                                if q == rest {
                                                    assert(q[0] == rest[0]);
                                                }
                                            }
                                        } else {
                                            assert(q.take(1) != gpre) by {
                                                if q.take(1) == gpre {
                                                    assert(q.take(1)[0] == q[0]);
                                                }
                                            }
                                            assert(lookup(gt2@, q) is None);
                                            if x == nib {
                                                assert(q.take(1) =~= rest.take(1));
                                                lemma_eq_split(q, rest, 1);
                                                if q != rest {
                                                    assert(lookup(ci, q.skip(1)) is None);
                                                }
                                                assert(lookup(t, q) == lookup(ci, q.skip(1)));
                                            } else {
                                                assert(q != rest) by {
                                                    if q == rest {
                                                        assert(q[0] == rest[0]);
                                                    }
                                                }
                                                if (x as int) < 16 {
                                                    assert(gs2[x as int] is None);
                                                    assert(gslots[x as int] is None);
                                                }
                                                assert(lookup(t, q) is None);
                                            }
                                        }
                                    }
                                }
                            }
                            Ok(Some((d2, gt2)))
                        },
                        Err(e) => Err(e),
                    }
                } else {
                    // keep the branch without the removed slot
                    proof {
                        assert forall|j: int|
                            0 <= j < 16 implies (#[trigger] slots2.deep_view()[j]) == (match gs2[j] {
                            None => None::<Seq<u8>>,
                            Some(c) => Some(tree_digest(c)),
                        }) by {
                            assert(slots2.deep_view()[j] == slots2@[j].deep_view());
                            if j != nib as int {
                                assert(slots2@[j] == cpre[j]);
                                assert(cpre[j].deep_view() == nslots.deep_view()[j]);
                                lemma_slot_digests_index(gslots, 0, j);
                                assert(gs2[j] == gslots[j]);
                            }
                        }
                        assert forall|j: int|
                            0 <= j < 16 implies (#[trigger] gs2[j] matches Some(c) ==> stored(
                            c,
                            cas@,
                        )) by {
                            if j != nib as int {
                                lemma_slots_stored_index(gslots, 0, j, old(cas)@);
                                match gslots[j] {
                                    Some(c) => {
                                        lemma_stored_monotone(c, old(cas)@, cas@);
                                    },
                                    None => {},
                                }
                            }
                        }
                    }
                    let nv2 = match &nval {
                        None => None,
                        Some(b) => Some(slice_to_vec(b.as_slice())),
                    };
                    proof {
                        assert(nv2.deep_view() == gval);
                    }
                    let (d2, gbx) = match make_branch(cas, slots2, nv2, Ghost(gs2)) {
                        Ok(x) => x,
                        Err(e) => {
                            return Err(e);
                        },
                    };
                    proof {
                        assert(gbx@ == (STree::Branch { slots: gs2, value: gval }));
                        assert forall|q: Seq<u8>|
                            (#[trigger] lookup(gbx@, q)) == (if q == rest {
                                None::<Seq<u8>>
                            } else {
                                lookup(t, q)
                            }) by {
                            if q.len() == 0 {
                                assert(q != rest);
                            } else {
                                let x = q[0];
                                if x == nib {
                                    assert(gs2[x as int] is None);
                                    assert(lookup(gbx@, q) is None);
                                    assert(q.take(1) =~= rest.take(1));
                                    lemma_eq_split(q, rest, 1);
                                    if q != rest {
                                        assert(lookup(ci, q.skip(1)) is None);
                                    }
                                    assert(lookup(t, q) == lookup(ci, q.skip(1)));
                                } else {
                                    assert(q != rest) by {
                                        if q == rest {
                                            assert(q[0] == rest[0]);
                                        }
                                    }
                                    if (x as int) < 16 {
                                        assert(gs2[x as int] == gslots[x as int]);
                                    }
                                    assert(lookup(gbx@, q) == lookup(t, q));
                                }
                            }
                        }
                    }
                    Ok(Some((d2, gbx)))
                }
            },
        }
    }
}

/// The trie engine over a content-addressable node store.
pub struct PatriciaTrie {
    pub cas: Cas,
}

impl View for PatriciaTrie {
    type V = Map<Seq<u8>, Seq<u8>>;

    open spec fn view(&self) -> Map<Seq<u8>, Seq<u8>> {
        self.cas@
    }
}

impl PatriciaTrie {
    /// A trie engine over the given store.
    pub fn new(cas: Cas) -> (r: Self)
        ensures
            r@ == cas@,
    {
        PatriciaTrie { cas }
    }

    /// Looks a key up in the trie rooted at `root`; the empty root is the
    /// empty trie, where every key is absent.
    pub fn get(&self, root: Option<&Vec<u8>>, key: &[u8], Ghost(tree): Ghost<Option<STree>>) -> (r:
        Option<Vec<u8>>)
        requires
            root is Some <==> tree is Some,
            root matches Some(d) ==> tree matches Some(t) && hashes_to(t, self@, d@),
        ensures
            r.deep_view() == lookup_root(tree, nibbles_of(key@)),
    {
        match root {
            None => None,
            Some(d) => {
                let nibs = bytes_to_nibbles(key);
                let r = get_node_rec(&self.cas, d.as_slice(), nibs.as_slice(), 0, Ghost(
                    tree->0,
                ));
                proof {
                    assert(nibs@.skip(0) =~= nibbles_of(key@));
                }
                r
            },
        }
    }

    /// Inserts a key/value pair into the trie rooted at `root` and returns
    /// the new root digest; the old root stays readable and every untouched
    /// subtree is shared with it byte for byte.
    pub fn insert(
        &mut self,
        root: Option<&Vec<u8>>,
        key: &[u8],
        value: &[u8],
        Ghost(tree): Ghost<Option<STree>>,
    ) -> (r: Result<(Vec<u8>, Ghost<STree>), CasError>)
        requires
            root is Some <==> tree is Some,
            root matches Some(d) ==> tree matches Some(t) && hashes_to(t, old(self)@, d@),
        ensures
            cas_extends(old(self)@, final(self)@),
            r is Err ==> collision_detected(final(self)@),
            r matches Ok(p) ==> hashes_to(p.1@, final(self)@, p.0@) && (forall|q: Seq<u8>|
                (#[trigger] lookup(p.1@, q)) == (if q == nibbles_of(key@) {
                    Some(value@)
                } else {
                    lookup_root(tree, q)
                })),
    {
        let nibs = bytes_to_nibbles(key);
        proof {
            assert(nibs@.skip(0) =~= nibbles_of(key@));
        }
        match root {
            None => {
                let r = make_leaf(&mut self.cas, nibs.as_slice(), 0, value);
                match r {
                    Ok((d, gt)) => {
                        proof {
                            assert forall|q: Seq<u8>|
                                (#[trigger] lookup(gt@, q)) == (if q == nibbles_of(key@) {
                                    Some(value@)
                                } else {
                                    lookup_root(tree, q)
                                }) by {}
                        }
                        Ok((d, gt))
                    },
                    Err(e) => Err(e),
                }
            },
            Some(d) => insert_node(&mut self.cas, d.as_slice(), nibs.as_slice(), 0, value, Ghost(
                tree->0,
            )),
        }
    }

    /// Removes a key from the trie rooted at `root`. The result is the new
    /// root digest, or `None` when the trie became empty; a key that is
    /// absent leaves the trie unchanged and hands back a root equal to the
    /// original. The old root stays readable either way.
    pub fn remove(
        &mut self,
        root: Option<&Vec<u8>>,
        key: &[u8],
        Ghost(tree): Ghost<Option<STree>>,
    ) -> (r: Result<Option<(Vec<u8>, Ghost<STree>)>, CasError>)
        requires
            root is Some <==> tree is Some,
            root matches Some(d) ==> tree matches Some(t) && hashes_to(t, old(self)@, d@),
        ensures
            cas_extends(old(self)@, final(self)@),
            r is Err ==> collision_detected(final(self)@),
            r matches Ok(res) ==> (match res {
                None => forall|q: Seq<u8>|
                    q != nibbles_of(key@) ==> (#[trigger] lookup_root(tree, q)) is None,
                Some(p) => hashes_to(p.1@, final(self)@, p.0@) && (forall|q: Seq<u8>|
                    (#[trigger] lookup(p.1@, q)) == (if q == nibbles_of(key@) {
                        None::<Seq<u8>>
                    } else {
                        lookup_root(tree, q)
                    })),
            }),
    {
        match root {
            None => Ok(None),
            Some(d) => {
                let nibs = bytes_to_nibbles(key);
                proof {
                    assert(nibs@.skip(0) =~= nibbles_of(key@));
                }
                remove_node(&mut self.cas, d.as_slice(), nibs.as_slice(), 0, Ghost(tree->0))
            },
        }
    }
}

} // verus!
