//! An in-memory content-addressable store: each entry maps a digest to the
//! exact bytes that hash to it. Entries are immutable once stored, so a
//! stored binding never changes; `put_node` is idempotent. Beside the bytes,
//! the store keeps the decoded node of each entry, so readers get back the
//! node whose encoding was stored.
use vstd::prelude::*;
use crate::hashing::digest_bytes;
use crate::hashing::digest_of;
use crate::node::spec_enc;
use crate::node::node_wf;
use crate::node::encode_node;
use crate::node::FNode;
use crate::node::Node;
use crate::nibble::slice_eq;

verus! {

/// A detected backend inconsistency: two different byte sequences claimed
/// the same digest, so the store's content can no longer be trusted.
#[derive(Debug)]
pub enum CasError {
    Corrupted,
}

/// One map grows out of the other: every binding of `a` stands unchanged in
/// `b`.
pub open spec fn cas_extends(a: Map<Seq<u8>, Seq<u8>>, b: Map<Seq<u8>, Seq<u8>>) -> bool {
    forall|k: Seq<u8>|
        #[trigger] a.dom().contains(k) ==> b.dom().contains(k) && b[k] == a[k]
}

/// A digest collision is present in the store: some byte sequence hashes
/// to a digest that the store already binds to different bytes. This is the
/// one condition under which storing content fails; for a cryptographic
/// hash it never arises in practice.
pub open spec fn collision_detected(cas: Map<Seq<u8>, Seq<u8>>) -> bool {
    exists|b: Seq<u8>| #![trigger cas[digest_of(b)]]
        cas.dom().contains(digest_of(b)) && cas[digest_of(b)] != b
}

/// A collision stays detected when the store grows: bindings never change.
pub proof fn lemma_collision_monotone(c1: Map<Seq<u8>, Seq<u8>>, c2: Map<Seq<u8>, Seq<u8>>)
    requires
        collision_detected(c1),
        cas_extends(c1, c2),
    ensures
        collision_detected(c2),
{
    let b = choose|b: Seq<u8>| #![trigger c1[digest_of(b)]]
        c1.dom().contains(digest_of(b)) && c1[digest_of(b)] != b;
    assert(c2.dom().contains(digest_of(b)) && c2[digest_of(b)] != b);
}

/// Growing is transitive: what extends an extension extends the original.
pub proof fn lemma_cas_extends_trans(
    a: Map<Seq<u8>, Seq<u8>>,
    b: Map<Seq<u8>, Seq<u8>>,
    c: Map<Seq<u8>, Seq<u8>>,
)
    requires
        cas_extends(a, b),
        cas_extends(b, c),
    ensures
        cas_extends(a, c),
{
    assert forall|k: Seq<u8>| #[trigger] a.dom().contains(k) implies c.dom().contains(k) && c[k]
        == a[k] by {
        assert(b.dom().contains(k));
    }
}

/// The digest-to-bytes map described by a list of store entries.
pub open spec fn entries_map(s: Seq<(Vec<u8>, Vec<u8>, Node)>) -> Map<Seq<u8>, Seq<u8>>
    decreases s.len(),
{
    if s.len() == 0 {
        Map::empty()
    } else {
        entries_map(s.drop_last()).insert(s.last().0@, s.last().1@)
    }
}

proof fn lemma_entries_map(s: Seq<(Vec<u8>, Vec<u8>, Node)>)
    requires
        forall|i: int, j: int| 0 <= i < j < s.len() ==> s[i].0@ != s[j].0@,
    ensures
        forall|k: Seq<u8>|
            #[trigger] entries_map(s).dom().contains(k) ==> exists|i: int|
                0 <= i < s.len() && s[i].0@ == k,
        forall|i: int|
            0 <= i < s.len() ==> entries_map(s).dom().contains(#[trigger] s[i].0@)
                && entries_map(s)[s[i].0@] == s[i].1@,
    decreases s.len(),
{
    if s.len() > 0 {
        let prefix = s.drop_last();
        lemma_entries_map(prefix);
        assert forall|i: int|
            0 <= i < s.len() implies entries_map(s).dom().contains(#[trigger] s[i].0@)
            && entries_map(s)[s[i].0@] == s[i].1@ by {
            if i < s.len() - 1 {
                assert(prefix[i] == s[i]);
                assert(s[i].0@ != s.last().0@);
            }
        }
        assert forall|k: Seq<u8>|
            #[trigger] entries_map(s).dom().contains(k) implies exists|i: int|
            0 <= i < s.len() && s[i].0@ == k by {
            if k == s.last().0@ {
                assert(s[s.len() - 1].0@ == k);
            } else {
                assert(entries_map(prefix).dom().contains(k));
                let i = choose|i: int| 0 <= i < prefix.len() && prefix[i].0@ == k;
                assert(s[i].0@ == k);
            }
        }
    }
}

/// A content-addressable node store held in memory.
pub struct Cas {
    entries: Vec<(Vec<u8>, Vec<u8>, Node)>,
}

impl View for Cas {
    type V = Map<Seq<u8>, Seq<u8>>;

    closed spec fn view(&self) -> Map<Seq<u8>, Seq<u8>> {
        entries_map(self.entries@)
    }
}

impl Cas {
    #[verifier::type_invariant]
    spec fn wf(self) -> bool {
        &&& forall|i: int, j: int|
            0 <= i < j < self.entries@.len() ==> self.entries@[i].0@ != self.entries@[j].0@
        &&& forall|i: int|
            0 <= i < self.entries@.len() ==> (#[trigger] self.entries@[i].0@) == digest_of(
                self.entries@[i].1@,
            )
        &&& forall|i: int|
            0 <= i < self.entries@.len() ==> (#[trigger] self.entries@[i].1@) == spec_enc(
                self.entries@[i].2@,
            ) && node_wf(self.entries@[i].2@)
    }

    /// An empty store.
    pub fn new() -> (r: Self)
        ensures
            r@ == Map::<Seq<u8>, Seq<u8>>::empty(),
    {
        Cas { entries: Vec::new() }
    }

    fn find(&self, digest: &[u8]) -> (r: Option<usize>)
        ensures
            r matches Some(i) ==> i < self.entries@.len() && self.entries@[i as int].0@
                == digest@,
            r is None ==> forall|i: int|
                0 <= i < self.entries@.len() ==> (#[trigger] self.entries@[i].0@) != digest@,
    {
        let mut i: usize = 0;
        while i < self.entries.len()
            invariant
                i <= self.entries@.len(),
                forall|j: int| 0 <= j < i ==> (#[trigger] self.entries@[j].0@) != digest@,
            decreases self.entries@.len() - i,
        {
            if slice_eq(self.entries[i].0.as_slice(), digest) {
                return Some(i);
            }
            i = i + 1;
        }
        None
    }

    /// Fetches the stored bytes of a digest.
    pub fn get(&self, digest: &[u8]) -> (r: Option<&Vec<u8>>)
        ensures
            r matches Some(b) ==> self@.dom().contains(digest@) && b@ == self@[digest@],
            r is None ==> !self@.dom().contains(digest@),
    {
        proof {
            use_type_invariant(&*self);
            lemma_entries_map(self.entries@);
        }
        match self.find(digest) {
            Some(i) => Some(&self.entries[i].1),
            None => {
                proof {
                    if self@.dom().contains(digest@) {
                        let i = choose|i: int|
                            0 <= i < self.entries@.len() && self.entries@[i].0@ == digest@;
                        assert(false);
                    }
                }
                None
            },
        }
    }

    /// Fetches the node whose encoding is stored under a digest.
    pub fn get_node(&self, digest: &[u8]) -> (r: Option<&Node>)
        ensures
            r matches Some(n) ==> self@.dom().contains(digest@) && spec_enc(n@)
                == self@[digest@] && node_wf(n@),
            r is None ==> !self@.dom().contains(digest@),
    {
        proof {
            use_type_invariant(&*self);
            lemma_entries_map(self.entries@);
        }
        match self.find(digest) {
            Some(i) => Some(&self.entries[i].2),
            None => {
                proof {
                    if self@.dom().contains(digest@) {
                        let i = choose|i: int|
                            0 <= i < self.entries@.len() && self.entries@[i].0@ == digest@;
                        assert(false);
                    }
                }
                None
            },
        }
    }

    /// Stores a node under the digest of its encoding and returns that
    /// digest. Storing the same node twice yields the same digest and
    /// leaves the store as it was. An error reports that the digest was
    /// already bound to different bytes, which means the backend content
    /// is corrupted; the store is then left unchanged.
    pub fn put_node(&mut self, node: Node) -> (r: Result<Vec<u8>, CasError>)
        requires
            node@ matches FNode::Branch { slots, .. } ==> slots.len() == 16,
        ensures
            cas_extends(old(self)@, final(self)@),
            node_wf(node@),
            r matches Ok(d) ==> d@ == digest_of(spec_enc(node@)) && final(self)@ == old(
                self,
            )@.insert(d@, spec_enc(node@)),
            r is Err ==> final(self)@ == old(self)@ && old(self)@.dom().contains(
                digest_of(spec_enc(node@)),
            ) && old(self)@[digest_of(spec_enc(node@))] != spec_enc(node@) && collision_detected(
                final(self)@,
            ),
    {
        proof {
            use_type_invariant(&*self);
            lemma_entries_map(self.entries@);
        }
        let bytes = encode_node(&node);
        let digest = digest_bytes(bytes.as_slice());
        match self.find(digest.as_slice()) {
            Some(i) => {
                if slice_eq(self.entries[i].1.as_slice(), bytes.as_slice()) {
                    proof {
                        assert(self@[digest@] == bytes@);
                        assert(self@ =~= old(self)@.insert(digest@, spec_enc(node@)));
                    }
                    Ok(digest)
                } else {
                    proof {
                        assert(self@[digest@] == self.entries@[i as int].1@);
                    }
                    Err(CasError::Corrupted)
                }
            },
            None => {
                let ghost pre = self.entries@;
                let digest_again = digest_bytes(bytes.as_slice());
                let mut entries: Vec<(Vec<u8>, Vec<u8>, Node)> = Vec::new();
                std::mem::swap(&mut entries, &mut self.entries);
                entries.push((digest, bytes, node));
                self.entries = entries;
                proof {
                    assert(self.entries@.drop_last() =~= pre);
                    assert(self.entries@.last().0@ == digest_of(spec_enc(node@)));
                    assert(self@ =~= old(self)@.insert(
                        digest_of(spec_enc(node@)),
                        spec_enc(node@),
                    ));
                    lemma_entries_map(self.entries@);
                }
                Ok(digest_again)
            },
        }
    }
}

} // verus!
