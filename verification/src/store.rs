//! The public store: a Merkelized key-value index over the trie engine. A
//! write buffer holds pending inserts and removes per key (last write wins);
//! `commit` drains it into the trie and moves the committed root forward;
//! `rollback` discards it. An optional encryption context seals every key
//! and value before it reaches the buffer or trie, and opens values on the
//! way out, reading an authentication failure as absence.
use vstd::prelude::*;
use crate::cas::Cas;
use crate::cas::CasError;
use crate::cas::cas_extends;
use crate::cas::lemma_cas_extends_trans;
use crate::cas::collision_detected;
use crate::nibble::nibbles_of;
use crate::nibble::lemma_nibbles_injective;
use crate::nibble::lemma_nibbles_injective_contra;
use crate::nibble::slice_eq;
use crate::sealing::seal_of;
use crate::sealing::open_of;
use crate::sealing::aead_seal;
use crate::sealing::aead_open;
use crate::sealing::wipe;
use crate::tree::STree;
use crate::tree::hashes_to;
use crate::tree::lookup_root;
use crate::tree::lemma_stored_monotone;
use crate::tree::stored;
use crate::tree::tree_digest;
use crate::trie::PatriciaTrie;
use vstd::slice::slice_subrange;
use vstd::slice::slice_to_vec;

verus! {

/// A pending operation for one key: insert this value, or remove the key.
#[derive(Debug)]
pub enum Operation {
    Insert(Vec<u8>),
    Remove,
}

/// A pending operation as the specifications see it.
pub enum OpSpec {
    Insert(Seq<u8>),
    Remove,
}

impl View for Operation {
    type V = OpSpec;

    open spec fn view(&self) -> OpSpec {
        match self {
            Operation::Insert(v) => OpSpec::Insert(v@),
            Operation::Remove => OpSpec::Remove,
        }
    }
}

/// One entry of the change-log a commit produces: a key and the value it
/// now carries, or nothing for a removal.
#[derive(Debug)]
pub struct LogEntry {
    pub key: Vec<u8>,
    pub value: Option<Vec<u8>>,
}

/// Installing an encryption context was refused: the key or nonce is
/// shorter than the cipher requires, or the nonce is missing.
#[derive(Debug, PartialEq, Eq)]
pub enum KeyError {
    WrongSize,
}

/// The key-to-operation map described by a list of buffer entries; a later
/// entry for the same key wins.
pub open spec fn ops_map(s: Seq<(Vec<u8>, Operation)>) -> Map<Seq<u8>, OpSpec>
    decreases s.len(),
{
    if s.len() == 0 {
        Map::empty()
    } else {
        ops_map(s.drop_last()).insert(s.last().0@, s.last().1@)
    }
}

proof fn lemma_ops_map_last(s: Seq<(Vec<u8>, Operation)>, i: int, k: Seq<u8>)
    requires
        0 <= i < s.len(),
        s[i].0@ == k,
        forall|m: int| i < m < s.len() ==> (#[trigger] s[m].0@) != k,
    ensures
        ops_map(s).dom().contains(k),
        ops_map(s)[k] == s[i].1@,
    decreases s.len(),
{
    if i < s.len() - 1 {
        assert(s.last().0@ != k);
        let prefix = s.drop_last();
        assert(prefix[i] == s[i]);
        assert forall|m: int| i < m < prefix.len() implies (#[trigger] prefix[m].0@) != k by {
            assert(prefix[m] == s[m]);
        }
        lemma_ops_map_last(prefix, i, k);
    }
}

proof fn lemma_ops_map_absent(s: Seq<(Vec<u8>, Operation)>, k: Seq<u8>)
    requires
        forall|m: int| 0 <= m < s.len() ==> (#[trigger] s[m].0@) != k,
    ensures
        !ops_map(s).dom().contains(k),
    decreases s.len(),
{
    if s.len() > 0 {
        let prefix = s.drop_last();
        assert forall|m: int| 0 <= m < prefix.len() implies (#[trigger] prefix[m].0@) != k by {
            assert(prefix[m] == s[m]);
        }
        lemma_ops_map_absent(prefix, k);
    }
}

/// The buffer entries as an ordered sequence of (raw key, operation)
/// pairs, oldest first; a superseded write for a twice-written key is still
/// listed, though only the last one takes effect.
pub open spec fn buf_log(s: Seq<(Vec<u8>, Operation)>) -> Seq<(Seq<u8>, OpSpec)> {
    Seq::new(s.len(), |i: int| (s[i].0@, s[i].1@))
}

/// The write buffer: pending operations keyed by raw key bytes.
struct OpBuffer {
    entries: Vec<(Vec<u8>, Operation)>,
}

impl View for OpBuffer {
    type V = Map<Seq<u8>, OpSpec>;

    closed spec fn view(&self) -> Map<Seq<u8>, OpSpec> {
        ops_map(self.entries@)
    }
}

impl OpBuffer {
    fn new() -> (r: Self)
        ensures
            r@ == Map::<Seq<u8>, OpSpec>::empty(),
            r.entries@.len() == 0,
    {
        OpBuffer { entries: Vec::new() }
    }

    /// The pending operation for a key, if any.
    fn get(&self, key: &[u8]) -> (r: Option<&Operation>)
        ensures
            r matches Some(op) ==> self@.dom().contains(key@) && op@ == self@[key@],
            r is None ==> !self@.dom().contains(key@),
    {
        let n = self.entries.len();
        let mut j: usize = n;
        while j > 0
            invariant
                j <= self.entries@.len(),
                forall|m: int| j <= m < self.entries@.len() ==> (#[trigger] self.entries@[m].0@)
                    != key@,
            decreases j,
        {
            j = j - 1;
            if slice_eq(self.entries[j].0.as_slice(), key) {
                proof {
                    lemma_ops_map_last(self.entries@, j as int, key@);
                }
                return Some(&self.entries[j].1);
            }
        }
        proof {
            lemma_ops_map_absent(self.entries@, key@);
        }
        None
    }

    /// Records an operation for a key, superseding any earlier one.
    fn set(&mut self, key: Vec<u8>, op: Operation)
        ensures
            final(self)@ == old(self)@.insert(key@, op@),
            buf_log(final(self).entries@) == buf_log(old(self).entries@).push((key@, op@)),
    {
        let ghost pre = self.entries@;
        self.entries.push((key, op));
        proof {
            assert(self.entries@.drop_last() =~= pre);
            assert(buf_log(self.entries@) =~= buf_log(pre).push((key@, op@)));
        }
    }
}

/// The encryption context: the cipher key and the single nonce used for
/// every seal and open while the context is active.
struct EncryptionContext {
    key: Vec<u8>,
    nonce: Vec<u8>,
}

/// A Merkelized key-value store: a Patricia trie in a content-addressable
/// store, one committed root digest, a buffer of pending operations, and an
/// optional encryption context.
pub struct CASPatriciaTrie {
    trie: PatriciaTrie,
    root_hash: Option<Vec<u8>>,
    tree: Ghost<Option<STree>>,
    pending_ops: OpBuffer,
    enc_ctx: Option<EncryptionContext>,
}

impl CASPatriciaTrie {
    #[verifier::type_invariant]
    spec fn wf(self) -> bool {
        &&& (self.root_hash matches Some(d) ==> self.tree@ matches Some(t) && hashes_to(
            t,
            self.trie@,
            d@,
        ))
        &&& (self.enc_ctx matches Some(c) ==> c.key@.len() == 32 && c.nonce@.len() == 15)
    }

    /// The digest-to-bytes map of the backing content-addressable store.
    pub closed spec fn backend(self) -> Map<Seq<u8>, Seq<u8>> {
        self.trie@
    }

    /// The committed root digest, if the committed trie is not empty.
    pub closed spec fn root_digest(self) -> Option<Seq<u8>> {
        match self.root_hash {
            Some(d) => Some(d@),
            None => None,
        }
    }

    /// The value the committed trie holds for a raw key.
    pub closed spec fn committed(self, raw_key: Seq<u8>) -> Option<Seq<u8>> {
        match self.root_hash {
            None => None,
            Some(_) => lookup_root(self.tree@, nibbles_of(raw_key)),
        }
    }

    /// The pending operations, keyed by raw key.
    pub closed spec fn pending(self) -> Map<Seq<u8>, OpSpec> {
        self.pending_ops@
    }

    /// The pending operations in the order they were recorded; the
    /// change-log of a commit lists exactly these.
    pub closed spec fn pending_log(self) -> Seq<(Seq<u8>, OpSpec)> {
        buf_log(self.pending_ops.entries@)
    }

    /// The active encryption context's key and nonce, if one is installed.
    pub closed spec fn enc(self) -> Option<(Seq<u8>, Seq<u8>)> {
        match self.enc_ctx {
            Some(c) => Some((c.key@, c.nonce@)),
            None => None,
        }
    }

    /// The bytes that stand for a logical key inside the buffer and trie:
    /// the key itself, or its sealing under the active context.
    pub open spec fn raw_key(self, key: Seq<u8>) -> Seq<u8> {
        match self.enc() {
            Some((k, n)) => seal_of(k, n, key),
            None => key,
        }
    }

    /// The bytes that stand for a logical value inside the buffer and trie.
    pub open spec fn raw_value(self, value: Seq<u8>) -> Seq<u8> {
        match self.enc() {
            Some((k, n)) => seal_of(k, n, value),
            None => value,
        }
    }

    /// The raw bytes a raw key currently maps to: the buffer speaks first,
    /// then the committed trie.
    pub open spec fn raw_get(self, raw_key: Seq<u8>) -> Option<Seq<u8>> {
        if self.pending().dom().contains(raw_key) {
            match self.pending()[raw_key] {
                OpSpec::Insert(v) => Some(v),
                OpSpec::Remove => None,
            }
        } else {
            self.committed(raw_key)
        }
    }

    /// The value a logical key currently maps to, after sealing the key and
    /// opening the stored bytes under the active context; an opening
    /// failure reads as absence.
    pub open spec fn logical_get(self, key: Seq<u8>) -> Option<Seq<u8>> {
        let raw = self.raw_get(self.raw_key(key));
        match self.enc() {
            None => raw,
            Some((k, n)) => match raw {
                None => None,
                Some(ct) => open_of(k, n, ct),
            },
        }
    }

    /// A store over the given backend, committed at the given root; no
    /// pending operations and no encryption context.
    pub fn new(cas: Cas, root_hash: Option<Vec<u8>>) -> (r: Self)
        requires
            root_hash matches Some(d) ==> exists|t: STree| hashes_to(t, cas@, d@),
        ensures
            r.backend() == cas@,
            r.pending() == Map::<Seq<u8>, OpSpec>::empty(),
            r.enc() is None,
            r.root_digest() == (match root_hash {
                Some(d) => Some(d@),
                None => None::<Seq<u8>>,
            }),
            r.root_digest() is None ==> forall|k: Seq<u8>| (#[trigger] r.committed(k)) is None,
    {
        let ghost gt: Option<STree> = if root_hash is Some {
            Some(choose|t: STree| hashes_to(t, cas@, root_hash->0@))
        } else {
            None
        };
        CASPatriciaTrie {
            trie: PatriciaTrie::new(cas),
            root_hash,
            tree: Ghost(gt),
            pending_ops: OpBuffer::new(),
            enc_ctx: None,
        }
    }

    /// A store over the given backend with no committed state at all.
    pub fn empty(cas: Cas) -> (r: Self)
        ensures
            r.backend() == cas@,
            r.pending() == Map::<Seq<u8>, OpSpec>::empty(),
            r.enc() is None,
            r.root_digest() is None,
            forall|k: Seq<u8>| (#[trigger] r.committed(k)) is None,
    {
        Self::new(cas, None)
    }

    /// Hands the backing content-addressable store back, consuming the
    /// store instance; committed nodes stay readable, so another instance
    /// can be opened at any committed root.
    pub fn into_backend(self) -> (r: Cas)
        ensures
            r@ == self.backend(),
    {
        self.trie.cas
    }

    /// The backing content-addressable store, for direct reads of
    /// persisted nodes.
    pub fn backend_store(&self) -> (r: &Cas)
        ensures
            r@ == self.backend(),
    {
        &self.trie.cas
    }

    /// Looks a key up: the pending buffer speaks first, then the committed
    /// trie; under an active encryption context the key is sealed on the
    /// way in and the value opened on the way out, and a value that fails
    /// authentication reads as absent.
    pub fn get(&self, key: &[u8]) -> (r: Option<Vec<u8>>)
        ensures
            r.deep_view() == self.logical_get(key@),
    {
        proof {
            use_type_invariant(&*self);
        }
        let raw_key: Vec<u8> = match &self.enc_ctx {
            Some(c) => aead_seal(c.key.as_slice(), c.nonce.as_slice(), key),
            None => slice_to_vec(key),
        };
        proof {
            assert(raw_key@ == self.raw_key(key@));
        }
        let raw: Option<Vec<u8>> = match self.pending_ops.get(raw_key.as_slice()) {
            Some(op) => match op {
                Operation::Insert(v) => Some(slice_to_vec(v.as_slice())),
                Operation::Remove => None,
            },
            None => {
                let ghost gt: Option<STree> = if self.root_hash is Some {
                    self.tree@
                } else {
                    None
                };
                self.trie.get(self.root_hash.as_ref(), raw_key.as_slice(), Ghost(gt))
            },
        };
        proof {
            assert(raw.deep_view() == self.raw_get(raw_key@));
        }
        let ghost graw = raw.deep_view();
        let r = match (&self.enc_ctx, raw) {
            (Some(c), Some(ct)) => {
                proof {
                    assert(ct.deep_view() =~= ct@);
                    assert(graw == Some(ct@));
                }
                aead_open(c.key.as_slice(), c.nonce.as_slice(), ct.as_slice())
            },
            (_, raw) => raw,
        };
        proof {
            match self.enc() {
                None => {
                    assert(r.deep_view() == graw);
                },
                Some((k, n)) => {
                    if graw is Some {
                        assert(r.deep_view() == open_of(k, n, graw->0));
                    } else {
                        assert(r.deep_view() == graw);
                    }
                },
            }
        }
        r
    }

    /// Buffers an insert for a key and returns the value the key mapped to
    /// before; the committed trie is untouched until `commit`.
    pub fn insert(&mut self, key: &[u8], value: &[u8]) -> (r: Option<Vec<u8>>)
        ensures
            r.deep_view() == old(self).logical_get(key@),
            final(self).pending() == old(self).pending().insert(
                old(self).raw_key(key@),
                OpSpec::Insert(old(self).raw_value(value@)),
            ),
            final(self).pending_log() == old(self).pending_log().push(
                (old(self).raw_key(key@), OpSpec::Insert(old(self).raw_value(value@))),
            ),
            old(self).enc() matches Some((ek, en)) ==> open_of(
                ek,
                en,
                old(self).raw_value(value@),
            ) == Some(value@),
            final(self).enc() == old(self).enc(),
            final(self).root_digest() == old(self).root_digest(),
            final(self).backend() == old(self).backend(),
            forall|k: Seq<u8>| (#[trigger] final(self).committed(k)) == old(self).committed(k),
    {
        proof {
            use_type_invariant(&*self);
        }
        let previous = self.get(key);
        let raw_value: Vec<u8> = match &self.enc_ctx {
            Some(c) => aead_seal(c.key.as_slice(), c.nonce.as_slice(), value),
            None => slice_to_vec(value),
        };
        let raw_key: Vec<u8> = match &self.enc_ctx {
            Some(c) => aead_seal(c.key.as_slice(), c.nonce.as_slice(), key),
            None => slice_to_vec(key),
        };
        let mut buf = OpBuffer::new();
        std::mem::swap(&mut buf, &mut self.pending_ops);
        buf.set(raw_key, Operation::Insert(raw_value));
        self.pending_ops = buf;
        previous
    }

    /// Buffers a removal for a key and returns the value the key mapped to
    /// before; the committed trie is untouched until `commit`.
    pub fn remove(&mut self, key: &[u8]) -> (r: Option<Vec<u8>>)
        ensures
            r.deep_view() == old(self).logical_get(key@),
            final(self).pending() == old(self).pending().insert(
                old(self).raw_key(key@),
                OpSpec::Remove,
            ),
            final(self).pending_log() == old(self).pending_log().push(
                (old(self).raw_key(key@), OpSpec::Remove),
            ),
            final(self).enc() == old(self).enc(),
            final(self).root_digest() == old(self).root_digest(),
            final(self).backend() == old(self).backend(),
            forall|k: Seq<u8>| (#[trigger] final(self).committed(k)) == old(self).committed(k),
    {
        proof {
            use_type_invariant(&*self);
        }
        let previous = self.get(key);
        let raw_key: Vec<u8> = match &self.enc_ctx {
            Some(c) => aead_seal(c.key.as_slice(), c.nonce.as_slice(), key),
            None => slice_to_vec(key),
        };
        let mut buf = OpBuffer::new();
        std::mem::swap(&mut buf, &mut self.pending_ops);
        buf.set(raw_key, Operation::Remove);
        self.pending_ops = buf;
        previous
    }

    /// Discards every pending operation; the committed state is untouched.
    /// Always safe, also with an empty buffer.
    pub fn rollback(&mut self)
        ensures
            final(self).pending() == Map::<Seq<u8>, OpSpec>::empty(),
            final(self).pending_log() == Seq::<(Seq<u8>, OpSpec)>::empty(),
            final(self).enc() == old(self).enc(),
            final(self).root_digest() == old(self).root_digest(),
            final(self).backend() == old(self).backend(),
            forall|k: Seq<u8>| (#[trigger] final(self).committed(k)) == old(self).committed(k),
    {
        proof {
            use_type_invariant(&*self);
        }
        self.pending_ops = OpBuffer::new();
        proof {
            assert(self.pending_log() =~= Seq::<(Seq<u8>, OpSpec)>::empty());
        }
    }

    /// Drains every pending operation into the trie, last write per key
    /// winning, and moves the committed root to the result. Returns the
    /// change-log — one entry per recorded operation, in order, a
    /// superseded write for a twice-written key included — and the new root
    /// digest, with the empty byte string standing for the empty trie. A
    /// fault can only be a detected digest collision; the committed root
    /// and content are then left as they were, and the buffer must be
    /// considered unspecified and the store abandoned, though this
    /// implementation leaves the buffer intact.
    #[verifier::loop_isolation(false)]
    pub fn commit(&mut self) -> (r: Result<(Vec<LogEntry>, Vec<u8>), CasError>)
        ensures
            cas_extends(old(self).backend(), final(self).backend()),
            final(self).enc() == old(self).enc(),
            r matches Ok(p) ==> ({
                &&& final(self).pending() == Map::<Seq<u8>, OpSpec>::empty()
                &&& (forall|k: Seq<u8>|
                    (#[trigger] final(self).committed(k)) == (if old(self).pending().dom().contains(
                        k,
                    ) {
                        match old(self).pending()[k] {
                            OpSpec::Insert(v) => Some(v),
                            OpSpec::Remove => None::<Seq<u8>>,
                        }
                    } else {
                        old(self).committed(k)
                    }))
                &&& (final(self).root_digest() matches Some(d) ==> p.1@ == d)
                &&& (final(self).root_digest() is None ==> p.1@ == Seq::<u8>::empty())
                &&& (old(self).pending() == Map::<Seq<u8>, OpSpec>::empty()
                    ==> final(self).root_digest() == old(self).root_digest())
                &&& (final(self).root_digest() matches Some(d) ==> exists|t: STree|
                    hashes_to(t, final(self).backend(), d))
                &&& final(self).pending_log() == Seq::<(Seq<u8>, OpSpec)>::empty()
                &&& p.0@.len() == old(self).pending_log().len()
                &&& (forall|i: int|
                    0 <= i < p.0@.len() ==> (#[trigger] p.0@[i]).key@ == old(
                        self,
                    ).pending_log()[i].0 && p.0@[i].value.deep_view() == (match old(
                        self,
                    ).pending_log()[i].1 {
                        OpSpec::Insert(v) => Some(v),
                        OpSpec::Remove => None::<Seq<u8>>,
                    }))
            }),
            old(self).pending() == Map::<Seq<u8>, OpSpec>::empty() ==> r is Ok,
            r is Err ==> collision_detected(final(self).backend()),
            r is Err ==> final(self).root_digest() == old(self).root_digest()
                && final(self).pending() == old(self).pending() && final(self).pending_log()
                == old(self).pending_log() && (forall|k: Seq<u8>|
                (#[trigger] final(self).committed(k)) == old(self).committed(k)),
    {
        proof {
            use_type_invariant(&*self);
        }
        let ghost start_tree: Option<STree> = if self.root_hash is Some {
            self.tree@
        } else {
            None
        };
        let mut saved_root: Option<Vec<u8>> = None;
        std::mem::swap(&mut saved_root, &mut self.root_hash);
        let mut trie = PatriciaTrie::new(Cas::new());
        std::mem::swap(&mut trie, &mut self.trie);
        let mut buf = OpBuffer::new();
        std::mem::swap(&mut buf, &mut self.pending_ops);
        let ghost cas0 = trie@;
        let ghost entries0 = buf.entries@;
        proof {
            assert(cas0 == old(self).backend());
            assert(ops_map(entries0) == old(self).pending());
        }

        let mut cur: Option<Vec<u8>> = match &saved_root {
            Some(d) => Some(slice_to_vec(d.as_slice())),
            None => None,
        };
        let ghost mut cur_tree: Option<STree> = start_tree;
        let mut log: Vec<LogEntry> = Vec::new();
        let n = buf.entries.len();
        let mut i: usize = 0;
        while i < n
            invariant
                i <= n,
                n == buf.entries@.len(),
                cur matches Some(d) ==> cur_tree matches Some(t) && hashes_to(t, trie@, d@),
                cur is Some <==> cur_tree is Some,
                cas_extends(cas0, trie@),
                self.root_hash is None,
                self.enc_ctx == old(self).enc_ctx,
                buf.entries@ == entries0,
                self.enc_ctx matches Some(c) ==> c.key@.len() == 32 && c.nonce@.len() == 15,
                saved_root is Some <==> start_tree is Some,
                saved_root matches Some(d) ==> start_tree matches Some(t0) && d@ == tree_digest(
                    t0,
                ) && stored(t0, cas0),
                log@.len() == i,
                forall|j: int|
                    0 <= j < i ==> (#[trigger] log@[j]).key@ == buf_log(entries0)[j].0
                        && log@[j].value.deep_view() == (match buf_log(entries0)[j].1 {
                        OpSpec::Insert(v) => Some(v),
                        OpSpec::Remove => None::<Seq<u8>>,
                    }),
                ops_map(entries0) == Map::<Seq<u8>, OpSpec>::empty() ==> i == 0,
                i == 0 ==> (cur is Some <==> saved_root is Some) && (cur matches Some(d)
                    ==> saved_root matches Some(d2) && d@ == d2@),
                forall|rk: Seq<u8>|
                    (#[trigger] lookup_root(cur_tree, nibbles_of(rk))) == (if ops_map(
                        buf.entries@.take(i as int),
                    ).dom().contains(rk) {
                        match ops_map(buf.entries@.take(i as int))[rk] {
                            OpSpec::Insert(v) => Some(v),
                            OpSpec::Remove => None::<Seq<u8>>,
                        }
                    } else {
                        lookup_root(start_tree, nibbles_of(rk))
                    }),
            decreases n - i,
        {
            let ghost trie_at_entry = trie@;
            proof {
                assert(buf.entries@.take(0) =~= Seq::<(Vec<u8>, Operation)>::empty());
            }
            let step = {
                let (key, op) = &buf.entries[i];
                match op {
                    Operation::Insert(v) => {
                        let r = trie.insert(cur.as_ref(), key.as_slice(), v.as_slice(), Ghost(
                            cur_tree,
                        ));
                        match r {
                            Ok((d, t2)) => {
                                let lv = slice_to_vec(v.as_slice());
                                proof {
                                    assert(lv.deep_view() =~= v@);
                                }
                                log.push(
                                    LogEntry { key: slice_to_vec(key.as_slice()), value: Some(lv) },
                                );
                                proof {
                                    assert(log@[log@.len() - 1].key@ == buf_log(entries0)[
                                        i as int].0);
                                    assert(log@[log@.len() - 1].value.deep_view() == Some(v@));
                                }
                                Ok((Some(d), Ghost(Some(t2@))))
                            },
                            Err(e) => Err(e),
                        }
                    },
                    Operation::Remove => {
                        let r = trie.remove(cur.as_ref(), key.as_slice(), Ghost(cur_tree));
                        match r {
                            Ok(sub) => {
                                log.push(
                                    LogEntry { key: slice_to_vec(key.as_slice()), value: None },
                                );
                                proof {
                                    assert(log@[log@.len() - 1].key@ == buf_log(entries0)[
                                        i as int].0);
                                    assert(log@[log@.len() - 1].value.deep_view()
                                        is None);
                                }
                                match sub {
                                    Some((d, t2)) => Ok((Some(d), Ghost(Some(t2@)))),
                                    None => Ok((None, Ghost(None::<STree>))),
                                }
                            },
                            Err(e) => Err(e),
                        }
                    },
                }
            };
            match step {
                Ok((new_cur, gnew)) => {
                    cur = new_cur;
                    proof {
                        cur_tree = gnew@;
                        lemma_cas_extends_trans(cas0, trie_at_entry, trie@);
                    }
                },
                Err(e) => {
                    proof {
                        lemma_cas_extends_trans(cas0, trie_at_entry, trie@);
                        if start_tree is Some {
                            lemma_stored_monotone(start_tree->0, cas0, trie@);
                        }
                        assert(ops_map(entries0).dom().contains(entries0.last().0@));
                    }
                    self.trie = trie;
                    self.tree = Ghost(start_tree);
                    self.root_hash = saved_root;
                    self.pending_ops = buf;
                    return Err(e);
                },
            }
            i = i + 1;
            proof {
                assert(ops_map(entries0).dom().contains(entries0.last().0@));
                let pfx = buf.entries@.take(i as int);
                let e = buf.entries@[i - 1];
                assert(pfx.drop_last() =~= buf.entries@.take(i - 1));
                assert(pfx.last() == e);
                assert(ops_map(pfx) == ops_map(buf.entries@.take(i - 1)).insert(e.0@, e.1@));
                assert forall|rk: Seq<u8>|
                    (#[trigger] lookup_root(cur_tree, nibbles_of(rk))) == (if ops_map(
                        pfx,
                    ).dom().contains(rk) {
                        match ops_map(pfx)[rk] {
                            OpSpec::Insert(v) => Some(v),
                            OpSpec::Remove => None::<Seq<u8>>,
                        }
                    } else {
                        lookup_root(start_tree, nibbles_of(rk))
                    }) by {
                    if rk != e.0@ {
                        lemma_nibbles_injective_contra(rk, e.0@);
                    }
                }
            }
        }
        proof {
            assert(buf.entries@.take(n as int) =~= buf.entries@);
            if cur is Some {
                assert(hashes_to(cur_tree->0, trie@, cur->0@));
            }
        }
        let ret_digest: Vec<u8> = match &cur {
            Some(d) => slice_to_vec(d.as_slice()),
            None => Vec::new(),
        };
        self.trie = trie;
        self.tree = Ghost(cur_tree);
        self.root_hash = cur;
        self.pending_ops = OpBuffer::new();
        proof {
            assert(self.pending_log() =~= Seq::<(Seq<u8>, OpSpec)>::empty());
            if self.root_hash is Some {
                assert(hashes_to(cur_tree->0, self.backend(), self.root_digest()->0));
            }
        }
        Ok((log, ret_digest))
    }

    /// Installs or clears the encryption context. `None` clears it, wiping
    /// the stored key. A key shorter than 32 bytes, a nonce shorter than 15
    /// bytes, or a key without a nonce is refused and nothing changes;
    /// longer inputs are truncated to those sizes.
    pub fn set_encryption_key(&mut self, key: Option<&[u8]>, nonce: Option<&[u8]>) -> (r: Result<
        (),
        KeyError,
    >)
        ensures
            final(self).pending() == old(self).pending(),
            final(self).root_digest() == old(self).root_digest(),
            final(self).backend() == old(self).backend(),
            forall|k: Seq<u8>| (#[trigger] final(self).committed(k)) == old(self).committed(k),
            r is Ok ==> final(self).enc() == (match (key, nonce) {
                (Some(k), Some(n)) => Some((k@.take(32), n@.take(15))),
                _ => None,
            }),
            r is Err ==> final(self).enc() == old(self).enc(),
            r is Err <==> (key matches Some(k) && (k@.len() < 32 || !(nonce matches Some(n)
                && n@.len() >= 15))),
    {
        proof {
            use_type_invariant(&*self);
        }
        match key {
            None => {
                let mut old_ctx: Option<EncryptionContext> = None;
                std::mem::swap(&mut old_ctx, &mut self.enc_ctx);
                if let Some(mut c) = old_ctx {
                    wipe(&mut c.key);
                }
                Ok(())
            },
            Some(kb) => {
                let nb = match nonce {
                    Some(n) => n,
                    None => {
                        return Err(KeyError::WrongSize);
                    },
                };
                if kb.len() < 32 || nb.len() < 15 {
                    return Err(KeyError::WrongSize);
                }
                let kv = slice_to_vec(slice_subrange(kb, 0, 32));
                let nv = slice_to_vec(slice_subrange(nb, 0, 15));
                proof {
                    assert(kv@ =~= kb@.take(32));
                    assert(nv@ =~= nb@.take(15));
                }
                let mut old_ctx: Option<EncryptionContext> = Some(
                    EncryptionContext { key: kv, nonce: nv },
                );
                std::mem::swap(&mut old_ctx, &mut self.enc_ctx);
                if let Some(mut c) = old_ctx {
                    wipe(&mut c.key);
                }
                Ok(())
            },
        }
    }
}

/// Round-trip law: in a store without an encryption context, a key whose
/// pending operation was an insert reads back with the inserted value after
/// a commit, and one whose pending operation was a removal reads back as
/// absent. `pre` is the store before the commit, `post` after it; the
/// premises are what `commit` ensures.
pub proof fn lemma_round_trip(
    pre: CASPatriciaTrie,
    post: CASPatriciaTrie,
    key: Seq<u8>,
    value: Seq<u8>,
)
    requires
        pre.enc() is None,
        post.enc() is None,
        post.pending() == Map::<Seq<u8>, OpSpec>::empty(),
        forall|k: Seq<u8>|
            (#[trigger] post.committed(k)) == (if pre.pending().dom().contains(k) {
                match pre.pending()[k] {
                    OpSpec::Insert(v) => Some(v),
                    OpSpec::Remove => None::<Seq<u8>>,
                }
            } else {
                pre.committed(k)
            }),
    ensures
        pre.pending().dom().contains(key) && pre.pending()[key] == OpSpec::Insert(value)
            ==> post.logical_get(key) == Some(value),
        pre.pending().dom().contains(key) && pre.pending()[key] == OpSpec::Remove
            ==> post.logical_get(key) is None,
{
}

/// Round-trip law under an active encryption context: a key whose pending
/// operation was an insert of the sealed value reads back with the plain
/// value after a commit, provided opening the sealed value recovers it —
/// the fact `insert` itself ensures about what it records; a key whose
/// pending operation was a removal reads back as absent. The premises are
/// what `insert`, `remove` and `commit` ensure.
pub proof fn lemma_round_trip_sealed(
    pre: CASPatriciaTrie,
    post: CASPatriciaTrie,
    key: Seq<u8>,
    value: Seq<u8>,
)
    requires
        pre.enc() is Some,
        post.enc() == pre.enc(),
        post.pending() == Map::<Seq<u8>, OpSpec>::empty(),
        forall|k: Seq<u8>|
            (#[trigger] post.committed(k)) == (if pre.pending().dom().contains(k) {
                match pre.pending()[k] {
                    OpSpec::Insert(v) => Some(v),
                    OpSpec::Remove => None::<Seq<u8>>,
                }
            } else {
                pre.committed(k)
            }),
    ensures
        (pre.enc() matches Some((ek, en)) && pre.pending().dom().contains(pre.raw_key(key))
            && pre.pending()[pre.raw_key(key)] == OpSpec::Insert(pre.raw_value(value)) && open_of(
            ek,
            en,
            pre.raw_value(value),
        ) == Some(value)) ==> post.logical_get(key) == Some(value),
        pre.pending().dom().contains(pre.raw_key(key)) && pre.pending()[pre.raw_key(key)]
            == OpSpec::Remove ==> post.logical_get(key) is None,
{
}

/// Buffer law: a later insert for the same key supersedes an earlier one,
/// so committing after `insert(key, v1)` then `insert(key, v2)` applies
/// `v2`. The premise is what two `insert` calls leave in the buffer.
pub proof fn lemma_last_write_wins(
    m: Map<Seq<u8>, OpSpec>,
    key: Seq<u8>,
    v1: Seq<u8>,
    v2: Seq<u8>,
)
    ensures
        m.insert(key, OpSpec::Insert(v1)).insert(key, OpSpec::Insert(v2))[key] == OpSpec::Insert(
            v2,
        ),
        m.insert(key, OpSpec::Insert(v1)).insert(key, OpSpec::Insert(v2))
            == m.insert(key, OpSpec::Insert(v2)),
{
    assert(m.insert(key, OpSpec::Insert(v1)).insert(key, OpSpec::Insert(v2)) =~= m.insert(
        key,
        OpSpec::Insert(v2),
    ));
}

/// Rollback law: with an empty buffer and no encryption context, a read
/// reflects exactly the committed state, so after `rollback` no rolled-back
/// operation is visible.
pub proof fn lemma_read_after_rollback(s: CASPatriciaTrie, key: Seq<u8>)
    requires
        s.pending() == Map::<Seq<u8>, OpSpec>::empty(),
        s.enc() is None,
    ensures
        s.logical_get(key) == s.committed(key),
{
}

/// Empty-trie law: a store with no committed root and an empty buffer reads
/// every key as absent.
pub proof fn lemma_empty_store_reads_nothing(s: CASPatriciaTrie, key: Seq<u8>)
    requires
        s.pending() == Map::<Seq<u8>, OpSpec>::empty(),
        s.root_digest() is None,
    ensures
        s.logical_get(key) is None,
{
}

} // verus!
