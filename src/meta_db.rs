//! The account meta-database front-end: pending writes in an overlay, sealed
//! into the journal block by block, and queries that consult the overlay first.

use vstd::prelude::*;
use crate::types::{AccountMeta, Address, Error, H256};
use crate::batch::DBTransaction;
use crate::codec::{
    base_of, decode_base, encodes_entry, decode_meta, entry_bytes, h256_bytes_spec, meta_bytes, meta_decodable,
    meta_decodes_to,
};
use crate::journal::{find_change, lemma_lookup_update, lookup, BlockKey, Journal, JournalEntry, Lookup};

verus! {

/// Pending changes that belong to no block yet, by account.
pub type Overlay = Vec<(Address, Option<AccountMeta>)>;

/// The account meta-database: the journal shared by all queries, and the
/// writer's own pending-write overlay.
#[derive(Debug)]
pub struct MetaDB {
    pub journal: Journal,
    pub overlay: Overlay,
}

/// The base that a stored marker names, or `(0, genesis)` where none is stored.
pub open spec fn base_from(raw: Option<Seq<u8>>, genesis: H256, base: BlockKey) -> bool {
    match raw {
        None => base == (0u64, genesis),
        Some(b) => base_of(b) == Some((base.0, h256_bytes_spec(base.1))),
    }
}

impl MetaDB {
    /// The journal holds one delta per block.
    pub open spec fn wf(&self) -> bool {
        self.journal.wf()
    }

    /// The pending change for `a`, if any.
    pub open spec fn pending(&self, a: Address) -> Option<Option<AccountMeta>> {
        lookup(self.overlay@, a)
    }

    /// What `get` answers: the pending change if there is one, else the journal's answer.
    pub open spec fn get_spec(&self, a: Address, at: BlockKey) -> Result<Lookup, Error> {
        query_spec(self.journal, self.overlay@, a, at)
    }

    /// Creates the database front-end over an empty journal, building off the
    /// base that the stored marker `base_raw` names, or `(0, genesis_hash)` where
    /// none is stored. The journal's open eras are then loaded with `load_entry`.
    pub fn new(base_raw: Option<&[u8]>, genesis_hash: &H256) -> (r: Result<MetaDB, Error>)
        ensures
            r is Ok <==> (base_raw matches Some(b) ==> (base_of(b@) matches Some((e, id)) && id.len() == 32)),
            r matches Ok(db) ==> base_from(
                match base_raw { Some(b) => Some(b@), None => None }, *genesis_hash, db.journal.canon_base),
            r matches Ok(db) ==> db.wf() && db.journal.entries@.len() == 0 && db.overlay@.len() == 0,
    {
        let base = match base_raw {
            None => (0u64, *genesis_hash),
            Some(b) => match decode_base(b) {
                Some(base) => base,
                None => {
                    return Err(Error::Database(String::from_str("corrupted database: malformed base marker")));
                },
            },
        };
        Ok(MetaDB { journal: Journal::new(base), overlay: Vec::new() })
    }

    /// Loads the stored delta of block `(era, id)` into the journal.
    pub fn load_entry(&mut self, era: u64, id: H256, raw: &[u8]) -> (r: Result<(), Error>)
        requires
            old(self).wf(),
        ensures
            final(self).wf(),
            r is Ok ==> (final(self).journal.entry((era, id)) matches Some(e)
                && crate::codec::entry_decodes_to(raw@, e)),
            r is Ok ==> forall|k: BlockKey| k != (era, id) ==> final(self).journal.entry(k) == old(self).journal.entry(k),
            r is Err ==> final(self).journal == old(self).journal,
            final(self).journal.canon_base == old(self).journal.canon_base,
            final(self).overlay == old(self).overlay,
            forall|e: JournalEntry| #[trigger] entry_bytes(e) == raw@ ==> (r is Ok
                && (final(self).journal.entry((era, id)) matches Some(d) && d.parent == e.parent
                && d.entries@ == e.entries@)),
    {
        self.journal.load_entry(era, id, raw)
    }

    /// Loads the stored deltas of the candidates of era `era`, in order; stops
    /// at the first one that does not decode. Each id ends up with the delta
    /// of its last occurrence.
    pub fn load_era(&mut self, era: u64, candidates: &Vec<(H256, Vec<u8>)>) -> (r: Result<(), Error>)
        requires
            old(self).wf(),
        ensures
            final(self).wf(),
            r is Ok ==> forall|i: int| 0 <= i < candidates@.len()
                && (forall|j: int| i < j < candidates@.len() ==> candidates@[j].0 != candidates@[i].0)
                ==> (#[trigger] final(self).journal.entry((era, candidates@[i].0)) matches Some(e)
                && crate::codec::entry_decodes_to(candidates@[i].1@, e)),
            r is Ok ==> forall|k: BlockKey| k.0 != era ==> final(self).journal.entry(k) == old(self).journal.entry(k),
            r is Ok ==> forall|k: BlockKey| k.0 == era
                && (forall|i: int| 0 <= i < candidates@.len() ==> candidates@[i].0 != k.1)
                ==> final(self).journal.entry(k) == old(self).journal.entry(k),
            (forall|i: int| 0 <= i < candidates@.len() ==> encodes_entry(#[trigger] candidates@[i].1@)) ==> r is Ok,
            final(self).journal.canon_base == old(self).journal.canon_base,
            final(self).overlay == old(self).overlay,
    {
        let mut i: usize = 0;
        while i < candidates.len()
            invariant
                i <= candidates@.len(),
                self.wf(),
                self.journal.canon_base == old(self).journal.canon_base,
                self.overlay == old(self).overlay,
                forall|k: BlockKey| k.0 != era ==> self.journal.entry(k) == old(self).journal.entry(k),
                forall|k: BlockKey| k.0 == era
                    && (forall|x: int| 0 <= x < i ==> candidates@[x].0 != k.1)
                    ==> self.journal.entry(k) == old(self).journal.entry(k),
                forall|x: int| 0 <= x < i ==> (forall|j: int| x < j < i ==> candidates@[j].0 != candidates@[x].0)
                    ==> (#[trigger] self.journal.entry((era, candidates@[x].0)) matches Some(e)
                    && crate::codec::entry_decodes_to(candidates@[x].1@, e)),
            decreases candidates@.len() - i,
        {
            let (id, raw) = &candidates[i];
            proof {
                if forall|x: int| 0 <= x < candidates@.len() ==> encodes_entry(#[trigger] candidates@[x].1@) {
                    assert(encodes_entry(candidates@[i as int].1@));
                }
            }
            let loaded = self.journal.load_entry(era, *id, raw.as_slice());
            if loaded.is_err() {
                proof {
                    if forall|x: int| 0 <= x < candidates@.len() ==> encodes_entry(#[trigger] candidates@[x].1@) {
                        assert(encodes_entry(candidates@[i as int].1@));
                        let e = choose|e: JournalEntry| #[trigger] entry_bytes(e) == candidates@[i as int].1@;
                        assert(entry_bytes(e) == raw@);
                    }
                }
                return loaded;
            }
            i = i + 1;
        }
        Ok(())
    }

    /// Journals all pending changes under the given era and id, emptying the overlay.
    pub fn journal_under(&mut self, batch: &mut DBTransaction, now: u64, id: H256, parent_id: H256)
        requires
            old(self).wf(),
        ensures
            final(self).wf(),
            final(self).overlay@.len() == 0,
            final(self).journal.canon_base == old(self).journal.canon_base,
            final(self).journal.entry((now, id)) == Some(
                JournalEntry { parent: parent_id, entries: old(self).overlay }),
            forall|k: BlockKey| k != (now, id) ==> final(self).journal.entry(k) == old(self).journal.entry(k),
            exists|v: Seq<H256>| final(self).journal.is_era_list(now, v) && final(batch)@ == old(batch)@ + seq![
                crate::batch::StoreOp::Put(crate::codec::id_key_rlp(h256_bytes_spec(id)),
                    entry_bytes(
                        JournalEntry { parent: parent_id, entries: old(self).overlay })),
                crate::batch::StoreOp::Put(crate::codec::era_key_rlp(now),
                    crate::codec::ids_bytes(v)),
            ],
    {
        let mut changes: Overlay = Vec::new();
        std::mem::swap(&mut changes, &mut self.overlay);
        self.journal.journal_under(batch, changes, now, id, parent_id);
    }

    /// Marks a candidate for an era as canonical, applying its changes and
    /// invalidating its siblings.
    pub fn mark_canonical(&mut self, batch: &mut DBTransaction, end_era: u64, canon_id: H256)
        requires
            old(self).wf(),
        ensures
            final(self).wf(),
            final(self).overlay == old(self).overlay,
            final(self).journal.canon_base == (end_era, canon_id),
            final(self).journal.entries@ == crate::journal::kept(old(self).journal.entries@, end_era),
            forall|k: BlockKey| #[trigger] final(self).journal.entry(k)
                == (if k.0 == end_era { None } else { old(self).journal.entry(k) }),
            final(batch)@ == old(batch)@ + crate::journal::finalize_ops(old(self).journal.entries@, end_era, canon_id)
                + seq![
                crate::batch::StoreOp::Put(crate::journal::base_key(),
                    crate::codec::base_rlp(end_era, h256_bytes_spec(canon_id))),
                crate::batch::StoreOp::Del(crate::codec::era_key_rlp(end_era)),
            ],
    {
        self.journal.mark_canonical(batch, end_era, canon_id);
    }

    /// Queries the state of an account at a given block: `Found(None)` means that
    /// the account definitively does not exist on this branch, `Canonical` that the
    /// durable store's value is the answer. The overlay of pending changes is
    /// consulted first.
    pub fn get(&self, address: &Address, at: BlockKey) -> (r: Result<Lookup, Error>)
        ensures
            r == self.get_spec(*address, at),
    {
        query(&self.journal, &self.overlay, address, at)
    }

    /// Records `change` for `address` in the overlay, replacing any pending one.
    fn put_pending(&mut self, address: Address, change: Option<AccountMeta>)
        ensures
            final(self).journal == old(self).journal,
            final(self).pending(address) == Some(change),
            forall|a: Address| a != address ==> final(self).pending(a) == old(self).pending(a),
    {
        put_pending(&mut self.overlay, address, change);
    }

    /// Sets the given account's details in the pending changes, overwriting
    /// any earlier pending change; queries see it before the journal.
    pub fn set(&mut self, address: Address, meta: AccountMeta)
        ensures
            final(self).journal == old(self).journal,
            final(self).pending(address) == Some(Some(meta)),
            forall|a: Address| a != address ==> final(self).pending(a) == old(self).pending(a),
            forall|at: BlockKey| #[trigger] final(self).get_spec(address, at) == Ok::<Lookup, Error>(Lookup::Found(Some(meta))),
    {
        self.put_pending(address, Some(meta));
    }

    /// Destroys the account details in the pending changes.
    pub fn remove(&mut self, address: Address)
        ensures
            final(self).journal == old(self).journal,
            final(self).pending(address) == Some(None::<AccountMeta>),
            forall|a: Address| a != address ==> final(self).pending(a) == old(self).pending(a),
            forall|at: BlockKey| #[trigger] final(self).get_spec(address, at) == Ok::<Lookup, Error>(Lookup::Found(None)),
    {
        self.put_pending(address, None);
    }
}

/// What a query answers, given pending changes and a journal: the pending
/// change if there is one, else the journal's answer.
pub open spec fn query_spec(journal: Journal, overlay: Seq<(Address, Option<AccountMeta>)>, a: Address, at: BlockKey)
    -> Result<Lookup, Error>
{
    match lookup(overlay, a) {
        Some(c) => Ok(Lookup::Found(c)),
        None => journal.resolve_spec(a, at),
    }
}

/// Queries the state of account `address` at block `at`, consulting the
/// pending changes `overlay` before `journal`.
pub fn query(journal: &Journal, overlay: &Overlay, address: &Address, at: BlockKey) -> (r: Result<Lookup, Error>)
    ensures
        r == query_spec(*journal, overlay@, *address, at),
{
    match find_change(overlay, address) {
        Some(i) => Ok(Lookup::Found(overlay[i].1)),
        None => journal.resolve(address, at),
    }
}

/// Records `change` for `address` among the pending changes, replacing any earlier one.
pub fn put_pending(overlay: &mut Overlay, address: Address, change: Option<AccountMeta>)
    ensures
        lookup(final(overlay)@, address) == Some(change),
        forall|a: Address| a != address ==> lookup(final(overlay)@, a) == lookup(old(overlay)@, a),
{
    match find_change(overlay, &address) {
        Some(i) => {
            proof {
                lemma_lookup_update(overlay@, i as int, address, change);
            }
            overlay.set(i, (address, change));
        },
        None => {
            overlay.push((address, change));
            assert(overlay@.drop_last() =~= old(overlay)@);
        },
    }
}

/// Decodes the canonical value that the durable store holds for an account:
/// `None` where it holds none, an error where the bytes are no record.
pub fn decode_canonical(raw: Option<&[u8]>) -> (r: Result<Option<AccountMeta>, Error>)
    ensures
        raw is None ==> r == Ok::<Option<AccountMeta>, Error>(None),
        raw matches Some(b) ==> (r is Ok <==> meta_decodable(b@)),
        raw matches Some(b) ==> (r matches Ok(Some(m)) ==> meta_decodes_to(b@, m)),
        raw is Some ==> !(r matches Ok(None)),
        forall|m: AccountMeta| #[trigger] meta_bytes(m) == raw->Some_0@ && raw is Some
            ==> r == Ok::<Option<AccountMeta>, Error>(Some(m)),
{
    match raw {
        None => Ok(None),
        Some(b) => match decode_meta(b) {
            Some(m) => Ok(Some(m)),
            None => Err(Error::Database(String::from_str("corrupted database: malformed account record"))),
        },
    }
}

/// With no pending change for `k`, a query at the canonical base is answered
/// by the durable store directly.
pub proof fn lemma_base_fast_path(db: MetaDB, k: Address)
    requires
        db.pending(k) is None,
    ensures
        db.get_spec(k, db.journal.canon_base) == Ok::<Lookup, Error>(Lookup::Canonical),
{
}

/// A pending change for `k` answers every query of `k`, whatever the journal holds.
pub proof fn lemma_overlay_precedence(db: MetaDB, k: Address, at: BlockKey)
    requires
        db.pending(k) is Some,
    ensures
        db.get_spec(k, at) == Ok::<Lookup, Error>(Lookup::Found(db.pending(k)->Some_0)),
{
}

} // verus!