//! The in-memory fork journal: one delta per candidate block, keyed by
//! `(era, id)`, on top of a canonical base.

use vstd::prelude::*;
use crate::types::{AccountMeta, Address, Error, H256};
use crate::batch::{DBTransaction, StoreOp};
use crate::codec::{
    address_bytes, address_bytes_spec, base_rlp, decode_entry, encode_base, encode_entry,
    encode_ids, encode_meta, entry_bytes, entry_decodes_to, era_key_rlp, h256_bytes_spec,
    id_key, id_key_rlp, ids_bytes, journal_key, meta_bytes,
};

verus! {

/// The value that the last pair with key `k` holds, if any pair has key `k`.
/// Pairs later in the sequence shadow earlier ones.
pub open spec fn lookup<K, V>(s: Seq<(K, V)>, k: K) -> Option<V>
    decreases s.len(),
{
    if s.len() == 0 {
        None
    } else if s.last().0 == k {
        Some(s.last().1)
    } else {
        lookup(s.drop_last(), k)
    }
}

/// Writing `v` at the last position that holds key `k` makes `k` map to `v`
/// and leaves every other key as it was.
pub proof fn lemma_lookup_update<K, V>(s: Seq<(K, V)>, i: int, k: K, v: V)
    requires
        0 <= i < s.len(),
        s[i].0 == k,
        forall|j: int| i < j < s.len() ==> s[j].0 != k,
    ensures
        lookup(s.update(i, (k, v)), k) == Some(v),
        forall|k2: K| k2 != k ==> lookup(s.update(i, (k, v)), k2) == lookup(s, k2),
    decreases s.len(),
{
    let t = s.update(i, (k, v));
    if i == s.len() - 1 {
        assert(t.drop_last() =~= s.drop_last());
    } else {
        assert(t.drop_last() =~= s.drop_last().update(i, (k, v)));
        lemma_lookup_update(s.drop_last(), i, k, v);
    }
    assert forall|k2: K| k2 != k implies lookup(t, k2) == lookup(s, k2) by {
        if i == s.len() - 1 {
            assert(t.drop_last() =~= s.drop_last());
        } else {
            assert(t.drop_last() =~= s.drop_last().update(i, (k, v)));
            assert(t.last() == s.last());
            assert(lookup(s.drop_last().update(i, (k, v)), k2) == lookup(s.drop_last(), k2));
        }
    }
}

/// The changes recorded for one candidate block, and the block it builds on.
#[derive(Debug, PartialEq)]
pub struct JournalEntry {
    pub parent: H256,
    /// Every account changed in this era: `Some` sets it, `None` deletes it.
    pub entries: Vec<(Address, Option<AccountMeta>)>,
}

impl JournalEntry {
    /// The change recorded for `a`, if any.
    pub open spec fn change(&self, a: Address) -> Option<Option<AccountMeta>> {
        lookup(self.entries@, a)
    }
}

/// Finds the last pair with key `a`.
pub fn find_change(s: &Vec<(Address, Option<AccountMeta>)>, a: &Address) -> (r: Option<usize>)
    ensures
        r is None ==> lookup(s@, *a) is None,
        r matches Some(i) ==> i < s@.len() && s@[i as int].0 == *a
            && (forall|j: int| i < j < s@.len() ==> s@[j].0 != *a)
            && lookup(s@, *a) == Some(s@[i as int].1),
{
    let mut i: usize = s.len();
    assert(s@.subrange(0, i as int) =~= s@);
    while i > 0
        invariant
            i <= s@.len(),
            forall|j: int| i <= j < s@.len() ==> s@[j].0 != *a,
            lookup(s@, *a) == lookup(s@.subrange(0, i as int), *a),
        decreases i,
    {
        let ghost p = s@.subrange(0, i as int);
        assert(p.drop_last() =~= s@.subrange(0, i - 1));
        if s[i - 1].0 == *a {
            return Some(i - 1);
        }
        i = i - 1;
    }
    None
}

/// A block: its era (height) and its id.
pub type BlockKey = (u64, H256);

/// Finds the last pair with key `k`.
pub fn find_entry(s: &Vec<(BlockKey, JournalEntry)>, k: &BlockKey) -> (r: Option<usize>)
    ensures
        r is None ==> lookup(s@, *k) is None,
        r is None ==> forall|j: int| 0 <= j < s@.len() ==> s@[j].0 != *k,
        r matches Some(i) ==> i < s@.len() && s@[i as int].0 == *k
            && (forall|j: int| i < j < s@.len() ==> s@[j].0 != *k)
            && lookup(s@, *k) == Some(s@[i as int].1),
{
    let mut i: usize = s.len();
    assert(s@.subrange(0, i as int) =~= s@);
    while i > 0
        invariant
            i <= s@.len(),
            forall|j: int| i <= j < s@.len() ==> s@[j].0 != *k,
            lookup(s@, *k) == lookup(s@.subrange(0, i as int), *k),
        decreases i,
    {
        let ghost p = s@.subrange(0, i as int);
        assert(p.drop_last() =~= s@.subrange(0, i - 1));
        if s[i - 1].0.0 == k.0 && s[i - 1].0.1 == k.1 {
            return Some(i - 1);
        }
        i = i - 1;
    }
    None
}

/// What a query resolved to.
#[derive(Clone, Copy, Debug, PartialEq, Eq)]
pub enum Lookup {
    /// The state is known without the durable store: `None` means that the
    /// account definitively does not exist there.
    Found(Option<AccountMeta>),
    /// The answer is the canonical value held in the durable store.
    Canonical,
}

/// The entries of `s` that do not belong to era `era`, in order.
pub open spec fn kept(s: Seq<(BlockKey, JournalEntry)>, era: u64) -> Seq<(BlockKey, JournalEntry)>
    decreases s.len(),
{
    if s.len() == 0 {
        Seq::empty()
    } else if s.last().0.0 != era {
        kept(s.drop_last(), era).push(s.last())
    } else {
        kept(s.drop_last(), era)
    }
}

/// The write that applies one change to the canonical state.
pub open spec fn change_op(c: (Address, Option<AccountMeta>)) -> StoreOp {
    match c.1 {
        Some(m) => StoreOp::Put(address_bytes_spec(c.0), meta_bytes(m)),
        None => StoreOp::Del(address_bytes_spec(c.0)),
    }
}

/// The writes that finalizing `rec` at `era` with `canon` chosen stages:
/// its journal record goes, and the chosen block's changes are applied.
pub open spec fn finalize_ops_of(rec: (BlockKey, JournalEntry), era: u64, canon: H256) -> Seq<StoreOp> {
    if rec.0.0 != era {
        Seq::empty()
    } else if rec.0.1 == canon {
        seq![StoreOp::Del(id_key_rlp(h256_bytes_spec(rec.0.1)))]
            + rec.1.entries@.map_values(|c: (Address, Option<AccountMeta>)| change_op(c))
    } else {
        seq![StoreOp::Del(id_key_rlp(h256_bytes_spec(rec.0.1)))]
    }
}

/// The writes that finalizing era `era` stages for the entries `s`, in order.
pub open spec fn finalize_ops(s: Seq<(BlockKey, JournalEntry)>, era: u64, canon: H256) -> Seq<StoreOp>
    decreases s.len(),
{
    if s.len() == 0 {
        Seq::empty()
    } else {
        finalize_ops(s.drop_last(), era, canon) + finalize_ops_of(s.last(), era, canon)
    }
}

/// The key of the canonical base marker.
pub open spec fn base_key() -> Seq<u8> {
    seq![98u8, 97u8, 115u8, 101u8]
}

/// Every pair that `kept` keeps is a pair of `s`.
pub proof fn lemma_kept_from(s: Seq<(BlockKey, JournalEntry)>, era: u64)
    ensures
        forall|x: int| 0 <= x < kept(s, era).len() ==> exists|j: int| 0 <= j < s.len()
            && #[trigger] kept(s, era)[x] == s[j],
    decreases s.len(),
{
    if s.len() > 0 {
        lemma_kept_from(s.drop_last(), era);
        let t = s.drop_last();
        assert forall|x: int| 0 <= x < kept(s, era).len() implies exists|j: int| 0 <= j < s.len()
            && #[trigger] kept(s, era)[x] == s[j] by {
            if x < kept(t, era).len() {
                let j = choose|j: int| 0 <= j < t.len() && #[trigger] kept(t, era)[x] == t[j];
                assert(s[j] == t[j]);
                if s.last().0.0 != era {
                    assert(kept(s, era)[x] == kept(t, era)[x]);
                }
            } else {
                assert(kept(s, era)[x] == s[s.len() - 1]);
            }
        }
    }
}

/// Keys that are unique in `s` stay unique in what `kept` keeps.
pub proof fn lemma_kept_unique(s: Seq<(BlockKey, JournalEntry)>, era: u64)
    requires
        keys_unique(s),
    ensures
        keys_unique(kept(s, era)),
    decreases s.len(),
{
    if s.len() > 0 {
        let t = s.drop_last();
        assert(keys_unique(t));
        lemma_kept_unique(t, era);
        if s.last().0.0 != era {
            lemma_kept_from(t, era);
            let u = kept(s, era);
            assert forall|x: int, y: int| 0 <= x < y < u.len() implies u[x].0 != u[y].0 by {
                if y == u.len() - 1 {
                    let j = choose|j: int| 0 <= j < t.len() && #[trigger] kept(t, era)[x] == t[j];
                    assert(s[j] == t[j]);
                }
            }
        }
    }
}

/// No two pairs of `s` share a key.
pub open spec fn keys_unique(s: Seq<(BlockKey, JournalEntry)>) -> bool {
    forall|x: int, y: int| 0 <= x < y < s.len() ==> s[x].0 != s[y].0
}

pub proof fn lemma_lookup_kept(s: Seq<(BlockKey, JournalEntry)>, era: u64, k: BlockKey)
    ensures
        lookup(kept(s, era), k) == (if k.0 == era { None } else { lookup(s, k) }),
    decreases s.len(),
{
    if s.len() > 0 {
        lemma_lookup_kept(s.drop_last(), era, k);
        if s.last().0.0 != era {
            assert(kept(s, era).drop_last() =~= kept(s.drop_last(), era));
        }
    }
}

/// The pair at the last position holding key `k` is what `lookup` finds.
pub proof fn lemma_lookup_last<K, V>(s: Seq<(K, V)>, j: int, k: K)
    requires
        0 <= j < s.len(),
        s[j].0 == k,
        forall|l: int| j < l < s.len() ==> s[l].0 != k,
    ensures
        lookup(s, k) == Some(s[j].1),
    decreases s.len(),
{
    if j < s.len() - 1 {
        lemma_lookup_last(s.drop_last(), j, k);
    }
}

/// Where `lookup` finds a value, it is that of the last pair holding the key.
pub proof fn lemma_lookup_found<K, V>(s: Seq<(K, V)>, k: K) -> (j: int)
    requires
        lookup(s, k) is Some,
    ensures
        0 <= j < s.len(),
        s[j].0 == k,
        forall|l: int| j < l < s.len() ==> s[l].0 != k,
    decreases s.len(),
{
    if s.last().0 == k {
        s.len() - 1
    } else {
        let j = lemma_lookup_found(s.drop_last(), k);
        assert forall|l: int| j < l < s.len() implies s[l].0 != k by {
            if l < s.len() - 1 {
                assert(s[l] == s.drop_last()[l]);
            }
        }
        assert(s[j] == s.drop_last()[j]);
        j
    }
}

/// Some pair of `s` holds key `k` exactly where `lookup` finds a value for it.
pub proof fn lemma_lookup_some<K, V>(s: Seq<(K, V)>, k: K)
    ensures
        lookup(s, k) is Some <==> exists|i: int| 0 <= i < s.len() && s[i].0 == k,
{
    if exists|i: int| 0 <= i < s.len() && s[i].0 == k {
        let i = choose|i: int| 0 <= i < s.len() && s[i].0 == k;
        let l = choose_last(s, i, k);
        lemma_lookup_last(s, l, k);
    }
    if lookup(s, k) is Some {
        let j = lemma_lookup_found(s, k);
    }
}

/// The index pairs of `mods` whose block is not in era `era`.
fn index_without_era(mods: &Vec<(Address, BlockKey)>, era: u64) -> (r: Vec<(Address, BlockKey)>)
    ensures
        forall|p: (Address, BlockKey)| #[trigger] r@.contains(p) <==> (mods@.contains(p) && p.1.0 != era),
{
    let mut r: Vec<(Address, BlockKey)> = Vec::new();
    let mut i: usize = 0;
    while i < mods.len()
        invariant
            i <= mods@.len(),
            forall|p: (Address, BlockKey)| #[trigger] r@.contains(p)
                <==> (exists|j: int| 0 <= j < i && mods@[j] == p) && p.1.0 != era,
        decreases mods@.len() - i,
    {
        let p = mods[i];
        let ghost r0 = r@;
        if p.1.0 != era {
            r.push(p);
            proof {
                assert forall|q: (Address, BlockKey)| #[trigger] r@.contains(q) <==> r0.contains(q) || q == p by {
                    if r@.contains(q) && q != p {
                        let x = choose|x: int| 0 <= x < r@.len() && r@[x] == q;
                        assert(r0[x] == q);
                    }
                    if r0.contains(q) {
                        let x = choose|x: int| 0 <= x < r0.len() && r0[x] == q;
                        assert(r@[x] == q);
                    }
                    if q == p {
                        assert(r@[r@.len() - 1] == q);
                    }
                }
            }
        }
        proof {
            assert forall|q: (Address, BlockKey)| #[trigger] r@.contains(q)
                <==> (exists|j: int| 0 <= j < i + 1 && mods@[j] == q) && q.1.0 != era by {
                if exists|j: int| 0 <= j < i + 1 && mods@[j] == q {
                    let j = choose|j: int| 0 <= j < i + 1 && mods@[j] == q;
                    if j < i {
                        assert(exists|j: int| 0 <= j < i && mods@[j] == q);
                    }
                }
                if exists|j: int| 0 <= j < i && mods@[j] == q {
                    let j = choose|j: int| 0 <= j < i && mods@[j] == q;
                    assert(exists|j2: int| 0 <= j2 < i + 1 && mods@[j2] == q);
                }
            }
        }
        i = i + 1;
    }
    proof {
        assert forall|p: (Address, BlockKey)| #[trigger] r@.contains(p) <==> (mods@.contains(p) && p.1.0 != era) by {
            if mods@.contains(p) {
                let j = choose|j: int| 0 <= j < mods@.len() && mods@[j] == p;
            }
        }
    }
    r
}

/// The index pairs of `mods` whose block is not `k`.
fn index_without_block(mods: &Vec<(Address, BlockKey)>, k: BlockKey) -> (r: Vec<(Address, BlockKey)>)
    ensures
        forall|p: (Address, BlockKey)| #[trigger] r@.contains(p) <==> (mods@.contains(p) && p.1 != k),
{
    let mut r: Vec<(Address, BlockKey)> = Vec::new();
    let mut i: usize = 0;
    while i < mods.len()
        invariant
            i <= mods@.len(),
            forall|p: (Address, BlockKey)| #[trigger] r@.contains(p)
                <==> (exists|j: int| 0 <= j < i && mods@[j] == p) && p.1 != k,
        decreases mods@.len() - i,
    {
        let p = mods[i];
        let ghost r0 = r@;
        if p.1.0 != k.0 || p.1.1 != k.1 {
            r.push(p);
            proof {
                assert forall|q: (Address, BlockKey)| #[trigger] r@.contains(q) <==> r0.contains(q) || q == p by {
                    if r@.contains(q) && q != p {
                        let x = choose|x: int| 0 <= x < r@.len() && r@[x] == q;
                        assert(r0[x] == q);
                    }
                    if r0.contains(q) {
                        let x = choose|x: int| 0 <= x < r0.len() && r0[x] == q;
                        assert(r@[x] == q);
                    }
                    if q == p {
                        assert(r@[r@.len() - 1] == q);
                    }
                }
            }
        }
        proof {
            assert forall|q: (Address, BlockKey)| #[trigger] r@.contains(q)
                <==> (exists|j: int| 0 <= j < i + 1 && mods@[j] == q) && q.1 != k by {
                if exists|j: int| 0 <= j < i + 1 && mods@[j] == q {
                    let j = choose|j: int| 0 <= j < i + 1 && mods@[j] == q;
                    if j < i {
                        assert(exists|j: int| 0 <= j < i && mods@[j] == q);
                    }
                }
                if exists|j: int| 0 <= j < i && mods@[j] == q {
                    let j = choose|j: int| 0 <= j < i && mods@[j] == q;
                    assert(exists|j2: int| 0 <= j2 < i + 1 && mods@[j2] == q);
                }
            }
        }
        i = i + 1;
    }
    proof {
        assert forall|p: (Address, BlockKey)| #[trigger] r@.contains(p) <==> (mods@.contains(p) && p.1 != k) by {
            if mods@.contains(p) {
                let j = choose|j: int| 0 <= j < mods@.len() && mods@[j] == p;
            }
        }
    }
    r
}

/// Adds a pair `(a, k)` for each account `a` that `changes` holds.
fn index_changes(mods: &mut Vec<(Address, BlockKey)>, k: BlockKey, changes: &Vec<(Address, Option<AccountMeta>)>)
    ensures
        forall|p: (Address, BlockKey)| #[trigger] final(mods)@.contains(p) <==> (old(mods)@.contains(p)
            || (p.1 == k && exists|i: int| 0 <= i < changes@.len() && changes@[i].0 == p.0)),
{
    let mut i: usize = 0;
    while i < changes.len()
        invariant
            i <= changes@.len(),
            forall|p: (Address, BlockKey)| #[trigger] mods@.contains(p) <==> (old(mods)@.contains(p)
                || (p.1 == k && exists|j: int| 0 <= j < i && changes@[j].0 == p.0)),
        decreases changes@.len() - i,
    {
        let p = (changes[i].0, k);
        let ghost m0 = mods@;
        mods.push(p);
        proof {
            assert forall|q: (Address, BlockKey)| #[trigger] mods@.contains(q) <==> m0.contains(q) || q == p by {
                if mods@.contains(q) && q != p {
                    let x = choose|x: int| 0 <= x < mods@.len() && mods@[x] == q;
                    assert(m0[x] == q);
                }
                if m0.contains(q) {
                    let x = choose|x: int| 0 <= x < m0.len() && m0[x] == q;
                    assert(mods@[x] == q);
                }
                if q == p {
                    assert(mods@[mods@.len() - 1] == q);
                }
            }
            assert forall|q: (Address, BlockKey)| #[trigger] mods@.contains(q) <==> (old(mods)@.contains(q)
                || (q.1 == k && exists|j: int| 0 <= j < i + 1 && changes@[j].0 == q.0)) by {
                if q.1 == k && exists|j: int| 0 <= j < i + 1 && changes@[j].0 == q.0 {
                    let j = choose|j: int| 0 <= j < i + 1 && changes@[j].0 == q.0;
                    if j < i {
                        assert(exists|j: int| 0 <= j < i && changes@[j].0 == q.0);
                    } else {
                        assert(q == p);
                    }
                }
                if q.1 == k && exists|j: int| 0 <= j < i && changes@[j].0 == q.0 {
                    let j = choose|j: int| 0 <= j < i && changes@[j].0 == q.0;
                    assert(exists|j2: int| 0 <= j2 < i + 1 && changes@[j2].0 == q.0);
                }
            }
        }
        i = i + 1;
    }
}

/// The ids are in strictly ascending order.
pub open spec fn ids_ascending(v: Seq<H256>) -> bool {
    forall|a: int, b: int| 0 <= a < b < v.len() ==> v[a]@ < v[b]@
}

/// Hashes are ordered by their high halves, then by their low halves.
pub proof fn lemma_h256_order(a: H256, b: H256)
    ensures
        (a@ < b@) == (a.hi < b.hi || (a.hi == b.hi && a.lo < b.lo)),
        a@ == b@ ==> a == b,
{
    let c = crate::types::two_128();
    let (ah, al, bh, bl) = (a.hi as int, a.lo as int, b.hi as int, b.lo as int);
    assert(0 <= al < c && 0 <= bl < c && ah >= 0 && bh >= 0);
    if ah < bh {
        assert(ah * c + al < bh * c + bl) by (nonlinear_arith)
            requires ah < bh, 0 <= al < c, 0 <= bl < c, c > 0;
    } else if ah > bh {
        assert(ah * c + al > bh * c + bl) by (nonlinear_arith)
            requires ah > bh, 0 <= al < c, 0 <= bl < c, c > 0;
    }
}

/// Two hashes with the same value are the same hash.
pub proof fn lemma_halves_view(a: H256, b: H256)
    requires
        a@ == b@,
    ensures
        a == b,
{
    lemma_h256_order(a, b);
}

/// Whether `a` is less than `b`.
pub fn h256_lt(a: &H256, b: &H256) -> (r: bool)
    ensures
        r == (a@ < b@),
{
    proof {
        lemma_h256_order(*a, *b);
    }
    a.hi < b.hi || (a.hi == b.hi && a.lo < b.lo)
}

/// Where some pair of `s` at or after `j` holds key `k`, the last one that does.
pub proof fn choose_last<K, V>(s: Seq<(K, V)>, j: int, k: K) -> (l: int)
    requires
        0 <= j < s.len(),
        s[j].0 == k,
    ensures
        j <= l < s.len(),
        s[l].0 == k,
        forall|m: int| l < m < s.len() ==> s[m].0 != k,
    decreases s.len() - j,
{
    if exists|m: int| j < m < s.len() && s[m].0 == k {
        let m = choose|m: int| j < m < s.len() && s[m].0 == k;
        choose_last(s, m, k)
    } else {
        j
    }
}

/// The journal: a delta per candidate block above the canonical base.
#[derive(Debug, PartialEq)]
pub struct Journal {
    /// The candidate blocks and their deltas; a later pair for a key shadows an earlier one.
    pub entries: Vec<(BlockKey, JournalEntry)>,
    /// The modification index: a pair `(a, k)` for each account `a` that the
    /// delta of block `k` changes.
    pub modifications: Vec<(Address, BlockKey)>,
    /// The base which the journal builds off of.
    pub canon_base: BlockKey,
}

impl Journal {
    /// Each block has one recorded delta, and the modification index lists
    /// exactly the accounts that each delta changes.
    pub open spec fn wf(&self) -> bool {
        keys_unique(self.entries@) && self.index_ok()
    }

    /// The modification index pairs an account with a block exactly where the
    /// block's delta changes the account.
    pub open spec fn index_ok(&self) -> bool {
        forall|a: Address, k: BlockKey| #[trigger] self.modifications@.contains((a, k))
            <==> (self.entry(k) matches Some(e) && e.change(a) is Some)
    }

    /// The delta recorded for block `k`, if any.
    pub open spec fn entry(&self, k: BlockKey) -> Option<JournalEntry> {
        lookup(self.entries@, k)
    }

    /// The state of `a` seen from block `(era, id)`, walking down the parent chain:
    /// the first delta that changes `a` answers; the canonical base means the
    /// durable store answers; any other block at or below the base's era has been
    /// pruned; a block missing from the journal is an error.
    pub open spec fn walk(&self, a: Address, era: u64, id: H256) -> Result<Lookup, Error>
        decreases era,
    {
        if era <= self.canon_base.0 {
            if id == self.canon_base.1 {
                Ok(Lookup::Canonical)
            } else {
                Err(Error::StatePruned(era, id))
            }
        } else {
            match self.entry((era, id)) {
                None => Err(Error::MissingJournalEntry(era, id)),
                Some(e) => match e.change(a) {
                    Some(c) => Ok(Lookup::Found(c)),
                    None => self.walk(a, (era - 1) as u64, e.parent),
                },
            }
        }
    }

    /// The state of `a` at block `at`: the base itself is answered by the durable
    /// store; any other block at or below the base's era has been pruned; any
    /// other block must be in the journal, and is resolved by `walk`.
    pub open spec fn resolve_spec(&self, a: Address, at: BlockKey) -> Result<Lookup, Error> {
        if at == self.canon_base {
            Ok(Lookup::Canonical)
        } else if at.0 <= self.canon_base.0 {
            Err(Error::StatePruned(at.0, at.1))
        } else if self.entry(at) is None {
            Err(Error::MissingJournalEntry(at.0, at.1))
        } else {
            self.walk(a, at.0, at.1)
        }
    }

    /// An empty journal building off `base`.
    pub fn new(base: BlockKey) -> (r: Journal)
        ensures
            r.canon_base == base,
            r.wf(),
            r.entries@.len() == 0,
            forall|k: BlockKey| r.entry(k) is None,
    {
        Journal { entries: Vec::new(), modifications: Vec::new(), canon_base: base }
    }

    /// Resolves the state of `a` at block `at`.
    pub fn resolve(&self, a: &Address, at: BlockKey) -> (r: Result<Lookup, Error>)
        ensures
            r == self.resolve_spec(*a, at),
    {
        if at.0 == self.canon_base.0 && at.1 == self.canon_base.1 {
            return Ok(Lookup::Canonical);
        }
        if at.0 <= self.canon_base.0 {
            return Err(Error::StatePruned(at.0, at.1));
        }
        if find_entry(&self.entries, &at).is_none() {
            return Err(Error::MissingJournalEntry(at.0, at.1));
        }
        let mut era = at.0;
        let mut id = at.1;
        loop
            invariant
                self.resolve_spec(*a, at) == self.walk(*a, era, id),
            decreases era,
        {
            if era <= self.canon_base.0 {
                if id == self.canon_base.1 {
                    return Ok(Lookup::Canonical);
                } else {
                    return Err(Error::StatePruned(era, id));
                }
            }
            match find_entry(&self.entries, &(era, id)) {
                None => {
                    return Err(Error::MissingJournalEntry(era, id));
                },
                Some(i) => {
                    let e = &self.entries[i].1;
                    match find_change(&e.entries, a) {
                        Some(j) => {
                            return Ok(Lookup::Found(e.entries[j].1));
                        },
                        None => {
                            id = e.parent;
                            era = era - 1;
                        },
                    }
                },
            }
        }
    }

    /// The blocks that the modification index lists for account `a`: every
    /// block whose recorded delta changes `a`, in index order.
    pub fn modified_blocks(&self, a: &Address) -> (r: Vec<BlockKey>)
        requires
            self.wf(),
        ensures
            forall|k: BlockKey| #[trigger] r@.contains(k)
                <==> (self.entry(k) matches Some(e) && e.change(*a) is Some),
    {
        let mut r: Vec<BlockKey> = Vec::new();
        let mut i: usize = 0;
        while i < self.modifications.len()
            invariant
                i <= self.modifications@.len(),
                forall|k: BlockKey| #[trigger] r@.contains(k)
                    <==> exists|j: int| 0 <= j < i && self.modifications@[j] == (*a, k),
            decreases self.modifications@.len() - i,
        {
            let p = self.modifications[i];
            let ghost r0 = r@;
            if p.0 == *a {
                r.push(p.1);
                proof {
                    assert forall|q: BlockKey| #[trigger] r@.contains(q) <==> r0.contains(q) || q == p.1 by {
                        if r@.contains(q) && q != p.1 {
                            let x = choose|x: int| 0 <= x < r@.len() && r@[x] == q;
                            assert(r0[x] == q);
                        }
                        if r0.contains(q) {
                            let x = choose|x: int| 0 <= x < r0.len() && r0[x] == q;
                            assert(r@[x] == q);
                        }
                        if q == p.1 {
                            assert(r@[r@.len() - 1] == q);
                        }
                    }
                }
            }
            proof {
                assert forall|k: BlockKey| #[trigger] r@.contains(k)
                    <==> exists|j: int| 0 <= j < i + 1 && self.modifications@[j] == (*a, k) by {
                    if exists|j: int| 0 <= j < i + 1 && self.modifications@[j] == (*a, k) {
                        let j = choose|j: int| 0 <= j < i + 1 && self.modifications@[j] == (*a, k);
                        if j < i {
                            assert(exists|j: int| 0 <= j < i && self.modifications@[j] == (*a, k));
                        }
                    }
                    if exists|j: int| 0 <= j < i && self.modifications@[j] == (*a, k) {
                        let j = choose|j: int| 0 <= j < i && self.modifications@[j] == (*a, k);
                        assert(exists|j2: int| 0 <= j2 < i + 1 && self.modifications@[j2] == (*a, k));
                    }
                }
            }
            i = i + 1;
        }
        proof {
            assert forall|k: BlockKey| #[trigger] r@.contains(k)
                <==> (self.entry(k) matches Some(e) && e.change(*a) is Some) by {
                if self.modifications@.contains((*a, k)) {
                    let j = choose|j: int| 0 <= j < self.modifications@.len() && self.modifications@[j] == (*a, k);
                }
            }
        }
        r
    }

    /// Whether `v` lists the ids of the candidate blocks of era `era` in
    /// strictly ascending order.
    pub open spec fn is_era_list(&self, era: u64, v: Seq<H256>) -> bool {
        ids_ascending(v) && forall|x: H256| #[trigger] v.contains(x) <==> self.entry((era, x)) is Some
    }

    /// The ids of the candidate blocks of era `era`, in ascending order.
    pub fn candidates(&self, era: u64) -> (r: Vec<H256>)
        requires
            self.wf(),
        ensures
            self.is_era_list(era, r@),
    {
        let mut r: Vec<H256> = Vec::new();
        let mut i: usize = 0;
        while i < self.entries.len()
            invariant
                i <= self.entries@.len(),
                self.wf(),
                ids_ascending(r@),
                forall|x: H256| #[trigger] r@.contains(x) <==> exists|j: int| 0 <= j < i
                    && self.entries@[j].0 == (era, x),
            decreases self.entries@.len() - i,
        {
            let k = self.entries[i].0;
            if k.0 == era {
                let x = k.1;
                proof {
                    if r@.contains(x) {
                        let j = choose|j: int| 0 <= j < i && self.entries@[j].0 == (era, x);
                        assert(self.entries@[j].0 == self.entries@[i as int].0);
                    }
                }
                let mut p: usize = 0;
                while p < r.len() && h256_lt(&r[p], &x)
                    invariant
                        p <= r@.len(),
                        forall|q: int| 0 <= q < p ==> r@[q]@ < x@,
                    decreases r@.len() - p,
                {
                    p = p + 1;
                }
                let ghost r0 = r@;
                proof {
                    if p < r0.len() {
                        assert(r0[p as int] != x) by {
                            assert(r0.contains(r0[p as int]));
                        }
                        assert(r0[p as int]@ != x@) by {
                            if r0[p as int]@ == x@ {
                                lemma_halves_view(r0[p as int], x);
                            }
                        }
                    }
                }
                r.insert(p, x);
                proof {
                    assert forall|a: int, b: int| 0 <= a < b < r@.len() implies r@[a]@ < r@[b]@ by {
                        if b == p {
                        } else if a == p {
                            assert(r@[b] == r0[b - 1]);
                            assert(r0[p as int]@ <= r0[b - 1]@);
                        } else if a > p {
                            assert(r@[a] == r0[a - 1] && r@[b] == r0[b - 1]);
                        } else if b > p {
                            assert(r@[b] == r0[b - 1]);
                        }
                    }
                    assert forall|y: H256| #[trigger] r@.contains(y) <==> exists|j: int| 0 <= j < i + 1
                        && self.entries@[j].0 == (era, y) by {
                        if r@.contains(y) && y != x {
                            let q = choose|q: int| 0 <= q < r@.len() && r@[q] == y;
                            if q < p {
                                assert(r0[q] == y);
                            } else {
                                assert(r0[q - 1] == y);
                            }
                            assert(r0.contains(y));
                        }
                        if y != x && r0.contains(y) {
                            let q = choose|q: int| 0 <= q < r0.len() && r0[q] == y;
                            if q < p {
                                assert(r@[q] == y);
                            } else {
                                assert(r@[q + 1] == y);
                            }
                        }
                        if y == x {
                            assert(r@[p as int] == x);
                        }
                        if exists|j: int| 0 <= j < i + 1 && self.entries@[j].0 == (era, y) {
                            let j = choose|j: int| 0 <= j < i + 1 && self.entries@[j].0 == (era, y);
                            if j == i {
                                assert(y == x);
                            }
                        }
                    }
                }
            } else {
                proof {
                    assert forall|y: H256| #[trigger] r@.contains(y) <==> exists|j: int| 0 <= j < i + 1
                        && self.entries@[j].0 == (era, y) by {
                        if exists|j: int| 0 <= j < i + 1 && self.entries@[j].0 == (era, y) {
                            let j = choose|j: int| 0 <= j < i + 1 && self.entries@[j].0 == (era, y);
                            assert(j != i);
                        }
                    }
                }
            }
            i = i + 1;
        }
        proof {
            assert forall|x: H256| #[trigger] r@.contains(x) <==> self.entry((era, x)) is Some by {
                if r@.contains(x) {
                    let j = choose|j: int| 0 <= j < self.entries@.len() && self.entries@[j].0 == (era, x);
                    let l = choose_last(self.entries@, j, (era, x));
                    lemma_lookup_last(self.entries@, l, (era, x));
                }
                if self.entry((era, x)) is Some {
                    let j = lemma_lookup_found(self.entries@, (era, x));
                }
            }
        }
        r
    }

    /// Stages the candidate list of era `era`.
    pub fn write_era(&self, batch: &mut DBTransaction, era: u64)
        requires
            self.wf(),
        ensures
            exists|v: Seq<H256>| self.is_era_list(era, v)
                && final(batch)@ == old(batch)@.push(StoreOp::Put(era_key_rlp(era), ids_bytes(v))),
    {
        let ids = self.candidates(era);
        batch.put(journal_key(era), encode_ids(&ids));
    }

    /// Records `e` as the delta of block `k`, replacing any earlier one.
    pub fn insert(&mut self, k: BlockKey, e: JournalEntry)
        requires
            old(self).wf(),
        ensures
            final(self).wf(),
            final(self).canon_base == old(self).canon_base,
            final(self).entry(k) == Some(e),
            forall|k2: BlockKey| k2 != k ==> final(self).entry(k2) == old(self).entry(k2),
    {
        let mut mods = index_without_block(&self.modifications, k);
        index_changes(&mut mods, k, &e.entries);
        self.modifications = mods;
        proof {
            assert forall|a: Address| (exists|i: int| 0 <= i < e.entries@.len() && e.entries@[i].0 == a)
                <==> #[trigger] e.change(a) is Some by {
                lemma_lookup_some(e.entries@, a);
            }
        }
        match find_entry(&self.entries, &k) {
            Some(i) => {
                proof {
                    lemma_lookup_update(self.entries@, i as int, k, e);
                }
                self.entries.set(i, (k, e));
                assert(keys_unique(self.entries@)) by {
                    assert forall|x: int, y: int| 0 <= x < y < self.entries@.len()
                        implies self.entries@[x].0 != self.entries@[y].0 by {
                        assert(self.entries@[x].0 == old(self).entries@[x].0);
                        assert(self.entries@[y].0 == old(self).entries@[y].0);
                    }
                }
            },
            None => {
                self.entries.push((k, e));
                assert(self.entries@.drop_last() =~= old(self).entries@);
            },
        }
    }

    /// Seals `changes` as the delta of block `(now, id)` built on `parent_id`,
    /// staging its record and the updated candidate list of era `now`.
    pub fn journal_under(
        &mut self,
        batch: &mut DBTransaction,
        changes: Vec<(Address, Option<AccountMeta>)>,
        now: u64,
        id: H256,
        parent_id: H256,
    )
        requires
            old(self).wf(),
        ensures
            final(self).wf(),
            final(self).canon_base == old(self).canon_base,
            final(self).entry((now, id)) == Some(JournalEntry { parent: parent_id, entries: changes }),
            forall|k: BlockKey| k != (now, id) ==> final(self).entry(k) == old(self).entry(k),
            exists|v: Seq<H256>| final(self).is_era_list(now, v) && final(batch)@ == old(batch)@ + seq![
                StoreOp::Put(id_key_rlp(h256_bytes_spec(id)),
                    entry_bytes(JournalEntry { parent: parent_id, entries: changes })),
                StoreOp::Put(era_key_rlp(now), ids_bytes(v)),
            ],
    {
        let entry = JournalEntry { parent: parent_id, entries: changes };
        let encoded = encode_entry(&entry);
        batch.put(id_key(&id), encoded);
        self.insert((now, id), entry);
        let ghost mid = batch@;
        self.write_era(batch, now);
        proof {
            let v = choose|v: Seq<H256>| self.is_era_list(now, v)
                && batch@ == mid.push(StoreOp::Put(era_key_rlp(now), ids_bytes(v)));
            assert(batch@ =~= old(batch)@ + seq![
                StoreOp::Put(id_key_rlp(h256_bytes_spec(id)),
                    entry_bytes(JournalEntry { parent: parent_id, entries: changes })),
                StoreOp::Put(era_key_rlp(now), ids_bytes(v)),
            ]);
        }
    }

    /// Finalizes era `era` with block `canon_id` chosen: every candidate of the
    /// era leaves the journal, the chosen one's changes are staged as canonical
    /// writes, and the base moves to `(era, canon_id)`.
    pub fn mark_canonical(&mut self, batch: &mut DBTransaction, era: u64, canon_id: H256)
        requires
            old(self).wf(),
        ensures
            final(self).wf(),
            final(self).canon_base == (era, canon_id),
            final(self).entries@ == kept(old(self).entries@, era),
            forall|k: BlockKey| #[trigger] final(self).entry(k)
                == (if k.0 == era { None } else { old(self).entry(k) }),
            final(batch)@ == old(batch)@ + finalize_ops(old(self).entries@, era, canon_id) + seq![
                StoreOp::Put(base_key(), base_rlp(era, h256_bytes_spec(canon_id))),
                StoreOp::Del(era_key_rlp(era)),
            ],
    {
        let mut rest: Vec<(BlockKey, JournalEntry)> = Vec::new();
        std::mem::swap(&mut rest, &mut self.entries);
        let ghost orig = rest@;
        let ghost pre = batch@;
        let ghost mut n: int = 0;
        while rest.len() > 0
            invariant
                0 <= n <= orig.len(),
                self.modifications == old(self).modifications,
                rest@ == orig.subrange(n, orig.len() as int),
                self.entries@ == kept(orig.subrange(0, n), era),
                batch@ == pre + finalize_ops(orig.subrange(0, n), era, canon_id),
            decreases rest@.len(),
        {
            let (k, e) = rest.remove(0);
            let ghost before = batch@;
            proof {
                assert(orig.subrange(0, n + 1).drop_last() =~= orig.subrange(0, n));
                assert(orig.subrange(0, n + 1).last() == orig[n]);
                assert(orig[n] == (k, e));
            }
            if k.0 == era {
                batch.delete(id_key(&k.1));
                if k.1 == canon_id {
                    let ghost start = batch@;
                    let mut j: usize = 0;
                    while j < e.entries.len()
                        invariant
                            j <= e.entries@.len(),
                            batch@ == start + e.entries@.subrange(0, j as int).map_values(
                                |c: (Address, Option<AccountMeta>)| change_op(c)),
                        decreases e.entries@.len() - j,
                    {
                        let key = address_bytes(&e.entries[j].0);
                        match &e.entries[j].1 {
                            Some(m) => batch.put(key, encode_meta(m)),
                            None => batch.delete(key),
                        }
                        proof {
                            assert(e.entries@.subrange(0, j + 1).map_values(
                                |c: (Address, Option<AccountMeta>)| change_op(c))
                                =~= e.entries@.subrange(0, j as int).map_values(
                                |c: (Address, Option<AccountMeta>)| change_op(c)).push(change_op(e.entries@[j as int])));
                        }
                        j = j + 1;
                    }
                    assert(e.entries@.subrange(0, j as int) =~= e.entries@);
                }
                assert(batch@ =~= before + finalize_ops_of((k, e), era, canon_id));
            } else {
                self.entries.push((k, e));
                assert(batch@ =~= before + finalize_ops_of((k, e), era, canon_id));
            }
            proof {
                n = n + 1;
                assert(batch@ =~= pre + finalize_ops(orig.subrange(0, n), era, canon_id));
            }
        }
        assert(orig.subrange(0, n) =~= orig);
        self.modifications = index_without_era(&self.modifications, era);
        self.canon_base = (era, canon_id);
        batch.put(vec![98u8, 97u8, 115u8, 101u8], encode_base(era, &canon_id));
        batch.delete(journal_key(era));
        proof {
            assert forall|k: BlockKey| #[trigger] self.entry(k)
                == (if k.0 == era { None } else { old(self).entry(k) }) by {
                lemma_lookup_kept(orig, era, k);
            }
            lemma_kept_unique(orig, era);
        }
    }

    /// Loads the recorded delta of block `(era, id)` from its encoding.
    pub fn load_entry(&mut self, era: u64, id: H256, raw: &[u8]) -> (r: Result<(), Error>)
        requires
            old(self).wf(),
        ensures
            final(self).wf(),
            r is Ok ==> (final(self).entry((era, id)) matches Some(e) && entry_decodes_to(raw@, e)),
            r is Ok ==> forall|k: BlockKey| k != (era, id) ==> final(self).entry(k) == old(self).entry(k),
            r is Err ==> *final(self) == *old(self),
            final(self).canon_base == old(self).canon_base,
            forall|e: JournalEntry| #[trigger] entry_bytes(e) == raw@ ==> (r is Ok
                && (final(self).entry((era, id)) matches Some(d) && d.parent == e.parent && d.entries@ == e.entries@)),
    {
        match decode_entry(raw) {
            Some(e) => {
                self.insert((era, id), e);
                Ok(())
            },
            None => Err(Error::Database(String::from_str("corrupted database: malformed journal entry"))),
        }
    }
}

/// Sibling candidates are resolved each along its own ancestry: two blocks of
/// one era that both change account `k` answer with their own changes.
pub proof fn lemma_fork_isolation(j: Journal, k: Address, era: u64, a: H256, b: H256)
    requires
        era > j.canon_base.0,
        j.entry((era, a)) matches Some(ea) && ea.change(k) is Some,
        j.entry((era, b)) matches Some(eb) && eb.change(k) is Some,
    ensures
        j.resolve_spec(k, (era, a)) == Ok::<Lookup, Error>(Lookup::Found(j.entry((era, a))->Some_0.change(k)->Some_0)),
        j.resolve_spec(k, (era, b)) == Ok::<Lookup, Error>(Lookup::Found(j.entry((era, b))->Some_0.change(k)->Some_0)),
{
}

/// Whether the walk for account `a` from block `(era, id)` never looks at block `k`.
pub open spec fn walk_avoids(j: Journal, a: Address, era: u64, id: H256, k: BlockKey) -> bool
    decreases era,
{
    if era <= j.canon_base.0 {
        true
    } else {
        (era, id) != k && match j.entry((era, id)) {
            None => true,
            Some(e) => e.change(a) is Some || walk_avoids(j, a, (era - 1) as u64, e.parent, k),
        }
    }
}

/// What a block's query answers depends only on its own ancestry: two journals
/// on the same base that differ only in the delta of block `k` (a sibling, for
/// instance) answer alike from any block whose walk never reaches `k`.
pub proof fn lemma_walk_ancestry_only(j1: Journal, j2: Journal, a: Address, era: u64, id: H256, k: BlockKey)
    requires
        j1.canon_base == j2.canon_base,
        forall|k2: BlockKey| k2 != k ==> j1.entry(k2) == j2.entry(k2),
        walk_avoids(j1, a, era, id, k),
    ensures
        j1.walk(a, era, id) == j2.walk(a, era, id),
    decreases era,
{
    if era > j1.canon_base.0 {
        if let Some(e) = j1.entry((era, id)) {
            if e.change(a) is None {
                lemma_walk_ancestry_only(j1, j2, a, (era - 1) as u64, e.parent, k);
            }
        }
    }
}

/// A query at a block other than `k` that answers through its own ancestry is
/// not affected by the delta recorded for block `k`.
pub proof fn lemma_fork_ancestry_only(j1: Journal, j2: Journal, a: Address, at: BlockKey, k: BlockKey)
    requires
        j1.canon_base == j2.canon_base,
        forall|k2: BlockKey| k2 != k ==> j1.entry(k2) == j2.entry(k2),
        at != k,
        walk_avoids(j1, a, at.0, at.1, k),
    ensures
        j1.resolve_spec(a, at) == j2.resolve_spec(a, at),
{
    lemma_walk_ancestry_only(j1, j2, a, at.0, at.1, k);
}

/// Finalizing era `h` with block `c` chosen prunes every sibling `s` of `c`:
/// a query at `s` reports pruned state, and so does a query from a child of
/// `s` that did not itself change the account, rather than falling through to
/// the canonical value.
pub proof fn lemma_pruning(before: Journal, after: Journal, h: u64, c: H256, s: H256, d: H256, k: Address)
    requires
        after.canon_base == (h, c),
        forall|key: BlockKey| #[trigger] after.entry(key)
            == (if key.0 == h { None } else { before.entry(key) }),
        s != c,
        h < u64::MAX,
        before.entry((h, s)) is Some,
        before.entry(((h + 1) as u64, d)) matches Some(e) && e.parent == s && e.change(k) is None,
    ensures
        after.resolve_spec(k, (h, s)) == Err::<Lookup, Error>(Error::StatePruned(h, s)),
        after.resolve_spec(k, ((h + 1) as u64, d)) == Err::<Lookup, Error>(Error::StatePruned(h, s)),
{
    assert(after.entry((h, s)) is None);
    assert(after.entry(((h + 1) as u64, d)) == before.entry(((h + 1) as u64, d)));
    assert(after.walk(k, h, s) == Err::<Lookup, Error>(Error::StatePruned(h, s)));
}

} // verus!