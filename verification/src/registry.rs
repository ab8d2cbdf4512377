//! The enumerable ownership registry and its mutation protocol.
//!
//! The registry holds every asset ever minted, in minting order (the global
//! enumeration index), a per-owner enumeration index kept dense by
//! swap-and-pop removal, and the nonce mixed into identifier derivation.
//! Every operation validates all of its preconditions before its first
//! write, so a failing call leaves the whole state unchanged.

use crate::balances::Balances;
use crate::genetics;
use crate::types::{Error, Event, Hash256, Kitty};
use vstd::prelude::*;

verus! {

/// One minted asset: its record, its current owner, and the slot it occupies
/// in its owner's enumeration index.
struct Record {
    kitty: Kitty,
    owner: u64,
    owned_seq: usize,
}

/// One owner's enumeration index: the positions (into the global record
/// list) of the assets currently attributed to that owner, in slot order.
struct OwnerEntry {
    account: u64,
    items: Vec<usize>,
}

/// Swap-and-pop removal at slot `j`: the last element moves into the
/// vacated slot and the last slot is dropped, keeping the sequence dense at
/// the cost of reordering.
pub open spec fn swap_popped<T>(s: Seq<T>, j: int) -> Seq<T> {
    s.update(j, s.last()).drop_last()
}

/// The larger of two generation counters.
pub open spec fn max_u64(a: u64, b: u64) -> u64 {
    if a >= b {
        a
    } else {
        b
    }
}

/// The registry: asset store, ownership map, global and per-owner
/// enumeration indexes, and the identifier nonce.
pub struct Registry {
    records: Vec<Record>,
    owned: Vec<OwnerEntry>,
    nonce: u64,
}

impl Registry {
    // ----- specification vocabulary -----

    /// How many assets have ever been minted (the global count).
    pub closed spec fn num_kitties(self) -> nat {
        self.records@.len()
    }

    /// The identifier at global sequence number `s` (minting order).
    pub closed spec fn kitty_id_at(self, s: int) -> Seq<u8> {
        self.records@[s].kitty.id@
    }

    /// Whether an asset with identifier `id` exists.
    pub closed spec fn has_kitty(self, id: Seq<u8>) -> bool {
        exists|p: int|
            0 <= p < self.records@.len() && (#[trigger] self.records@[p]).kitty.id@ == id
    }

    /// The global sequence number of the asset with identifier `id`.
    pub closed spec fn global_seq_of(self, id: Seq<u8>) -> int {
        choose|p: int|
            0 <= p < self.records@.len() && (#[trigger] self.records@[p]).kitty.id@ == id
    }

    /// The current owner of the asset with identifier `id`.
    pub closed spec fn owner_of_spec(self, id: Seq<u8>) -> u64 {
        self.records@[self.global_seq_of(id)].owner
    }

    /// The genetic payload of the asset with identifier `id`.
    pub closed spec fn dna_of(self, id: Seq<u8>) -> Seq<u8> {
        self.records@[self.global_seq_of(id)].kitty.dna@
    }

    /// The sale price of the asset with identifier `id` (0: not for sale).
    pub closed spec fn price_of(self, id: Seq<u8>) -> u64 {
        self.records@[self.global_seq_of(id)].kitty.price
    }

    /// The generation of the asset with identifier `id`.
    pub closed spec fn gen_of(self, id: Seq<u8>) -> u64 {
        self.records@[self.global_seq_of(id)].kitty.gen
    }

    /// The nonce mixed into the next derived identifier; incremented once
    /// per mint-producing operation, after the mint succeeds.
    pub closed spec fn nonce_spec(self) -> u64 {
        self.nonce
    }

    /// The slot the asset with identifier `id` occupies in its current
    /// owner's enumeration index.
    pub closed spec fn owned_slot_of(self, id: Seq<u8>) -> int {
        self.records@[self.global_seq_of(id)].owned_seq as int
    }

    spec fn has_entry(self, a: u64) -> bool {
        exists|k: int|
            0 <= k < self.owned@.len() && (#[trigger] self.owned@[k]).account == a
    }

    spec fn entry_of(self, a: u64) -> int {
        choose|k: int|
            0 <= k < self.owned@.len() && (#[trigger] self.owned@[k]).account == a
    }

    /// The identifiers attributed to `a`, in the slot order of `a`'s
    /// per-owner enumeration index.
    pub closed spec fn owned_ids(self, a: u64) -> Seq<Seq<u8>> {
        if self.has_entry(a) {
            let items = self.owned@[self.entry_of(a)].items@;
            Seq::new(items.len(), |j: int| self.records@[items[j] as int].kitty.id@)
        } else {
            Seq::empty()
        }
    }

    /// How many assets `a` currently owns.
    pub open spec fn owner_count_spec(self, a: u64) -> nat {
        self.owned_ids(a).len()
    }

    // ----- well-formedness -----

    spec fn ids_distinct(self) -> bool {
        forall|p: int, q: int|
            0 <= p < q < self.records@.len() ==> (#[trigger] self.records@[p]).kitty.id@ != (
            #[trigger] self.records@[q]).kitty.id@
    }

    spec fn accounts_distinct(self) -> bool {
        forall|k: int, l: int|
            0 <= k < l < self.owned@.len() ==> (#[trigger] self.owned@[k]).account != (
            #[trigger] self.owned@[l]).account
    }

    /// The record at `p` occupies exactly the slot its `owned_seq` names in
    /// its owner's enumeration index.
    spec fn record_linked_at(self, p: int) -> bool {
        exists|k: int|
            0 <= k < self.owned@.len() && (#[trigger] self.owned@[k]).account
                == self.records@[p].owner && self.records@[p].owned_seq
                < self.owned@[k].items@.len()
                && self.owned@[k].items@[self.records@[p].owned_seq as int] == p
    }

    spec fn records_linked(self) -> bool {
        forall|p: int| 0 <= p < self.records@.len() ==> #[trigger] self.record_linked_at(p)
    }

    spec fn entries_linked(self) -> bool {
        forall|k: int, j: int|
            0 <= k < self.owned@.len() && 0 <= j < self.owned@[k].items@.len() ==> (
            #[trigger] self.owned@[k].items@[j]) < self.records@.len() && self.records@[self.owned@[k].items@[j] as int].owner
                == self.owned@[k].account && self.records@[self.owned@[k].items@[j] as int].owned_seq
                == j
    }

    spec fn kitties_wf(self) -> bool {
        forall|p: int|
            0 <= p < self.records@.len() ==> (#[trigger] self.records@[p]).kitty.wf()
    }

    /// The registry's invariant: identifiers and owner entries are unique,
    /// and the per-owner enumeration index and the ownership records point
    /// at each other exactly.
    pub closed spec fn wf(self) -> bool {
        self.ids_distinct() && self.accounts_distinct() && self.records_linked()
            && self.entries_linked() && self.kitties_wf()
    }

    // ----- internal lemmas -----

    proof fn lemma_pos_unique(self, id: Seq<u8>, p: int)
        requires
            self.ids_distinct(),
            0 <= p < self.records@.len(),
            self.records@[p].kitty.id@ == id,
        ensures
            self.has_kitty(id),
            self.global_seq_of(id) == p,
    {
        assert(self.has_kitty(id));
        let q = self.global_seq_of(id);
        if q < p {
            assert(self.records@[q].kitty.id@ != self.records@[p].kitty.id@);
        } else if q > p {
            assert(self.records@[p].kitty.id@ != self.records@[q].kitty.id@);
        }
    }

    proof fn lemma_entry_unique(self, a: u64, k: int)
        requires
            self.accounts_distinct(),
            0 <= k < self.owned@.len(),
            self.owned@[k].account == a,
        ensures
            self.has_entry(a),
            self.entry_of(a) == k,
    {
        assert(self.has_entry(a));
        let l = self.entry_of(a);
        if l < k {
            assert(self.owned@[l].account != self.owned@[k].account);
        } else if l > k {
            assert(self.owned@[k].account != self.owned@[l].account);
        }
    }

    proof fn lemma_record_entry(self, p: int)
        requires
            self.wf(),
            0 <= p < self.records@.len(),
        ensures
            self.has_entry(self.records@[p].owner),
            ({
                let k = self.entry_of(self.records@[p].owner);
                0 <= k < self.owned@.len() && self.owned@[k].account == self.records@[p].owner
                    && self.records@[p].owned_seq < self.owned@[k].items@.len()
                    && self.owned@[k].items@[self.records@[p].owned_seq as int] == p
            }),
    {
        assert(self.record_linked_at(p));
        let k1 = choose|k1: int|
            0 <= k1 < self.owned@.len() && (#[trigger] self.owned@[k1]).account
                == self.records@[p].owner && self.records@[p].owned_seq
                < self.owned@[k1].items@.len()
                && self.owned@[k1].items@[self.records@[p].owned_seq as int] == p;
        self.lemma_entry_unique(self.records@[p].owner, k1);
    }

    // ----- construction and lookups -----

    /// An empty registry: no assets, no owners, nonce 0.
    pub fn new() -> (r: Registry)
        ensures
            r.wf(),
            r.num_kitties() == 0,
            r.nonce_spec() == 0,
            forall|id: Seq<u8>| !r.has_kitty(id),
            forall|a: u64| r.owned_ids(a) == Seq::<Seq<u8>>::empty(),
    {
        let r = Registry { records: Vec::new(), owned: Vec::new(), nonce: 0 };
        proof {
            assert forall|a: u64| r.owned_ids(a) == Seq::<Seq<u8>>::empty() by {
                assert(!r.has_entry(a));
            }
        }
        r
    }

    fn find_kitty(&self, id: &Hash256) -> (r: Option<usize>)
        requires
            self.wf(),
        ensures
            match r {
                Some(p) => p < self.records@.len() && self.records@[p as int].kitty.id@ == id@
                    && self.has_kitty(id@) && self.global_seq_of(id@) == p as int,
                None => !self.has_kitty(id@),
            },
    {
        let n = self.records.len();
        let mut i: usize = 0;
        while i < n
            invariant
                i <= n,
                n == self.records@.len(),
                self.wf(),
                forall|j: int| 0 <= j < i ==> (#[trigger] self.records@[j]).kitty.id@ != id@,
            decreases n - i,
        {
            if self.records[i].kitty.id.eq_bytes(id) {
                proof {
                    self.lemma_pos_unique(id@, i as int);
                }
                return Some(i);
            }
            i += 1;
        }
        None
    }

    fn find_entry(&self, a: u64) -> (r: Option<usize>)
        requires
            self.wf(),
        ensures
            match r {
                Some(k) => k < self.owned@.len() && self.owned@[k as int].account == a
                    && self.has_entry(a) && self.entry_of(a) == k as int,
                None => !self.has_entry(a),
            },
    {
        let n = self.owned.len();
        let mut i: usize = 0;
        while i < n
            invariant
                i <= n,
                n == self.owned@.len(),
                self.wf(),
                forall|j: int| 0 <= j < i ==> (#[trigger] self.owned@[j]).account != a,
            decreases n - i,
        {
            if self.owned[i].account == a {
                proof {
                    self.lemma_entry_unique(a, i as int);
                }
                return Some(i);
            }
            i += 1;
        }
        None
    }

    // ----- read-only interface -----

    /// The asset record stored under `id`.
    pub fn kitty(&self, id: &Hash256) -> (r: Option<&Kitty>)
        requires
            self.wf(),
        ensures
            match r {
                Some(k) => self.has_kitty(id@) && k.id@ == id@ && k.dna@ == self.dna_of(id@)
                    && k.price == self.price_of(id@) && k.gen == self.gen_of(id@) && k.wf(),
                None => !self.has_kitty(id@),
            },
    {
        match self.find_kitty(id) {
            Some(p) => Some(&self.records[p].kitty),
            None => None,
        }
    }

    /// The current owner of `id`, if the asset exists.
    pub fn owner_of(&self, id: &Hash256) -> (r: Option<u64>)
        requires
            self.wf(),
        ensures
            match r {
                Some(a) => self.has_kitty(id@) && a == self.owner_of_spec(id@),
                None => !self.has_kitty(id@),
            },
    {
        match self.find_kitty(id) {
            Some(p) => Some(self.records[p].owner),
            None => None,
        }
    }

    /// The total number of assets ever minted.
    pub fn all_kitties_count(&self) -> (r: u64)
        ensures
            r == self.num_kitties(),
    {
        self.records.len() as u64
    }

    /// The identifier at global sequence number `s`, if any.
    pub fn all_kitties_by_index(&self, s: u64) -> (r: Option<&Hash256>)
        ensures
            match r {
                Some(id) => s < self.num_kitties() && id@ == self.kitty_id_at(s as int),
                None => s >= self.num_kitties(),
            },
    {
        if s < self.records.len() as u64 {
            Some(&self.records[s as usize].kitty.id)
        } else {
            None
        }
    }

    /// The global sequence number of `id`, if the asset exists.  Together
    /// with `all_kitties_by_index` this is an exact inverse pair.
    pub fn all_kitties_index(&self, id: &Hash256) -> (r: Option<u64>)
        requires
            self.wf(),
        ensures
            match r {
                Some(s) => self.has_kitty(id@) && s == self.global_seq_of(id@) && self.kitty_id_at(
                    s as int,
                ) == id@,
                None => !self.has_kitty(id@),
            },
    {
        match self.find_kitty(id) {
            Some(p) => Some(p as u64),
            None => None,
        }
    }

    /// How many assets `a` currently owns.
    pub fn owned_kitty_count(&self, a: u64) -> (r: u64)
        requires
            self.wf(),
        ensures
            r == self.owner_count_spec(a),
    {
        match self.find_entry(a) {
            Some(k) => self.owned[k].items.len() as u64,
            None => 0,
        }
    }

    /// The identifier at slot `j` of `a`'s per-owner enumeration index.
    pub fn owned_kitty_by_index(&self, a: u64, j: u64) -> (r: Option<&Hash256>)
        requires
            self.wf(),
        ensures
            match r {
                Some(id) => j < self.owner_count_spec(a) && id@ == self.owned_ids(a)[j as int],
                None => j >= self.owner_count_spec(a),
            },
    {
        match self.find_entry(a) {
            Some(k) => {
                if j < self.owned[k].items.len() as u64 {
                    let p = self.owned[k].items[j as usize];
                    proof {
                        assert(self.owned@[k as int].items@[j as int] == p);
                    }
                    Some(&self.records[p].kitty.id)
                } else {
                    None
                }
            },
            None => None,
        }
    }

    /// The slot `id` occupies in its current owner's enumeration index.
    pub fn owned_kitty_index(&self, id: &Hash256) -> (r: Option<u64>)
        requires
            self.wf(),
        ensures
            match r {
                Some(j) => self.has_kitty(id@) && j < self.owner_count_spec(
                    self.owner_of_spec(id@),
                ) && self.owned_ids(self.owner_of_spec(id@))[j as int] == id@,
                None => !self.has_kitty(id@),
            },
    {
        match self.find_kitty(id) {
            Some(p) => {
                let j = self.records[p].owned_seq;
                proof {
                    self.lemma_record_entry(p as int);
                    let owner = self.records@[p as int].owner;
                    self.lemma_owned_ids_entry(owner, self.entry_of(owner));
                }
                Some(j as u64)
            },
            None => None,
        }
    }

    /// The nonce that the next identifier derivation will consume.
    pub fn nonce(&self) -> (r: u64)
        ensures
            r == self.nonce_spec(),
    {
        self.nonce
    }

    // ----- mutation protocol -----

    proof fn lemma_owned_ids_entry(self, a: u64, k: int)
        requires
            self.accounts_distinct(),
            0 <= k < self.owned@.len(),
            self.owned@[k].account == a,
        ensures
            self.has_entry(a),
            self.entry_of(a) == k,
            self.owned_ids(a) == Seq::new(
                self.owned@[k].items@.len(),
                |j: int| self.records@[self.owned@[k].items@[j] as int].kitty.id@,
            ),
    {
        self.lemma_entry_unique(a, k);
    }

    /// Returns the index of `a`'s entry in the owner table, creating an
    /// empty entry when `a` owns nothing yet.  Observable state is
    /// unchanged.
    fn ensure_entry(&mut self, a: u64) -> (k: usize)
        requires
            old(self).wf(),
        ensures
            final(self).wf(),
            k < final(self).owned@.len(),
            final(self).owned@[k as int].account == a,
            final(self).has_entry(a),
            final(self).entry_of(a) == k as int,
            final(self).records@ == old(self).records@,
            final(self).nonce == old(self).nonce,
            final(self).owned@[k as int].items@.len() == old(self).owner_count_spec(a),
            forall|l: int|
                0 <= l < final(self).owned@.len() && l != k
                    ==> 0 <= l < old(self).owned@.len() && final(self).owned@[l] == old(
                    self,
                ).owned@[l],
            forall|b: u64| #[trigger] final(self).owned_ids(b) == old(self).owned_ids(b),
            old(self).has_entry(a) ==> *final(self) == *old(self),
            !old(self).has_entry(a) ==> k as int == old(self).owned@.len(),
    {
        let ghost pre = *self;
        match self.find_entry(a) {
            Some(k0) => {
                proof {
                    pre.lemma_owned_ids_entry(a, k0 as int);
                }
                k0
            },
            None => {
                let k0 = self.owned.len();
                self.owned.push(OwnerEntry { account: a, items: Vec::new() });
                proof {
                    let mid = *self;
                    assert(mid.owned@[k0 as int].account == a);
                    assert forall|l1: int, l2: int| 0 <= l1 < l2 < mid.owned@.len() implies (
                    #[trigger] mid.owned@[l1]).account != (#[trigger] mid.owned@[l2]).account by {
                        if l2 < pre.owned@.len() {
                            assert(pre.owned@[l1].account != pre.owned@[l2].account);
                        } else {
                            if mid.owned@[l1].account == a {
                                pre.lemma_entry_unique(a, l1);
                            }
                        }
                    }
                    assert(mid.accounts_distinct());
                    assert forall|p1: int| 0 <= p1 < mid.records@.len() implies
                        mid.record_linked_at(p1) by {
                        pre.lemma_record_entry(p1);
                        let k1 = pre.entry_of(pre.records@[p1].owner);
                        assert(mid.owned@[k1] == pre.owned@[k1]);
                        assert(mid.records@[p1] == pre.records@[p1]);
                    }
                    assert(mid.records_linked());
                    assert forall|k1: int, j1: int|
                        0 <= k1 < mid.owned@.len() && 0 <= j1 < mid.owned@[k1].items@.len() implies
                        (#[trigger] mid.owned@[k1].items@[j1]) < mid.records@.len()
                            && mid.records@[mid.owned@[k1].items@[j1] as int].owner
                            == mid.owned@[k1].account
                            && mid.records@[mid.owned@[k1].items@[j1] as int].owned_seq == j1 by {
                        if k1 < pre.owned@.len() {
                            assert(pre.owned@[k1].items@[j1] == mid.owned@[k1].items@[j1]);
                        }
                    }
                    assert(mid.entries_linked());
                    assert(mid.wf());
                    mid.lemma_entry_unique(a, k0 as int);
                    assert(!pre.has_entry(a));
                    assert(pre.owned_ids(a) == Seq::<Seq<u8>>::empty());
                    mid.lemma_owned_ids_entry(a, k0 as int);
                    assert(mid.owned_ids(a) =~= Seq::<Seq<u8>>::empty());
                    assert forall|b: u64| #[trigger] mid.owned_ids(b) == pre.owned_ids(b) by {
                        if b == a {
                        } else if mid.has_entry(b) {
                            let l = mid.entry_of(b);
                            assert(mid.owned@[l].account == b);
                            assert(l != k0 as int);
                            assert(l < pre.owned@.len());
                            mid.lemma_owned_ids_entry(b, l);
                            pre.lemma_owned_ids_entry(b, l);
                            assert(mid.owned_ids(b) =~= pre.owned_ids(b));
                        } else {
                            if pre.has_entry(b) {
                                let l = pre.entry_of(b);
                                assert(mid.owned@[l].account == b);
                            }
                        }
                    }
                }
                k0
            },
        }
    }

    /// Mints `new_kitty` to `to`: inserts the record, sets ownership, and
    /// appends the identifier to the global and to `to`'s enumeration index.
    /// Fails, changing nothing, on an identifier collision or when a counter
    /// is at its maximum.
    fn _mint(&mut self, to: u64, new_kitty: Kitty, events: &mut Vec<Event>) -> (r: Result<
        (),
        Error,
    >)
        requires
            old(self).wf(),
            new_kitty.wf(),
        ensures
            final(self).wf(),
            final(self).nonce_spec() == old(self).nonce_spec(),
            old(self).num_kitties() <= u64::MAX,
            old(self).owner_count_spec(to) <= u64::MAX,
            r is Ok <==> !old(self).has_kitty(new_kitty.id@) && old(self).num_kitties() < u64::MAX
                && old(self).owner_count_spec(to) < u64::MAX,
            r == Err::<(), Error>(Error::Collision) <==> old(self).has_kitty(new_kitty.id@),
            r is Err ==> *final(self) == *old(self) && *final(events) == *old(events)
                && (r == Err::<(), Error>(Error::Collision)
                    || r == Err::<(), Error>(Error::Overflow)),
            r is Ok ==> final(self).num_kitties() == old(self).num_kitties() + 1,
            r is Ok ==> final(self).kitty_id_at(old(self).num_kitties() as int) == new_kitty.id@,
            r is Ok ==> forall|s: int|
                0 <= s < old(self).num_kitties()
                    ==> final(self).kitty_id_at(s) == old(self).kitty_id_at(s),
            r is Ok ==> forall|x: Seq<u8>|
                #[trigger] final(self).has_kitty(x)
                    <==> old(self).has_kitty(x) || x == new_kitty.id@,
            r is Ok ==> final(self).owner_of_spec(new_kitty.id@) == to
                && final(self).dna_of(new_kitty.id@) == new_kitty.dna@
                && final(self).price_of(new_kitty.id@) == new_kitty.price
                && final(self).gen_of(new_kitty.id@) == new_kitty.gen
                && final(self).global_seq_of(new_kitty.id@) == old(self).num_kitties(),
            r is Ok ==> forall|x: Seq<u8>|
                #[trigger] old(self).has_kitty(x)
                    ==> final(self).owner_of_spec(x) == old(self).owner_of_spec(x)
                    && final(self).dna_of(x) == old(self).dna_of(x)
                    && final(self).price_of(x) == old(self).price_of(x)
                    && final(self).gen_of(x) == old(self).gen_of(x)
                    && final(self).global_seq_of(x) == old(self).global_seq_of(x),
            r is Ok ==> final(self).owned_ids(to) == old(self).owned_ids(to).push(new_kitty.id@),
            r is Ok ==> forall|a: u64|
                a != to ==> #[trigger] final(self).owned_ids(a) == old(self).owned_ids(a),
            r is Ok ==> final(events)@.len() == old(events)@.len() + 1
                && final(events)@.drop_last() == old(events)@
                && final(events)@.last() is Created
                && final(events)@.last()->Created_0 == to
                && final(events)@.last()->Created_1@ == new_kitty.id@,
    {
        let total_kitties = self.records.len();
        let count_to = self.owned_kitty_count(to);
        match self.find_kitty(&new_kitty.id) {
            Some(_) => {
                return Err(Error::Collision);
            },
            None => {},
        }
        if total_kitties as u64 == u64::MAX {
            return Err(Error::Overflow);
        }
        if count_to == u64::MAX {
            return Err(Error::Overflow);
        }
        let ghost pre = *self;
        let id_copy = new_kitty.id.duplicate();
        let k = self.ensure_entry(to);
        let ghost mid = *self;
        proof {
            // The entry at `k` holds exactly `count_to` items.
            assert(mid.owned@[k as int].items@.len() == count_to);
            if pre.has_entry(to) {
                pre.lemma_owned_ids_entry(to, pre.entry_of(to));
            } else {
                assert(pre.owned_ids(to) == Seq::<Seq<u8>>::empty());
            }
        }
        let p = self.records.len();
        let mut entry = self.owned.remove(k);
        let j = entry.items.len();
        entry.items.push(p);
        self.owned.insert(k, entry);
        self.records.push(Record { kitty: new_kitty, owner: to, owned_seq: j });
        proof {
            let post = *self;
            assert(post.owned@ =~= mid.owned@.update(
                k as int,
                post.owned@[k as int],
            ));
            assert(post.owned@[k as int].account == to);
            assert(post.owned@[k as int].items@ == mid.owned@[k as int].items@.push(p as usize));
            assert(post.records@ == mid.records@.push(
                Record { kitty: new_kitty, owner: to, owned_seq: j },
            ));
            let n = mid.records@.len();
            // identifiers stay pairwise distinct
            assert forall|p1: int, q1: int| 0 <= p1 < q1 < post.records@.len() implies (
            #[trigger] post.records@[p1]).kitty.id@ != (#[trigger] post.records@[q1]).kitty.id@ by {
                if q1 < n {
                    assert(pre.records@[p1].kitty.id@ != pre.records@[q1].kitty.id@);
                } else {
                    assert(post.records@[q1].kitty.id@ == new_kitty.id@);
                    assert(post.records@[p1] == pre.records@[p1]);
                    assert(!pre.has_kitty(new_kitty.id@));
                }
            }
            assert(post.ids_distinct());
            // owner accounts unchanged
            assert forall|l1: int, l2: int| 0 <= l1 < l2 < post.owned@.len() implies (
            #[trigger] post.owned@[l1]).account != (#[trigger] post.owned@[l2]).account by {
                assert(post.owned@[l1].account == mid.owned@[l1].account);
                assert(post.owned@[l2].account == mid.owned@[l2].account);
            }
            assert(post.accounts_distinct());
            // every record still points into its owner's index
            assert forall|p1: int| 0 <= p1 < post.records@.len() implies post.record_linked_at(p1)
            by {
                if p1 < n {
                    mid.lemma_record_entry(p1);
                    let k1 = mid.entry_of(mid.records@[p1].owner);
                    if k1 == k as int {
                        assert(post.owned@[k1].items@[mid.records@[p1].owned_seq as int] == p1);
                    } else {
                        assert(post.owned@[k1] == mid.owned@[k1]);
                    }
                    assert(post.records@[p1] == mid.records@[p1]);
                } else {
                    assert(post.owned@[k as int].items@[j as int] == p1);
                    assert(post.owned@[k as int].account == to);
                }
            }
            assert(post.records_linked());
            // every index slot still points at a record of its owner
            assert forall|k1: int, j1: int|
                0 <= k1 < post.owned@.len() && 0 <= j1 < post.owned@[k1].items@.len() implies (
            #[trigger] post.owned@[k1].items@[j1]) < post.records@.len()
                && post.records@[post.owned@[k1].items@[j1] as int].owner == post.owned@[k1].account
                && post.records@[post.owned@[k1].items@[j1] as int].owned_seq == j1 by {
                if k1 == k as int && j1 == j as int {
                    assert(post.owned@[k1].items@[j1] == p as usize);
                } else {
                    assert(mid.owned@[k1].items@[j1] == post.owned@[k1].items@[j1]);
                    assert(mid.owned@[k1].items@[j1] < n);
                    assert(post.records@[mid.owned@[k1].items@[j1] as int] == mid.records@[mid.owned@[k1].items@[j1] as int]);
                }
            }
            assert(post.entries_linked());
            assert forall|p1: int| 0 <= p1 < post.records@.len() implies (
            #[trigger] post.records@[p1]).kitty.wf() by {
                if p1 < n {
                    assert(pre.records@[p1].kitty.wf());
                }
            }
            assert(post.wf());
            // the new asset's record
            post.lemma_pos_unique(new_kitty.id@, n as int);
            // existing assets keep their records and sequence numbers
            assert forall|x: Seq<u8>| #[trigger] pre.has_kitty(x) implies post.owner_of_spec(x)
                == pre.owner_of_spec(x) && post.dna_of(x) == pre.dna_of(x) && post.price_of(x)
                == pre.price_of(x) && post.gen_of(x) == pre.gen_of(x) && post.global_seq_of(x)
                == pre.global_seq_of(x) by {
                let p1 = pre.global_seq_of(x);
                assert(0 <= p1 < n && pre.records@[p1].kitty.id@ == x);
                post.lemma_pos_unique(x, p1);
                assert(post.records@[p1] == pre.records@[p1]);
            }
            assert forall|x: Seq<u8>| #[trigger] post.has_kitty(x) implies pre.has_kitty(x) || x
                == new_kitty.id@ by {
                let p1 = post.global_seq_of(x);
                if p1 < n {
                    assert(pre.records@[p1].kitty.id@ == x);
                }
            }
            // the owner's enumeration grows by exactly the new identifier
            post.lemma_owned_ids_entry(to, k as int);
            mid.lemma_owned_ids_entry(to, k as int);
            assert forall|j1: int| 0 <= j1 < count_to implies post.owned_ids(to)[j1]
                == pre.owned_ids(to)[j1] by {
                let pos = mid.owned@[k as int].items@[j1];
                assert(pos < n);
                assert(post.records@[pos as int] == mid.records@[pos as int]);
                if pre.has_entry(to) {
                    pre.lemma_owned_ids_entry(to, pre.entry_of(to));
                }
            }
            assert(post.owned_ids(to)[count_to as int] == new_kitty.id@);
            assert(post.owned_ids(to) =~= pre.owned_ids(to).push(new_kitty.id@));
            // other owners' enumerations are untouched
            assert forall|a: u64| a != to implies #[trigger] post.owned_ids(a) == pre.owned_ids(a)
            by {
                if post.has_entry(a) {
                    let l = post.entry_of(a);
                    assert(post.owned@[l].account == a);
                    assert(mid.owned@[l].account == a);
                    assert(l != k as int);
                    assert(l < pre.owned@.len()) by {
                        if l >= pre.owned@.len() {
                            assert(mid.owned@[l].account == to);
                        }
                    }
                    post.lemma_owned_ids_entry(a, l);
                    pre.lemma_owned_ids_entry(a, l);
                    assert forall|j1: int| 0 <= j1 < post.owned@[l].items@.len() implies
                        post.records@[post.owned@[l].items@[j1] as int].kitty.id@
                            == pre.records@[pre.owned@[l].items@[j1] as int].kitty.id@ by {
                        assert(mid.owned@[l].items@[j1] < n);
                    }
                    assert(post.owned_ids(a) =~= pre.owned_ids(a));
                } else {
                    if pre.has_entry(a) {
                        let l = pre.entry_of(a);
                        assert(mid.owned@[l].account == a);
                        assert(post.owned@[l].account == a);
                    }
                    assert(!pre.has_entry(a));
                }
            }
        }
        events.push(Event::Created(to, id_copy));
        Ok(())
    }

    /// The structural relation between the state just before and just after
    /// the writes of a transfer: `from`'s index swap-popped at slot `j`,
    /// `to`'s index extended by the record at `p`, the two affected records
    /// re-pointed, everything else untouched.
    spec fn transfer_shape(
        pre: Registry,
        mid: Registry,
        post: Registry,
        from: u64,
        to: u64,
        kf: int,
        kt: int,
        p: int,
        j: int,
        lp: int,
        tl: int,
    ) -> bool {
        let fi = mid.owned@[kf].items@;
        let ti = mid.owned@[kt].items@;
        let fl = fi.len() as int;
        &&& pre.wf()
        &&& mid.wf()
        &&& pre.records@ == mid.records@
        &&& (forall|b: u64| #[trigger] pre.owned_ids(b) == mid.owned_ids(b))
        &&& from != to
        &&& 0 <= kf < mid.owned@.len()
        &&& 0 <= kt < mid.owned@.len()
        &&& kf != kt
        &&& mid.owned@[kf].account == from
        &&& mid.owned@[kt].account == to
        &&& 0 <= p < mid.records@.len()
        &&& mid.records@[p].owner == from
        &&& mid.records@[p].owned_seq as int == j
        &&& 0 <= j < fl
        &&& fi[j] as int == p
        &&& lp == fi[fl - 1] as int
        &&& tl == ti.len() as int
        &&& post.nonce == mid.nonce
        &&& post.owned@.len() == mid.owned@.len()
        &&& post.records@.len() == mid.records@.len()
        &&& post.owned@[kf].account == from
        &&& post.owned@[kt].account == to
        &&& post.owned@[kf].items@ == fi.update(j, fi[fl - 1]).drop_last()
        &&& post.owned@[kt].items@ == ti.push(fi[j])
        &&& (forall|l: int|
            0 <= l < post.owned@.len() && l != kf && l != kt ==> #[trigger] post.owned@[l]
                == mid.owned@[l])
        &&& post.records@[p].kitty == mid.records@[p].kitty
        &&& post.records@[p].owner == to
        &&& post.records@[p].owned_seq as int == tl
        &&& (j == fl - 1 ==> lp == p)
        &&& (j != fl - 1 ==> post.records@[lp].kitty == mid.records@[lp].kitty
            && post.records@[lp].owner == from && post.records@[lp].owned_seq as int == j)
        &&& (forall|x: int|
            0 <= x < post.records@.len() && x != p && x != lp ==> #[trigger] post.records@[x]
                == mid.records@[x])
    }

    /// After the writes of a transfer the invariant holds again.
    #[verifier::rlimit(100)]
    proof fn lemma_transfer_wf(
        pre: Registry,
        mid: Registry,
        post: Registry,
        from: u64,
        to: u64,
        kf: int,
        kt: int,
        p: int,
        j: int,
        lp: int,
        tl: int,
    )
        requires
            Self::transfer_shape(pre, mid, post, from, to, kf, kt, p, j, lp, tl),
        ensures
            post.wf(),
    {
        let fi = mid.owned@[kf].items@;
        let ti = mid.owned@[kt].items@;
        let fl = fi.len() as int;
        assert(forall|x: int|
            0 <= x < post.records@.len() ==> (#[trigger] post.records@[x]).kitty
                == mid.records@[x].kitty);
        assert(forall|l: int|
            0 <= l < post.owned@.len() ==> (#[trigger] post.owned@[l]).account
                == mid.owned@[l].account);
        // slots of the two affected entries, as mid sees them
        assert(forall|s1: int|
            0 <= s1 < fl ==> #[trigger] mid.records@[fi[s1] as int].owned_seq == s1 && fi[s1]
                < mid.records@.len() && mid.records@[fi[s1] as int].owner == from);
        assert(forall|s1: int|
            0 <= s1 < tl ==> #[trigger] mid.records@[ti[s1] as int].owned_seq == s1 && ti[s1]
                < mid.records@.len() && mid.records@[ti[s1] as int].owner == to);
        assert(mid.records@[lp].owner == from && mid.records@[lp].owned_seq as int == fl - 1 && 0
            <= lp < mid.records@.len());
        assert forall|p1: int, q1: int| 0 <= p1 < q1 < post.records@.len() implies (
        #[trigger] post.records@[p1]).kitty.id@ != (#[trigger] post.records@[q1]).kitty.id@ by {
            assert(mid.records@[p1].kitty.id@ != mid.records@[q1].kitty.id@);
        }
        assert(post.ids_distinct());
        assert forall|l1: int, l2: int| 0 <= l1 < l2 < post.owned@.len() implies (
        #[trigger] post.owned@[l1]).account != (#[trigger] post.owned@[l2]).account by {
            assert(mid.owned@[l1].account != mid.owned@[l2].account);
        }
        assert(post.accounts_distinct());
        assert forall|p1: int| 0 <= p1 < post.records@.len() implies post.record_linked_at(p1) by {
            if p1 == p {
                assert(post.owned@[kt].items@[tl] == p1);
                assert(post.records@[p1].owned_seq as int == tl);
            } else if p1 == lp && j != fl - 1 {
                assert(post.owned@[kf].items@[j] == lp);
                assert(post.records@[p1].owned_seq as int == j && j < fl - 1);
            } else {
                assert(post.records@[p1] == mid.records@[p1]);
                mid.lemma_record_entry(p1);
                let k1 = mid.entry_of(mid.records@[p1].owner);
                let s1 = mid.records@[p1].owned_seq as int;
                if k1 == kf {
                    assert(fi[s1] as int == p1);
                    assert(s1 != j);
                    assert(s1 != fl - 1) by {
                        if s1 == fl - 1 {
                            assert(fi[s1] as int == lp);
                        }
                    }
                    assert(post.owned@[kf].items@[s1] == fi[s1]);
                } else if k1 == kt {
                    assert(post.owned@[kt].items@[s1] == ti[s1]);
                } else {
                    assert(post.owned@[k1] == mid.owned@[k1]);
                }
            }
        }
        assert(post.records_linked());
        assert forall|k1: int, j1: int|
            0 <= k1 < post.owned@.len() && 0 <= j1 < post.owned@[k1].items@.len() implies (
        #[trigger] post.owned@[k1].items@[j1]) < post.records@.len()
            && post.records@[post.owned@[k1].items@[j1] as int].owner == post.owned@[k1].account
            && post.records@[post.owned@[k1].items@[j1] as int].owned_seq == j1 by {
            if k1 == kf {
                if j1 == j && j != fl - 1 {
                    assert(post.owned@[k1].items@[j1] as int == lp);
                } else {
                    assert(post.owned@[k1].items@[j1] == fi[j1]);
                    let v = fi[j1] as int;
                    assert(mid.records@[v].owned_seq == j1);
                    assert(v != p) by {
                        if v == p {
                            assert(mid.records@[p].owned_seq as int == j);
                        }
                    }
                    assert(v != lp) by {
                        if v == lp {
                            assert(mid.records@[lp].owned_seq as int == fl - 1);
                        }
                    }
                    assert(post.records@[v] == mid.records@[v]);
                }
            } else if k1 == kt {
                if j1 == tl {
                    assert(post.owned@[k1].items@[j1] as int == p);
                } else {
                    assert(post.owned@[k1].items@[j1] == ti[j1]);
                    let v = ti[j1] as int;
                    assert(mid.records@[v].owner == to);
                    assert(v != p && v != lp);
                    assert(post.records@[v] == mid.records@[v]);
                }
            } else {
                assert(post.owned@[k1] == mid.owned@[k1]);
                let v = mid.owned@[k1].items@[j1] as int;
                assert(mid.records@[v].owner == mid.owned@[k1].account);
                assert(mid.owned@[k1].account != from && mid.owned@[k1].account != to) by {
                    if k1 < kf {
                        assert(mid.owned@[k1].account != mid.owned@[kf].account);
                    } else {
                        assert(mid.owned@[kf].account != mid.owned@[k1].account);
                    }
                    if k1 < kt {
                        assert(mid.owned@[k1].account != mid.owned@[kt].account);
                    } else {
                        assert(mid.owned@[kt].account != mid.owned@[k1].account);
                    }
                }
                assert(v != p && v != lp);
                assert(post.records@[v] == mid.records@[v]);
            }
        }
        assert(post.entries_linked());
        assert forall|p1: int| 0 <= p1 < post.records@.len() implies (
        #[trigger] post.records@[p1]).kitty.wf() by {
            assert(mid.records@[p1].kitty.wf());
        }
        assert(post.wf());
    }

    /// After the writes of a transfer, every asset's record and global
    /// sequence number are unchanged; only the transferred asset's owner
    /// changed, to `to`.
    #[verifier::rlimit(100)]
    proof fn lemma_transfer_assets(
        pre: Registry,
        mid: Registry,
        post: Registry,
        from: u64,
        to: u64,
        kf: int,
        kt: int,
        p: int,
        j: int,
        lp: int,
        tl: int,
    )
        requires
            Self::transfer_shape(pre, mid, post, from, to, kf, kt, p, j, lp, tl),
            post.wf(),
        ensures
            post.num_kitties() == pre.num_kitties(),
            forall|s: int|
                0 <= s < pre.num_kitties() ==> post.kitty_id_at(s) == pre.kitty_id_at(s),
            forall|x: Seq<u8>| #[trigger] post.has_kitty(x) == pre.has_kitty(x),
            forall|x: Seq<u8>|
                #[trigger] pre.has_kitty(x) ==> post.dna_of(x) == pre.dna_of(x) && post.price_of(x)
                    == pre.price_of(x) && post.gen_of(x) == pre.gen_of(x) && post.global_seq_of(x)
                    == pre.global_seq_of(x),
            forall|x: Seq<u8>|
                pre.has_kitty(x) && x != pre.records@[p].kitty.id@
                    ==> #[trigger] post.owner_of_spec(x) == pre.owner_of_spec(x),
            post.owner_of_spec(pre.records@[p].kitty.id@) == to,
            post.global_seq_of(pre.records@[p].kitty.id@) == p,
            post.owned_slot_of(pre.records@[p].kitty.id@) == tl,
            pre.global_seq_of(pre.records@[p].kitty.id@) == p,
            pre.owned_slot_of(pre.records@[p].kitty.id@) == j,
    {
        let id = pre.records@[p].kitty.id@;
        assert(forall|x: int|
            0 <= x < post.records@.len() ==> (#[trigger] post.records@[x]).kitty
                == mid.records@[x].kitty);
        assert forall|x: Seq<u8>| #[trigger] pre.has_kitty(x) implies post.has_kitty(x)
            && post.dna_of(x) == pre.dna_of(x) && post.price_of(x) == pre.price_of(x)
            && post.gen_of(x) == pre.gen_of(x) && post.global_seq_of(x) == pre.global_seq_of(x) && (
        x != id ==> post.owner_of_spec(x) == pre.owner_of_spec(x)) by {
            let p1 = pre.global_seq_of(x);
            assert(0 <= p1 < pre.records@.len() && pre.records@[p1].kitty.id@ == x);
            assert(post.records@[p1].kitty == pre.records@[p1].kitty);
            post.lemma_pos_unique(x, p1);
            if x != id {
                assert(p1 != p) by {
                    if p1 == p {
                        assert(pre.records@[p].kitty.id@ == id);
                    }
                }
                if p1 != lp {
                    assert(post.records@[p1] == mid.records@[p1]);
                }
            }
        }
        assert forall|x: Seq<u8>| #[trigger] post.has_kitty(x) implies pre.has_kitty(x) by {
            let p1 = post.global_seq_of(x);
            assert(pre.records@[p1].kitty.id@ == x);
        }
        pre.lemma_pos_unique(id, p);
        post.lemma_pos_unique(id, p);
    }

    /// After the writes of a transfer, `from`'s enumeration is the
    /// swap-popped old one, `to`'s gained exactly the transferred
    /// identifier, and every other owner's enumeration is untouched.
    #[verifier::rlimit(100)]
    proof fn lemma_transfer_owned(
        pre: Registry,
        mid: Registry,
        post: Registry,
        from: u64,
        to: u64,
        kf: int,
        kt: int,
        p: int,
        j: int,
        lp: int,
        tl: int,
    )
        requires
            Self::transfer_shape(pre, mid, post, from, to, kf, kt, p, j, lp, tl),
            post.wf(),
        ensures
            pre.owned_ids(from).len() == mid.owned@[kf].items@.len(),
            pre.owned_ids(from)[j] == pre.records@[p].kitty.id@,
            pre.owned_ids(to).len() == tl,
            post.owned_ids(from) == swap_popped(pre.owned_ids(from), j),
            post.owned_ids(to) == pre.owned_ids(to).push(pre.records@[p].kitty.id@),
            forall|a: u64|
                a != from && a != to ==> #[trigger] post.owned_ids(a) == pre.owned_ids(a),
    {
        let id = pre.records@[p].kitty.id@;
        let fi = mid.owned@[kf].items@;
        let ti = mid.owned@[kt].items@;
        let fl = fi.len() as int;
        assert(forall|x: int|
            0 <= x < post.records@.len() ==> (#[trigger] post.records@[x]).kitty
                == mid.records@[x].kitty);
        assert(forall|s1: int|
            0 <= s1 < fl ==> #[trigger] fi[s1] < mid.records@.len());
        assert(forall|s1: int|
            0 <= s1 < tl ==> #[trigger] ti[s1] < mid.records@.len());
        mid.lemma_owned_ids_entry(from, kf);
        post.lemma_owned_ids_entry(from, kf);
        assert(mid.owned_ids(from).len() == fl);
        assert(mid.owned_ids(from)[j] == id);
        assert forall|s1: int| 0 <= s1 < fl - 1 implies post.owned_ids(from)[s1] == swap_popped(
            mid.owned_ids(from),
            j,
        )[s1] by {
            if s1 == j {
                assert(post.owned@[kf].items@[s1] == fi[fl - 1]);
                assert(mid.owned_ids(from).last() == mid.records@[lp].kitty.id@);
            } else {
                assert(post.owned@[kf].items@[s1] == fi[s1]);
            }
        }
        assert(post.owned_ids(from) =~= swap_popped(mid.owned_ids(from), j));
        mid.lemma_owned_ids_entry(to, kt);
        post.lemma_owned_ids_entry(to, kt);
        assert forall|s1: int| 0 <= s1 < tl + 1 implies post.owned_ids(to)[s1] == mid.owned_ids(
            to,
        ).push(id)[s1] by {
            if s1 < tl {
                assert(post.owned@[kt].items@[s1] == ti[s1]);
            } else {
                assert(post.owned@[kt].items@[s1] == fi[j]);
            }
        }
        assert(post.owned_ids(to) =~= mid.owned_ids(to).push(id));
        assert forall|a: u64| a != from && a != to implies #[trigger] post.owned_ids(a)
            == pre.owned_ids(a) by {
            assert(mid.owned_ids(a) == pre.owned_ids(a));
            if post.has_entry(a) {
                let l = post.entry_of(a);
                assert(post.owned@[l].account == a);
                assert(l != kf && l != kt);
                assert(post.owned@[l] == mid.owned@[l]);
                assert(mid.owned@[l].account == a);
                post.lemma_owned_ids_entry(a, l);
                mid.lemma_owned_ids_entry(a, l);
                assert forall|j1: int| 0 <= j1 < post.owned@[l].items@.len() implies
                    post.records@[post.owned@[l].items@[j1] as int].kitty.id@
                        == mid.records@[mid.owned@[l].items@[j1] as int].kitty.id@ by {
                    assert(mid.owned@[l].items@[j1] < mid.records@.len());
                }
                assert(post.owned_ids(a) =~= mid.owned_ids(a));
            } else {
                if mid.has_entry(a) {
                    let l = mid.entry_of(a);
                    assert(mid.owned@[l].account == a);
                    assert(l != kf && l != kt);
                    assert(post.owned@[l].account == a);
                }
                assert(!mid.has_entry(a));
            }
        }
    }

    /// Moves the asset `kitty_id` from `from` to `to`: swap-and-pop removal
    /// from `from`'s enumeration index, append to `to`'s, and the ownership
    /// record updated.  The global enumeration index is untouched.  A
    /// transfer to the current owner succeeds and changes nothing.
    #[verifier::rlimit(100)]
    fn _transfer_from(
        &mut self,
        from: u64,
        to: u64,
        kitty_id: &Hash256,
        events: &mut Vec<Event>,
    ) -> (r: Result<(), Error>)
        requires
            old(self).wf(),
        ensures
            final(self).wf(),
            final(self).nonce_spec() == old(self).nonce_spec(),
            final(self).num_kitties() == old(self).num_kitties(),
            forall|s: int|
                0 <= s < old(self).num_kitties()
                    ==> final(self).kitty_id_at(s) == old(self).kitty_id_at(s),
            forall|x: Seq<u8>| #[trigger] final(self).has_kitty(x) == old(self).has_kitty(x),
            r is Ok <==> old(self).has_kitty(kitty_id@) && old(self).owner_of_spec(kitty_id@)
                == from && (from == to || old(self).owner_count_spec(to) < u64::MAX),
            r == Err::<(), Error>(Error::NotFound) <==> !old(self).has_kitty(kitty_id@),
            r == Err::<(), Error>(Error::Unauthorized) <==> old(self).has_kitty(kitty_id@) && old(
                self,
            ).owner_of_spec(kitty_id@) != from,
            r == Err::<(), Error>(Error::Overflow) <==> old(self).has_kitty(kitty_id@) && old(
                self,
            ).owner_of_spec(kitty_id@) == from && from != to && old(self).owner_count_spec(to)
                == u64::MAX,
            r is Err ==> *final(self) == *old(self) && *final(events) == *old(events),
            r is Ok ==> forall|x: Seq<u8>|
                #[trigger] old(self).has_kitty(x)
                    ==> final(self).dna_of(x) == old(self).dna_of(x)
                    && final(self).price_of(x) == old(self).price_of(x)
                    && final(self).gen_of(x) == old(self).gen_of(x)
                    && final(self).global_seq_of(x) == old(self).global_seq_of(x),
            r is Ok ==> final(self).owner_of_spec(kitty_id@) == to,
            r is Ok ==> forall|x: Seq<u8>|
                old(self).has_kitty(x) && x != kitty_id@
                    ==> #[trigger] final(self).owner_of_spec(x) == old(self).owner_of_spec(x),
            r is Ok && from == to ==> *final(self) == *old(self),
            r is Ok && from != to ==> 0 <= old(self).owned_slot_of(kitty_id@) < old(
                self,
            ).owner_count_spec(from) && old(self).owned_ids(from)[old(self).owned_slot_of(
                kitty_id@,
            )] == kitty_id@,
            r is Ok && from != to ==> final(self).owned_ids(from) == swap_popped(
                old(self).owned_ids(from),
                old(self).owned_slot_of(kitty_id@),
            ) && final(self).owned_ids(to) == old(self).owned_ids(to).push(kitty_id@),
            r is Ok && from != to ==> final(self).owner_count_spec(from) == old(
                self,
            ).owner_count_spec(from) - 1 && final(self).owner_count_spec(to) == old(
                self,
            ).owner_count_spec(to) + 1 && final(self).owned_slot_of(kitty_id@) == old(
                self,
            ).owner_count_spec(to),
            r is Ok ==> forall|a: u64|
                a != from && a != to ==> #[trigger] final(self).owned_ids(a) == old(
                    self,
                ).owned_ids(a),
            r is Ok ==> final(events)@.len() == old(events)@.len() + 1
                && final(events)@.drop_last() == old(events)@
                && final(events)@.last() is Transferred
                && final(events)@.last()->Transferred_0 == from
                && final(events)@.last()->Transferred_1 == to
                && final(events)@.last()->Transferred_2@ == kitty_id@,
    {
        let p = match self.find_kitty(kitty_id) {
            Some(p) => p,
            None => {
                return Err(Error::NotFound);
            },
        };
        if self.records[p].owner != from {
            return Err(Error::Unauthorized);
        }
        if from == to {
            events.push(Event::Transferred(from, to, kitty_id.duplicate()));
            return Ok(());
        }
        let count_to = self.owned_kitty_count(to);
        if count_to == u64::MAX {
            return Err(Error::Overflow);
        }
        // Defensive: an owner of record without an enumeration entry would
        // mean the index lost an asset.  The invariant rules it out, so this
        // branch is provably unreachable.
        let kf = match self.find_entry(from) {
            Some(kf) => kf,
            None => {
                proof {
                    old(self).lemma_record_entry(p as int);
                    assert(false);
                }
                return Err(Error::Underflow);
            },
        };
        let kt = self.ensure_entry(to);
        let ghost mid = *self;
        proof {
            assert(old(self).owned@[kf as int].account == from);
            assert(kf != kt) by {
                if kf == kt {
                    if old(self).has_entry(to) {
                        assert(mid == *old(self));
                    } else {
                        assert(kt as int == old(self).owned@.len());
                    }
                }
            }
            assert(mid.owned@[kf as int] == old(self).owned@[kf as int]);
            mid.lemma_entry_unique(from, kf as int);
            mid.lemma_record_entry(p as int);
        }
        let j = self.records[p].owned_seq;
        let to_len = self.owned[kt].items.len();
        proof {
            assert(to_len == count_to);
            assert(mid.owned@[kf as int].items@[j as int] == p as usize);
        }
        // swap-and-pop within `from`'s index
        let mut ef = self.owned.remove(kf);
        let fl = ef.items.len();
        let last_pos = ef.items[fl - 1];
        let removed = ef.items.swap_remove(j);
        proof {
            assert(removed == p as usize);
            assert(ef.items@ == mid.owned@[kf as int].items@.update(
                j as int,
                last_pos as usize,
            ).drop_last());
        }
        self.owned.insert(kf, ef);
        let ghost m1 = *self;
        proof {
            assert(m1.owned@ =~= mid.owned@.update(kf as int, m1.owned@[kf as int]));
            assert(m1.records@ == mid.records@);
            // facts about the slot being vacated and the slot being moved
            assert(mid.records@[last_pos as int].owner == from && mid.records@[last_pos as int].owned_seq
                == fl - 1 && last_pos < mid.records@.len()) by {
                assert(mid.owned@[kf as int].items@[fl - 1] == last_pos);
            }
        }
        // the record moved into the vacated slot changes its slot number
        if j != fl - 1 {
            proof {
                assert(last_pos != p as usize);
            }
            let mut rec = self.records.remove(last_pos);
            rec.owned_seq = j;
            self.records.insert(last_pos, rec);
        }
        let ghost m2 = *self;
        proof {
            assert(m2.owned@ == m1.owned@);
            assert(m2.records@ =~= mid.records@.update(
                last_pos as int,
                m2.records@[last_pos as int],
            ));
            assert(m2.records@[last_pos as int].kitty == mid.records@[last_pos as int].kitty);
            assert(m2.records@[last_pos as int].owner == from);
            if j != fl - 1 {
                assert(m2.records@[last_pos as int].owned_seq == j);
            }
        }
        // re-point the transferred record at its new owner and slot
        let mut rec = self.records.remove(p);
        rec.owner = to;
        rec.owned_seq = to_len;
        self.records.insert(p, rec);
        let ghost m3 = *self;
        proof {
            assert(m3.owned@ == m1.owned@);
            assert(m3.records@ =~= m2.records@.update(p as int, m3.records@[p as int]));
            assert(m3.records@[p as int].kitty == mid.records@[p as int].kitty);
            assert(m3.records@[p as int].owner == to);
            assert(m3.records@[p as int].owned_seq == to_len);
        }
        // append to `to`'s index
        let mut et = self.owned.remove(kt);
        proof {
            assert(et.items@ == mid.owned@[kt as int].items@);
        }
        et.items.push(p);
        self.owned.insert(kt, et);
        proof {
            let post = *self;
            let pre = *old(self);
            let fj = j as int;
            let lp = last_pos as int;
            let pp = p as int;
            let tl = to_len as int;
            let fi = mid.owned@[kf as int].items@;
            let ti = mid.owned@[kt as int].items@;
            assert(post.records@ == m3.records@);
            assert(post.owned@ =~= mid.owned@.update(kf as int, post.owned@[kf as int]).update(
                kt as int,
                post.owned@[kt as int],
            ));
            assert(post.owned@[kf as int].items@ == fi.update(fj, last_pos as usize).drop_last());
            assert(post.owned@[kt as int].items@ == ti.push(p as usize));
            assert(post.owned@[kf as int].account == from);
            assert(post.owned@[kt as int].account == to);
            assert(forall|x: int|
                0 <= x < post.records@.len() && x != pp && x != lp ==> #[trigger] post.records@[x]
                    == mid.records@[x]);
            assert(forall|l: int|
                0 <= l < post.owned@.len() && l != kf && l != kt ==> #[trigger] post.owned@[l]
                    == mid.owned@[l]);
            assert(fi[fj] == p as usize);
            assert(fi[fl - 1] == last_pos as usize);
            assert(Self::transfer_shape(
                pre,
                mid,
                post,
                from,
                to,
                kf as int,
                kt as int,
                pp,
                fj,
                lp,
                tl,
            ));
            Self::lemma_transfer_wf(pre, mid, post, from, to, kf as int, kt as int, pp, fj, lp, tl);
            Self::lemma_transfer_assets(
                pre,
                mid,
                post,
                from,
                to,
                kf as int,
                kt as int,
                pp,
                fj,
                lp,
                tl,
            );
            Self::lemma_transfer_owned(
                pre,
                mid,
                post,
                from,
                to,
                kf as int,
                kt as int,
                pp,
                fj,
                lp,
                tl,
            );
            assert(pre.records@[pp].kitty.id@ == kitty_id@);
        }
        events.push(Event::Transferred(from, to, kitty_id.duplicate()));
        Ok(())
    }

    /// Two states with the same owner table and record-for-record equal
    /// identifiers, owners and slots agree on everything but the asset
    /// payloads (dna, price, generation).
    proof fn lemma_state_like(a: Registry, b: Registry)
        requires
            a.wf(),
            b.owned@ == a.owned@,
            b.records@.len() == a.records@.len(),
            forall|x: int|
                0 <= x < a.records@.len() ==> (#[trigger] b.records@[x]).kitty.id@
                    == a.records@[x].kitty.id@ && b.records@[x].owner == a.records@[x].owner
                    && b.records@[x].owned_seq == a.records@[x].owned_seq
                    && b.records@[x].kitty.wf(),
        ensures
            b.wf(),
            b.num_kitties() == a.num_kitties(),
            forall|s: int|
                0 <= s < a.num_kitties() ==> b.kitty_id_at(s) == a.kitty_id_at(s),
            forall|x: Seq<u8>| #[trigger] b.has_kitty(x) == a.has_kitty(x),
            forall|x: Seq<u8>|
                #[trigger] a.has_kitty(x) ==> b.global_seq_of(x) == a.global_seq_of(x)
                    && b.owner_of_spec(x) == a.owner_of_spec(x) && b.owned_slot_of(x)
                    == a.owned_slot_of(x),
            forall|c: u64| #[trigger] b.owned_ids(c) == a.owned_ids(c),
    {
        assert forall|p1: int, q1: int| 0 <= p1 < q1 < b.records@.len() implies (
        #[trigger] b.records@[p1]).kitty.id@ != (#[trigger] b.records@[q1]).kitty.id@ by {
            assert(a.records@[p1].kitty.id@ != a.records@[q1].kitty.id@);
        }
        assert(b.ids_distinct());
        assert(b.accounts_distinct());
        assert forall|p1: int| 0 <= p1 < b.records@.len() implies b.record_linked_at(p1) by {
            a.lemma_record_entry(p1);
            let k1 = a.entry_of(a.records@[p1].owner);
            assert(b.records@[p1].kitty.id@ == a.records@[p1].kitty.id@);
            assert(b.owned@[k1].account == b.records@[p1].owner);
            assert(b.records@[p1].owned_seq == a.records@[p1].owned_seq);
            assert(b.owned@[k1].items@[b.records@[p1].owned_seq as int] == p1);
            assert(b.records@[p1].owned_seq < b.owned@[k1].items@.len());
        }
        assert(b.records_linked());
        assert forall|k1: int, j1: int|
            0 <= k1 < b.owned@.len() && 0 <= j1 < b.owned@[k1].items@.len() implies (
        #[trigger] b.owned@[k1].items@[j1]) < b.records@.len()
            && b.records@[b.owned@[k1].items@[j1] as int].owner == b.owned@[k1].account
            && b.records@[b.owned@[k1].items@[j1] as int].owned_seq == j1 by {
            assert(a.owned@[k1].items@[j1] < a.records@.len());
        }
        assert(b.entries_linked());
        assert(b.kitties_wf());
        assert(b.wf());
        assert forall|x: Seq<u8>| #[trigger] a.has_kitty(x) implies b.has_kitty(x)
            && b.global_seq_of(x) == a.global_seq_of(x) && b.owner_of_spec(x) == a.owner_of_spec(x)
            && b.owned_slot_of(x) == a.owned_slot_of(x) by {
            let p1 = a.global_seq_of(x);
            assert(b.records@[p1].kitty.id@ == x);
            b.lemma_pos_unique(x, p1);
        }
        assert forall|x: Seq<u8>| #[trigger] b.has_kitty(x) implies a.has_kitty(x) by {
            let p1 = b.global_seq_of(x);
            assert(a.records@[p1].kitty.id@ == x);
        }
        assert forall|c: u64| #[trigger] b.owned_ids(c) == a.owned_ids(c) by {
            if a.has_entry(c) {
                let k1 = a.entry_of(c);
                assert(a.owned@[k1].account == c);
                a.lemma_owned_ids_entry(c, k1);
                b.lemma_owned_ids_entry(c, k1);
                assert forall|j1: int| 0 <= j1 < a.owned@[k1].items@.len() implies
                    b.records@[b.owned@[k1].items@[j1] as int].kitty.id@
                        == a.records@[a.owned@[k1].items@[j1] as int].kitty.id@ by {
                    assert(a.owned@[k1].items@[j1] < a.records@.len());
                }
                assert(b.owned_ids(c) =~= a.owned_ids(c));
            } else {
                if b.has_entry(c) {
                    let k1 = b.entry_of(c);
                    assert(a.owned@[k1].account == c);
                }
                assert(!b.has_entry(c));
            }
        }
    }

    /// Creates a brand-new asset for `sender`: a fresh identifier is derived
    /// from the seed, the caller and the current nonce; the new asset uses
    /// that identifier as its genetic payload, costs nothing and is
    /// generation 0.  The nonce is consumed only when the mint succeeds.
    pub fn create_kitty(&mut self, sender: u64, seed: &Hash256, events: &mut Vec<Event>) -> (r:
        Result<(), Error>)
        requires
            old(self).wf(),
            seed.wf(),
        ensures
            final(self).wf(),
            r is Ok <==> old(self).nonce_spec() < u64::MAX && !old(self).has_kitty(
                genetics::derived_id(seed@, sender, old(self).nonce_spec()),
            ) && old(self).num_kitties() < u64::MAX && old(self).owner_count_spec(sender)
                < u64::MAX,
            r == Err::<(), Error>(Error::Collision) <==> old(self).nonce_spec() < u64::MAX && old(
                self,
            ).has_kitty(genetics::derived_id(seed@, sender, old(self).nonce_spec())),
            r is Err ==> *final(self) == *old(self) && *final(events) == *old(events)
                && (r == Err::<(), Error>(Error::Collision)
                    || r == Err::<(), Error>(Error::Overflow)),
            r is Ok ==> ({
                let id = genetics::derived_id(seed@, sender, old(self).nonce_spec());
                &&& final(self).nonce_spec() == old(self).nonce_spec() + 1
                &&& final(self).num_kitties() == old(self).num_kitties() + 1
                &&& final(self).kitty_id_at(old(self).num_kitties() as int) == id
                &&& final(self).has_kitty(id)
                &&& final(self).owner_of_spec(id) == sender
                &&& final(self).dna_of(id) == id
                &&& final(self).price_of(id) == 0
                &&& final(self).gen_of(id) == 0
                &&& final(self).owned_ids(sender) == old(self).owned_ids(sender).push(id)
            }),
            r is Ok ==> forall|s: int|
                0 <= s < old(self).num_kitties()
                    ==> final(self).kitty_id_at(s) == old(self).kitty_id_at(s),
            r is Ok ==> forall|x: Seq<u8>|
                #[trigger] final(self).has_kitty(x) <==> old(self).has_kitty(x) || x
                    == genetics::derived_id(seed@, sender, old(self).nonce_spec()),
            r is Ok ==> forall|x: Seq<u8>|
                #[trigger] old(self).has_kitty(x)
                    ==> final(self).owner_of_spec(x) == old(self).owner_of_spec(x)
                    && final(self).dna_of(x) == old(self).dna_of(x)
                    && final(self).price_of(x) == old(self).price_of(x)
                    && final(self).gen_of(x) == old(self).gen_of(x),
            r is Ok ==> forall|a: u64|
                a != sender ==> #[trigger] final(self).owned_ids(a) == old(self).owned_ids(a),
            r is Ok ==> final(events)@.len() == old(events)@.len() + 1
                && final(events)@.drop_last() == old(events)@
                && final(events)@.last() is Created
                && final(events)@.last()->Created_0 == sender
                && final(events)@.last()->Created_1@ == genetics::derived_id(
                    seed@,
                    sender,
                    old(self).nonce_spec(),
                ),
    {
        if self.nonce == u64::MAX {
            return Err(Error::Overflow);
        }
        let random_id = genetics::generate_id(seed, sender, self.nonce);
        let new_kitty = Kitty {
            id: random_id.duplicate(),
            dna: random_id,
            price: 0,
            gen: 0,
        };
        match self._mint(sender, new_kitty, events) {
            Ok(()) => {
                let ghost minted = *self;
                self.nonce = self.nonce + 1;
                proof {
                    Self::lemma_state_like(minted, *self);
                    assert forall|x: Seq<u8>| #[trigger] minted.has_kitty(x) implies self.dna_of(x)
                        == minted.dna_of(x) && self.price_of(x) == minted.price_of(x)
                        && self.gen_of(x) == minted.gen_of(x) by {
                        let p1 = minted.global_seq_of(x);
                        assert(self.records@[p1] == minted.records@[p1]);
                    }
                }
                Ok(())
            },
            Err(e) => Err(e),
        }
    }

    /// Sets the sale price of `kitty_id` (0 withdraws it from sale).  Only
    /// the current owner may do so.
    pub fn set_price(
        &mut self,
        sender: u64,
        kitty_id: &Hash256,
        new_price: u64,
        events: &mut Vec<Event>,
    ) -> (r: Result<(), Error>)
        requires
            old(self).wf(),
        ensures
            final(self).wf(),
            final(self).nonce_spec() == old(self).nonce_spec(),
            r is Ok <==> old(self).has_kitty(kitty_id@) && old(self).owner_of_spec(kitty_id@)
                == sender,
            r == Err::<(), Error>(Error::NotFound) <==> !old(self).has_kitty(kitty_id@),
            r == Err::<(), Error>(Error::Unauthorized) <==> old(self).has_kitty(kitty_id@) && old(
                self,
            ).owner_of_spec(kitty_id@) != sender,
            r is Err ==> *final(self) == *old(self) && *final(events) == *old(events),
            r is Ok ==> final(self).price_of(kitty_id@) == new_price,
            r is Ok ==> final(self).num_kitties() == old(self).num_kitties(),
            r is Ok ==> forall|s: int|
                0 <= s < old(self).num_kitties()
                    ==> final(self).kitty_id_at(s) == old(self).kitty_id_at(s),
            r is Ok ==> forall|x: Seq<u8>| #[trigger] final(self).has_kitty(x) == old(
                self,
            ).has_kitty(x),
            r is Ok ==> forall|x: Seq<u8>|
                #[trigger] old(self).has_kitty(x)
                    ==> final(self).owner_of_spec(x) == old(self).owner_of_spec(x)
                    && final(self).dna_of(x) == old(self).dna_of(x)
                    && final(self).gen_of(x) == old(self).gen_of(x),
            r is Ok ==> forall|x: Seq<u8>|
                old(self).has_kitty(x) && x != kitty_id@ ==> #[trigger] final(self).price_of(x)
                    == old(self).price_of(x),
            r is Ok ==> forall|a: u64| #[trigger] final(self).owned_ids(a) == old(self).owned_ids(
                a,
            ),
            r is Ok ==> final(events)@.len() == old(events)@.len() + 1
                && final(events)@.drop_last() == old(events)@
                && final(events)@.last() is PriceSet
                && final(events)@.last()->PriceSet_0 == sender
                && final(events)@.last()->PriceSet_1@ == kitty_id@
                && final(events)@.last()->PriceSet_2 == new_price,
    {
        let p = match self.find_kitty(kitty_id) {
            Some(p) => p,
            None => {
                return Err(Error::NotFound);
            },
        };
        if self.records[p].owner != sender {
            return Err(Error::Unauthorized);
        }
        let ghost pre = *self;
        let mut rec = self.records.remove(p);
        rec.kitty.price = new_price;
        self.records.insert(p, rec);
        proof {
            assert(self.records@ =~= pre.records@.update(p as int, self.records@[p as int]));
            Self::lemma_state_like(pre, *self);
            assert forall|x: Seq<u8>| #[trigger] pre.has_kitty(x) implies self.dna_of(x)
                == pre.dna_of(x) && self.gen_of(x) == pre.gen_of(x) && (x != kitty_id@
                ==> self.price_of(x) == pre.price_of(x)) by {
                let p1 = pre.global_seq_of(x);
                if p1 != p as int {
                    assert(self.records@[p1] == pre.records@[p1]);
                } else {
                    assert(x == kitty_id@);
                }
            }
            assert(self.price_of(kitty_id@) == new_price);
        }
        events.push(Event::PriceSet(sender, kitty_id.duplicate(), new_price));
        Ok(())
    }

    /// Transfers `kitty_id` from its current owner, who must be `sender`,
    /// to `to`.  A transfer to oneself succeeds and changes nothing.
    pub fn transfer(
        &mut self,
        sender: u64,
        to: u64,
        kitty_id: &Hash256,
        events: &mut Vec<Event>,
    ) -> (r: Result<(), Error>)
        requires
            old(self).wf(),
        ensures
            final(self).wf(),
            final(self).nonce_spec() == old(self).nonce_spec(),
            final(self).num_kitties() == old(self).num_kitties(),
            forall|s: int|
                0 <= s < old(self).num_kitties()
                    ==> final(self).kitty_id_at(s) == old(self).kitty_id_at(s),
            forall|x: Seq<u8>| #[trigger] final(self).has_kitty(x) == old(self).has_kitty(x),
            r is Ok <==> old(self).has_kitty(kitty_id@) && old(self).owner_of_spec(kitty_id@)
                == sender && (sender == to || old(self).owner_count_spec(to) < u64::MAX),
            r == Err::<(), Error>(Error::NotFound) <==> !old(self).has_kitty(kitty_id@),
            r == Err::<(), Error>(Error::Unauthorized) <==> old(self).has_kitty(kitty_id@) && old(
                self,
            ).owner_of_spec(kitty_id@) != sender,
            r is Err ==> *final(self) == *old(self) && *final(events) == *old(events),
            r is Ok ==> forall|x: Seq<u8>|
                #[trigger] old(self).has_kitty(x)
                    ==> final(self).dna_of(x) == old(self).dna_of(x)
                    && final(self).price_of(x) == old(self).price_of(x)
                    && final(self).gen_of(x) == old(self).gen_of(x)
                    && final(self).global_seq_of(x) == old(self).global_seq_of(x),
            r is Ok ==> final(self).owner_of_spec(kitty_id@) == to,
            r is Ok ==> forall|x: Seq<u8>|
                old(self).has_kitty(x) && x != kitty_id@
                    ==> #[trigger] final(self).owner_of_spec(x) == old(self).owner_of_spec(x),
            r is Ok && sender == to ==> *final(self) == *old(self),
            r is Ok && sender != to ==> 0 <= old(self).owned_slot_of(kitty_id@) < old(
                self,
            ).owner_count_spec(sender) && old(self).owned_ids(sender)[old(self).owned_slot_of(
                kitty_id@,
            )] == kitty_id@,
            r is Ok && sender != to ==> final(self).owned_ids(sender) == swap_popped(
                old(self).owned_ids(sender),
                old(self).owned_slot_of(kitty_id@),
            ) && final(self).owned_ids(to) == old(self).owned_ids(to).push(kitty_id@),
            r is Ok && sender != to ==> final(self).owner_count_spec(sender) == old(
                self,
            ).owner_count_spec(sender) - 1 && final(self).owner_count_spec(to) == old(
                self,
            ).owner_count_spec(to) + 1,
            r is Ok ==> forall|a: u64|
                a != sender && a != to ==> #[trigger] final(self).owned_ids(a) == old(
                    self,
                ).owned_ids(a),
            r is Ok ==> final(events)@.len() == old(events)@.len() + 1
                && final(events)@.drop_last() == old(events)@
                && final(events)@.last() is Transferred
                && final(events)@.last()->Transferred_0 == sender
                && final(events)@.last()->Transferred_1 == to
                && final(events)@.last()->Transferred_2@ == kitty_id@,
    {
        match self.owner_of(kitty_id) {
            None => {
                return Err(Error::NotFound);
            },
            Some(owner) => {
                if owner != sender {
                    return Err(Error::Unauthorized);
                }
            },
        }
        self._transfer_from(sender, to, kitty_id, events)
    }

    /// Buys `kitty_id` at its stored price, which must be non-zero (listed
    /// for sale) and at most `max_price`.  Exactly the stored price moves
    /// from the buyer to the seller, ownership moves to the buyer, and the
    /// price resets to 0.  Every precondition, including room in the buyer's
    /// enumeration index, is checked before the payment, so a failure never
    /// leaves a partial effect.
    pub fn buy_kitty(
        &mut self,
        balances: &mut Balances,
        buyer: u64,
        kitty_id: &Hash256,
        max_price: u64,
        events: &mut Vec<Event>,
    ) -> (r: Result<(), Error>)
        requires
            old(self).wf(),
            old(balances).wf(),
        ensures
            final(self).wf(),
            final(balances).wf(),
            final(self).nonce_spec() == old(self).nonce_spec(),
            final(self).num_kitties() == old(self).num_kitties(),
            forall|s: int|
                0 <= s < old(self).num_kitties()
                    ==> final(self).kitty_id_at(s) == old(self).kitty_id_at(s),
            forall|x: Seq<u8>| #[trigger] final(self).has_kitty(x) == old(self).has_kitty(x),
            r is Ok <==> ({
                let owner = old(self).owner_of_spec(kitty_id@);
                let price = old(self).price_of(kitty_id@);
                &&& old(self).has_kitty(kitty_id@)
                &&& owner != buyer
                &&& price != 0
                &&& price <= max_price
                &&& old(self).owner_count_spec(buyer) < u64::MAX
                &&& old(balances).balance_of(buyer) >= price
                &&& old(balances).balance_of(owner) + price <= u64::MAX
            }),
            r == Err::<(), Error>(Error::NotFound) <==> !old(self).has_kitty(kitty_id@),
            r == Err::<(), Error>(Error::SelfPurchase) <==> old(self).has_kitty(kitty_id@) && old(
                self,
            ).owner_of_spec(kitty_id@) == buyer,
            r == Err::<(), Error>(Error::NotForSale) <==> old(self).has_kitty(kitty_id@) && old(
                self,
            ).owner_of_spec(kitty_id@) != buyer && old(self).price_of(kitty_id@) == 0,
            r == Err::<(), Error>(Error::PriceTooHigh) <==> old(self).has_kitty(kitty_id@) && old(
                self,
            ).owner_of_spec(kitty_id@) != buyer && old(self).price_of(kitty_id@) != 0 && old(
                self,
            ).price_of(kitty_id@) > max_price,
            r == Err::<(), Error>(Error::Overflow) <==> old(self).has_kitty(kitty_id@) && old(
                self,
            ).owner_of_spec(kitty_id@) != buyer && old(self).price_of(kitty_id@) != 0 && old(
                self,
            ).price_of(kitty_id@) <= max_price && old(self).owner_count_spec(buyer) == u64::MAX,
            r == Err::<(), Error>(Error::PaymentFailed) <==> ({
                let owner = old(self).owner_of_spec(kitty_id@);
                let price = old(self).price_of(kitty_id@);
                &&& old(self).has_kitty(kitty_id@)
                &&& owner != buyer
                &&& price != 0
                &&& price <= max_price
                &&& old(self).owner_count_spec(buyer) < u64::MAX
                &&& (old(balances).balance_of(buyer) < price || old(balances).balance_of(owner)
                    + price > u64::MAX)
            }),
            r is Err ==> *final(self) == *old(self) && *final(balances) == *old(balances)
                && *final(events) == *old(events),
            r is Ok ==> ({
                let owner = old(self).owner_of_spec(kitty_id@);
                let price = old(self).price_of(kitty_id@);
                &&& final(balances).balance_of(buyer) == old(balances).balance_of(buyer) - price
                &&& final(balances).balance_of(owner) == old(balances).balance_of(owner) + price
                &&& (forall|b: u64|
                    b != buyer && b != owner ==> final(balances).balance_of(b) == old(
                        balances,
                    ).balance_of(b))
            }),
            r is Ok ==> final(self).owner_of_spec(kitty_id@) == buyer && final(self).price_of(
                kitty_id@,
            ) == 0,
            r is Ok ==> forall|x: Seq<u8>|
                #[trigger] old(self).has_kitty(x)
                    ==> final(self).dna_of(x) == old(self).dna_of(x)
                    && final(self).gen_of(x) == old(self).gen_of(x)
                    && final(self).global_seq_of(x) == old(self).global_seq_of(x),
            r is Ok ==> forall|x: Seq<u8>|
                old(self).has_kitty(x) && x != kitty_id@
                    ==> #[trigger] final(self).owner_of_spec(x) == old(self).owner_of_spec(x)
                    && final(self).price_of(x) == old(self).price_of(x),
            r is Ok ==> ({
                let owner = old(self).owner_of_spec(kitty_id@);
                &&& final(self).owned_ids(owner) == swap_popped(
                    old(self).owned_ids(owner),
                    old(self).owned_slot_of(kitty_id@),
                )
                &&& final(self).owned_ids(buyer) == old(self).owned_ids(buyer).push(kitty_id@)
                &&& final(self).owner_count_spec(owner) == old(self).owner_count_spec(owner) - 1
                &&& final(self).owner_count_spec(buyer) == old(self).owner_count_spec(buyer) + 1
            }),
            r is Ok ==> forall|a: u64|
                a != old(self).owner_of_spec(kitty_id@) && a != buyer
                    ==> #[trigger] final(self).owned_ids(a) == old(self).owned_ids(a),
            r is Ok ==> final(events)@.len() == old(events)@.len() + 2
                && final(events)@.take(old(events)@.len() as int) == old(events)@
                && final(events)@[old(events)@.len() as int] is Transferred
                && final(events)@[old(events)@.len() as int]->Transferred_0 == old(
                    self,
                ).owner_of_spec(kitty_id@)
                && final(events)@[old(events)@.len() as int]->Transferred_1 == buyer
                && final(events)@[old(events)@.len() as int]->Transferred_2@ == kitty_id@
                && final(events)@.last() is Bought
                && final(events)@.last()->Bought_0 == buyer
                && final(events)@.last()->Bought_1 == old(self).owner_of_spec(kitty_id@)
                && final(events)@.last()->Bought_2@ == kitty_id@
                && final(events)@.last()->Bought_3 == old(self).price_of(kitty_id@),
    {
        let p = match self.find_kitty(kitty_id) {
            Some(p) => p,
            None => {
                return Err(Error::NotFound);
            },
        };
        let owner = self.records[p].owner;
        if owner == buyer {
            return Err(Error::SelfPurchase);
        }
        let kitty_price = self.records[p].kitty.price;
        if kitty_price == 0 {
            return Err(Error::NotForSale);
        }
        if kitty_price > max_price {
            return Err(Error::PriceTooHigh);
        }
        // Room in the buyer's index is checked before payment: once the
        // payment went through, the transfer below cannot fail.
        if self.owned_kitty_count(buyer) == u64::MAX {
            return Err(Error::Overflow);
        }
        match balances.make_transfer(buyer, owner, kitty_price) {
            Ok(()) => {},
            Err(_) => {
                return Err(Error::PaymentFailed);
            },
        }
        let transferred = self._transfer_from(owner, buyer, kitty_id, events);
        proof {
            assert(transferred is Ok);
        }
        match transferred {
            Ok(()) => {},
            Err(e) => {
                return Err(e);
            },
        }
        let ghost moved = *self;
        // reset the price to 0
        let p2 = match self.find_kitty(kitty_id) {
            Some(p2) => p2,
            None => {
                proof {
                    assert(false);
                }
                return Err(Error::NotFound);
            },
        };
        let mut rec = self.records.remove(p2);
        rec.kitty.price = 0;
        self.records.insert(p2, rec);
        proof {
            assert(self.records@ =~= moved.records@.update(p2 as int, self.records@[p2 as int]));
            Self::lemma_state_like(moved, *self);
            assert forall|x: Seq<u8>| #[trigger] moved.has_kitty(x) implies self.dna_of(x)
                == moved.dna_of(x) && self.gen_of(x) == moved.gen_of(x) && (x != kitty_id@
                ==> self.price_of(x) == moved.price_of(x)) by {
                let p1 = moved.global_seq_of(x);
                if p1 != p2 as int {
                    assert(self.records@[p1] == moved.records@[p1]);
                } else {
                    assert(x == kitty_id@);
                }
            }
            assert(self.price_of(kitty_id@) == 0);
            assert forall|x: Seq<u8>| #[trigger] old(self).has_kitty(x) implies self.dna_of(x)
                == old(self).dna_of(x) && self.gen_of(x) == old(self).gen_of(x)
                && self.global_seq_of(x) == old(self).global_seq_of(x) && (x != kitty_id@
                ==> self.owner_of_spec(x) == old(self).owner_of_spec(x) && self.price_of(x) == old(
                self,
            ).price_of(x)) by {
                assert(moved.has_kitty(x));
            }
        }
        events.push(Event::Bought(buyer, owner, kitty_id.duplicate(), kitty_price));
        proof {
            assert(events@.take(old(events)@.len() as int) =~= old(events)@);
        }
        Ok(())
    }

    /// Breeds a new asset for `sender` from two existing ones: a fresh
    /// identifier is derived from the seed, the caller and the nonce; the
    /// offspring's payload takes `b`'s byte wherever the identifier's byte
    /// is even and `a`'s byte elsewhere; its generation is one above the
    /// larger parent generation; its price is 0.  The nonce is consumed only
    /// when the mint succeeds.
    pub fn breed_kitty(
        &mut self,
        sender: u64,
        seed: &Hash256,
        kitty_id_1: &Hash256,
        kitty_id_2: &Hash256,
        events: &mut Vec<Event>,
    ) -> (r: Result<(), Error>)
        requires
            old(self).wf(),
            seed.wf(),
        ensures
            final(self).wf(),
            r == Err::<(), Error>(Error::NotFound) <==> !old(self).has_kitty(kitty_id_1@) || !old(
                self,
            ).has_kitty(kitty_id_2@),
            r == Err::<(), Error>(Error::Collision) <==> old(self).has_kitty(kitty_id_1@) && old(
                self,
            ).has_kitty(kitty_id_2@) && old(self).nonce_spec() < u64::MAX && max_u64(
                old(self).gen_of(kitty_id_1@),
                old(self).gen_of(kitty_id_2@),
            ) < u64::MAX && old(self).has_kitty(
                genetics::derived_id(seed@, sender, old(self).nonce_spec()),
            ),
            r == Err::<(), Error>(Error::Overflow) <==> old(self).has_kitty(kitty_id_1@) && old(
                self,
            ).has_kitty(kitty_id_2@) && (old(self).nonce_spec() == u64::MAX || max_u64(
                old(self).gen_of(kitty_id_1@),
                old(self).gen_of(kitty_id_2@),
            ) == u64::MAX || (!old(self).has_kitty(
                genetics::derived_id(seed@, sender, old(self).nonce_spec()),
            ) && (old(self).num_kitties() == u64::MAX || old(self).owner_count_spec(sender)
                == u64::MAX))),
            r is Ok <==> ({
                let id = genetics::derived_id(seed@, sender, old(self).nonce_spec());
                &&& old(self).has_kitty(kitty_id_1@)
                &&& old(self).has_kitty(kitty_id_2@)
                &&& old(self).nonce_spec() < u64::MAX
                &&& max_u64(old(self).gen_of(kitty_id_1@), old(self).gen_of(kitty_id_2@))
                    < u64::MAX
                &&& !old(self).has_kitty(id)
                &&& old(self).num_kitties() < u64::MAX
                &&& old(self).owner_count_spec(sender) < u64::MAX
            }),
            r is Err ==> *final(self) == *old(self) && *final(events) == *old(events),
            r is Ok ==> ({
                let id = genetics::derived_id(seed@, sender, old(self).nonce_spec());
                let child = genetics::spliced_dna(
                    old(self).dna_of(kitty_id_1@),
                    old(self).dna_of(kitty_id_2@),
                    id,
                );
                &&& final(self).nonce_spec() == old(self).nonce_spec() + 1
                &&& final(self).num_kitties() == old(self).num_kitties() + 1
                &&& final(self).kitty_id_at(old(self).num_kitties() as int) == id
                &&& final(self).has_kitty(id)
                &&& final(self).owner_of_spec(id) == sender
                &&& final(self).dna_of(id) == child
                &&& final(self).price_of(id) == 0
                &&& final(self).gen_of(id) == max_u64(
                    old(self).gen_of(kitty_id_1@),
                    old(self).gen_of(kitty_id_2@),
                ) + 1
                &&& final(self).owned_ids(sender) == old(self).owned_ids(sender).push(id)
            }),
            r is Ok ==> forall|s: int|
                0 <= s < old(self).num_kitties()
                    ==> final(self).kitty_id_at(s) == old(self).kitty_id_at(s),
            r is Ok ==> forall|x: Seq<u8>|
                #[trigger] final(self).has_kitty(x) <==> old(self).has_kitty(x) || x
                    == genetics::derived_id(seed@, sender, old(self).nonce_spec()),
            r is Ok ==> forall|x: Seq<u8>|
                #[trigger] old(self).has_kitty(x)
                    ==> final(self).owner_of_spec(x) == old(self).owner_of_spec(x)
                    && final(self).dna_of(x) == old(self).dna_of(x)
                    && final(self).price_of(x) == old(self).price_of(x)
                    && final(self).gen_of(x) == old(self).gen_of(x),
            r is Ok ==> forall|a: u64|
                a != sender ==> #[trigger] final(self).owned_ids(a) == old(self).owned_ids(a),
            r is Ok ==> final(events)@.len() == old(events)@.len() + 1
                && final(events)@.drop_last() == old(events)@
                && final(events)@.last() is Created
                && final(events)@.last()->Created_0 == sender
                && final(events)@.last()->Created_1@ == genetics::derived_id(
                    seed@,
                    sender,
                    old(self).nonce_spec(),
                ),
    {
        let p1 = match self.find_kitty(kitty_id_1) {
            Some(p1) => p1,
            None => {
                return Err(Error::NotFound);
            },
        };
        let p2 = match self.find_kitty(kitty_id_2) {
            Some(p2) => p2,
            None => {
                return Err(Error::NotFound);
            },
        };
        if self.nonce == u64::MAX {
            return Err(Error::Overflow);
        }
        let random_id = genetics::generate_id(seed, sender, self.nonce);
        let final_dna = genetics::splice_dna(
            &self.records[p1].kitty.dna,
            &self.records[p2].kitty.dna,
            &random_id,
        );
        let gen_1 = self.records[p1].kitty.gen;
        let gen_2 = self.records[p2].kitty.gen;
        let max_gen = if gen_1 >= gen_2 {
            gen_1
        } else {
            gen_2
        };
        if max_gen == u64::MAX {
            return Err(Error::Overflow);
        }
        let new_kitty = Kitty { id: random_id, dna: final_dna, price: 0, gen: max_gen + 1 };
        match self._mint(sender, new_kitty, events) {
            Ok(()) => {
                let ghost minted = *self;
                self.nonce = self.nonce + 1;
                proof {
                    Self::lemma_state_like(minted, *self);
                    assert forall|x: Seq<u8>| #[trigger] minted.has_kitty(x) implies self.dna_of(x)
                        == minted.dna_of(x) && self.price_of(x) == minted.price_of(x)
                        && self.gen_of(x) == minted.gen_of(x) by {
                        let q = minted.global_seq_of(x);
                        assert(self.records@[q] == minted.records@[q]);
                    }
                }
                Ok(())
            },
            Err(e) => Err(e),
        }
    }

    // ----- laws -----

    /// The global enumeration index is an exact inverse pair over
    /// `[0, num_kitties)`: the identifier at each sequence number maps back
    /// to that sequence number, and every existing identifier's sequence
    /// number maps back to the identifier.
    pub proof fn lemma_global_enumeration_inverse(self)
        requires
            self.wf(),
        ensures
            forall|s: int|
                0 <= s < self.num_kitties() ==> #[trigger] self.has_kitty(self.kitty_id_at(s))
                    && self.global_seq_of(self.kitty_id_at(s)) == s,
            forall|id: Seq<u8>|
                #[trigger] self.has_kitty(id) ==> 0 <= self.global_seq_of(id) < self.num_kitties()
                    && self.kitty_id_at(self.global_seq_of(id)) == id,
    {
        assert forall|s: int| 0 <= s < self.num_kitties() implies #[trigger] self.has_kitty(
            self.kitty_id_at(s),
        ) && self.global_seq_of(self.kitty_id_at(s)) == s by {
            self.lemma_pos_unique(self.kitty_id_at(s), s);
        }
    }

    /// Each owner's count equals the number of identifiers the ownership
    /// map currently attributes to that owner.
    pub proof fn lemma_owner_count_matches_ownership(self, a: u64)
        requires
            self.wf(),
        ensures
            ({
                let owned_set = Set::new(
                    |id: Seq<u8>| self.has_kitty(id) && self.owner_of_spec(id) == a,
                );
                owned_set.finite() && self.owner_count_spec(a) == owned_set.len()
            }),
    {
        let ids = self.owned_ids(a);
        let owned_set = Set::new(|id: Seq<u8>| self.has_kitty(id) && self.owner_of_spec(id) == a);
        self.lemma_owned_ids_distinct(a);
        if self.has_entry(a) {
            let k = self.entry_of(a);
            self.lemma_owned_ids_entry(a, k);
            assert forall|x: Seq<u8>| #[trigger] ids.contains(x) implies owned_set.contains(x) by {
                let j = choose|j: int| 0 <= j < ids.len() && ids[j] == x;
                let pos = self.owned@[k].items@[j];
                assert(self.records@[pos as int].kitty.id@ == x);
                self.lemma_pos_unique(x, pos as int);
            }
            assert forall|x: Seq<u8>| #[trigger] owned_set.contains(x) implies ids.contains(x) by {
                let pos = self.global_seq_of(x);
                self.lemma_record_entry(pos);
                let j = self.records@[pos].owned_seq as int;
                assert(ids[j] == x);
            }
            assert(ids.to_set() =~= owned_set);
            ids.unique_seq_to_set();
            vstd::seq_lib::seq_to_set_is_finite(ids);
        } else {
            assert forall|x: Seq<u8>| !(#[trigger] owned_set.contains(x)) by {
                if self.has_kitty(x) && self.owner_of_spec(x) == a {
                    self.lemma_record_entry(self.global_seq_of(x));
                }
            }
            assert(owned_set =~= Set::<Seq<u8>>::empty());
        }
    }

    /// A per-owner enumeration index never lists an identifier twice.
    pub proof fn lemma_owned_ids_distinct(self, a: u64)
        requires
            self.wf(),
        ensures
            self.owned_ids(a).no_duplicates(),
    {
        if self.has_entry(a) {
            let k = self.entry_of(a);
            self.lemma_owned_ids_entry(a, k);
            let ids = self.owned_ids(a);
            assert forall|j1: int, j2: int|
                0 <= j1 < ids.len() && 0 <= j2 < ids.len() && j1 != j2 implies ids[j1] != ids[j2]
            by {
                let v1 = self.owned@[k].items@[j1];
                let v2 = self.owned@[k].items@[j2];
                assert(self.records@[v1 as int].owned_seq == j1);
                assert(self.records@[v2 as int].owned_seq == j2);
                if ids[j1] == ids[j2] {
                    if (v1 as int) < (v2 as int) {
                        assert(self.records@[v1 as int].kitty.id@ != self.records@[v2 as int].kitty.id@);
                    } else if (v2 as int) < (v1 as int) {
                        assert(self.records@[v2 as int].kitty.id@ != self.records@[v1 as int].kitty.id@);
                    }
                }
            }
        }
    }
}

/// Swap-and-pop removes exactly the element at the vacated slot: every
/// other element of a duplicate-free sequence is still listed exactly once,
/// reordered but never lost or duplicated.
pub proof fn lemma_swap_popped_membership(s: Seq<Seq<u8>>, j: int)
    requires
        s.no_duplicates(),
        0 <= j < s.len(),
    ensures
        swap_popped(s, j).len() == s.len() - 1,
        swap_popped(s, j).no_duplicates(),
        forall|x: Seq<u8>|
            #[trigger] swap_popped(s, j).contains(x) <==> s.contains(x) && x != s[j],
{
    let t = swap_popped(s, j);
    let n = s.len() as int;
    assert(forall|i: int| 0 <= i < n - 1 ==> t[i] == (if i == j {
        s[n - 1]
    } else {
        s[i]
    }));
    assert forall|x: Seq<u8>| #[trigger] t.contains(x) implies s.contains(x) && x != s[j] by {
        let i = choose|i: int| 0 <= i < t.len() && t[i] == x;
        if i == j {
            assert(s[n - 1] == x);
            assert(j < n - 1);
            assert(s[j] != s[n - 1]);
        } else {
            assert(s[i] == x);
            assert(s[i] != s[j]);
        }
    }
    assert forall|x: Seq<u8>| s.contains(x) && x != s[j] implies #[trigger] t.contains(x) by {
        let i = choose|i: int| 0 <= i < s.len() && s[i] == x;
        assert(i != j);
        if i == n - 1 {
            assert(j < n - 1);
            assert(t[j] == x);
        } else {
            assert(t[i] == x);
        }
    }
    assert forall|i1: int, i2: int|
        0 <= i1 < t.len() && 0 <= i2 < t.len() && i1 != i2 implies t[i1] != t[i2] by {
        let v1 = if i1 == j {
            n - 1
        } else {
            i1
        };
        let v2 = if i2 == j {
            n - 1
        } else {
            i2
        };
        assert(t[i1] == s[v1] && t[i2] == s[v2]);
        assert(v1 != v2);
        assert(s[v1] != s[v2]);
    }
}

} // verus!
