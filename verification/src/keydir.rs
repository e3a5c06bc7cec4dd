//! The in-memory key directory: an ordered mapping from each live key to the
//! position and length of its current value inside the log file, kept as a
//! vector of slots sorted in unsigned lexicographic key order.

use vstd::prelude::*;

use crate::lex::{bytes_eq, bytes_lt, lemma_lex_lt_irrefl, lemma_lex_lt_total, lex_lt};

verus! {

/// One directory entry: a live key and where its current value lies.
pub struct Slot {
    pub key: Vec<u8>,
    pub value_pos: usize,
    pub value_len: usize,
}

/// The mapping a sequence of slots stands for; a later slot for the same key
/// overrides an earlier one.
pub open spec fn slots_map(s: Seq<Slot>) -> Map<Seq<u8>, (nat, nat)>
    decreases s.len(),
{
    if s.len() == 0 {
        Map::empty()
    } else {
        slots_map(s.drop_last()).insert(
            s.last().key@,
            (s.last().value_pos as nat, s.last().value_len as nat),
        )
    }
}

/// Slot keys strictly ascend in lexicographic order.
pub open spec fn sorted_slots(s: Seq<Slot>) -> bool {
    forall|i: int, j: int| 0 <= i < j < s.len() ==> lex_lt(s[i].key@, s[j].key@)
}

/// No two slots share a key.
pub open spec fn distinct_keys(s: Seq<Slot>) -> bool {
    forall|i: int, j: int| 0 <= i < j < s.len() ==> s[i].key@ != s[j].key@
}

pub proof fn lemma_sorted_distinct(s: Seq<Slot>)
    requires
        sorted_slots(s),
    ensures
        distinct_keys(s),
{
    assert forall|i: int, j: int| 0 <= i < j < s.len() implies s[i].key@ != s[j].key@ by {
        lemma_lex_lt_irrefl(s[i].key@);
    }
}

/// A key is in the mapping exactly when some slot holds it.
pub proof fn lemma_slots_map_dom(s: Seq<Slot>)
    ensures
        forall|k: Seq<u8>|
            slots_map(s).dom().contains(k) <==> exists|i: int| 0 <= i < s.len() && s[i].key@ == k,
    decreases s.len(),
{
    if s.len() > 0 {
        lemma_slots_map_dom(s.drop_last());
        assert forall|k: Seq<u8>| slots_map(s).dom().contains(k) implies exists|i: int|
            0 <= i < s.len() && s[i].key@ == k by {
            if k == s.last().key@ {
                assert(s[s.len() - 1].key@ == k);
            } else {
                assert(slots_map(s.drop_last()).dom().contains(k));
                let i = choose|i: int|
                    0 <= i < s.drop_last().len() && s.drop_last()[i].key@ == k;
                assert(s.drop_last()[i] == s[i]);
                assert(s[i].key@ == k);
            }
        }
        assert forall|k: Seq<u8>|
            (exists|i: int| 0 <= i < s.len() && s[i].key@ == k) implies slots_map(
            s,
        ).dom().contains(k) by {
            let i = choose|i: int| 0 <= i < s.len() && s[i].key@ == k;
            if i < s.len() - 1 {
                assert(s.drop_last()[i].key@ == k);
                assert(exists|j: int| 0 <= j < s.drop_last().len() && s.drop_last()[j].key@ == k);
                assert(slots_map(s.drop_last()).dom().contains(k));
            } else {
                assert(k == s.last().key@);
            }
        }
    }
}

/// With distinct keys, each slot's key maps to that slot's location.
pub proof fn lemma_slots_map_index(s: Seq<Slot>)
    requires
        distinct_keys(s),
    ensures
        forall|i: int|
            0 <= i < s.len() ==> slots_map(s).dom().contains(#[trigger] s[i].key@) && slots_map(s)[
                s[i].key@] == (s[i].value_pos as nat, s[i].value_len as nat),
    decreases s.len(),
{
    if s.len() > 0 {
        lemma_slots_map_index(s.drop_last());
        assert forall|i: int| 0 <= i < s.len() implies slots_map(s).dom().contains(
            #[trigger] s[i].key@,
        ) && slots_map(s)[s[i].key@] == (s[i].value_pos as nat, s[i].value_len as nat) by {
            if i < s.len() - 1 {
                assert(s.drop_last()[i] == s[i]);
                assert(s[i].key@ != s.last().key@);
            }
        }
    }
}

/// Inserting a slot with a fresh key anywhere inserts its binding.
pub proof fn lemma_slots_map_insert(s: Seq<Slot>, i: int, slot: Slot)
    requires
        0 <= i <= s.len(),
        forall|j: int| 0 <= j < s.len() ==> s[j].key@ != slot.key@,
    ensures
        slots_map(s.insert(i, slot)) == slots_map(s).insert(
            slot.key@,
            (slot.value_pos as nat, slot.value_len as nat),
        ),
    decreases s.len(),
{
    let loc = (slot.value_pos as nat, slot.value_len as nat);
    if i == s.len() {
        assert(s.insert(i, slot).drop_last() =~= s);
        assert(s.insert(i, slot).last() == slot);
    } else {
        let t = s.insert(i, slot);
        assert(t.last() == s.last());
        assert(t.drop_last() =~= s.drop_last().insert(i, slot));
        assert(forall|j: int| 0 <= j < s.len() - 1 ==> s.drop_last()[j] == s[j]);
        lemma_slots_map_insert(s.drop_last(), i, slot);
        let last = s.last();
        let lloc = (last.value_pos as nat, last.value_len as nat);
        assert(s[s.len() - 1].key@ != slot.key@);
        assert(slots_map(s.drop_last()).insert(slot.key@, loc).insert(last.key@, lloc)
            =~= slots_map(s.drop_last()).insert(last.key@, lloc).insert(slot.key@, loc));
    }
}

/// Overwriting the slot that holds a key re-points that key's binding.
pub proof fn lemma_slots_map_update(s: Seq<Slot>, i: int, slot: Slot)
    requires
        0 <= i < s.len(),
        distinct_keys(s),
        slot.key@ == s[i].key@,
    ensures
        slots_map(s.update(i, slot)) == slots_map(s).insert(
            slot.key@,
            (slot.value_pos as nat, slot.value_len as nat),
        ),
    decreases s.len(),
{
    let loc = (slot.value_pos as nat, slot.value_len as nat);
    let t = s.update(i, slot);
    if i == s.len() - 1 {
        assert(t.drop_last() =~= s.drop_last());
        assert(t.last() == slot);
        assert(slots_map(s.drop_last()).insert(slot.key@, loc) =~= slots_map(s.drop_last()).insert(
            s.last().key@,
            (s.last().value_pos as nat, s.last().value_len as nat),
        ).insert(slot.key@, loc));
    } else {
        assert(t.last() == s.last());
        assert(t.drop_last() =~= s.drop_last().update(i, slot));
        assert(forall|j: int| 0 <= j < s.len() - 1 ==> s.drop_last()[j] == s[j]);
        lemma_slots_map_update(s.drop_last(), i, slot);
        let last = s.last();
        let lloc = (last.value_pos as nat, last.value_len as nat);
        assert(s[s.len() - 1].key@ != slot.key@);
        assert(slots_map(s.drop_last()).insert(slot.key@, loc).insert(last.key@, lloc)
            =~= slots_map(s.drop_last()).insert(last.key@, lloc).insert(slot.key@, loc));
    }
}

/// Removing the slot that holds a key removes that key's binding.
pub proof fn lemma_slots_map_remove(s: Seq<Slot>, i: int)
    requires
        0 <= i < s.len(),
        distinct_keys(s),
    ensures
        slots_map(s.remove(i)) == slots_map(s).remove(s[i].key@),
    decreases s.len(),
{
    let k = s[i].key@;
    if i == s.len() - 1 {
        assert(s.remove(i) =~= s.drop_last());
        lemma_slots_map_dom(s.drop_last());
        assert(forall|j: int| 0 <= j < s.len() - 1 ==> s.drop_last()[j] == s[j]);
        assert(!slots_map(s.drop_last()).dom().contains(k));
        assert(slots_map(s.drop_last()) =~= slots_map(s.drop_last()).insert(
            k,
            (s.last().value_pos as nat, s.last().value_len as nat),
        ).remove(k));
    } else {
        let t = s.remove(i);
        assert(t.last() == s.last());
        assert(t.drop_last() =~= s.drop_last().remove(i));
        assert(forall|j: int| 0 <= j < s.len() - 1 ==> s.drop_last()[j] == s[j]);
        lemma_slots_map_remove(s.drop_last(), i);
        let last = s.last();
        let lloc = (last.value_pos as nat, last.value_len as nat);
        assert(s[s.len() - 1].key@ != k);
        assert(slots_map(s.drop_last()).remove(k).insert(last.key@, lloc) =~= slots_map(
            s.drop_last(),
        ).insert(last.key@, lloc).remove(k));
    }
}

/// The in-memory index: keys sorted ascending, each pointing at its value.
pub struct KeyDir {
    pub slots: Vec<Slot>,
}

impl KeyDir {
    /// The mapping from live keys to value locations.
    pub open spec fn view(self) -> Map<Seq<u8>, (nat, nat)> {
        slots_map(self.slots@)
    }

    /// The keys in directory order.
    pub open spec fn key_seq(self) -> Seq<Seq<u8>> {
        Seq::new(self.slots@.len(), |i: int| self.slots@[i].key@)
    }

    pub open spec fn wf(self) -> bool {
        sorted_slots(self.slots@)
    }

    /// Ties the ordered slots to the mapping they stand for.
    pub proof fn lemma_view(self)
        requires
            self.wf(),
        ensures
            forall|k: Seq<u8>|
                self@.dom().contains(k) <==> exists|i: int|
                    0 <= i < self.slots@.len() && self.slots@[i].key@ == k,
            forall|i: int|
                0 <= i < self.slots@.len() ==> self@.dom().contains(
                    #[trigger] self.slots@[i].key@,
                ) && self@[self.slots@[i].key@] == (
                    self.slots@[i].value_pos as nat,
                    self.slots@[i].value_len as nat,
                ),
    {
        lemma_sorted_distinct(self.slots@);
        lemma_slots_map_dom(self.slots@);
        lemma_slots_map_index(self.slots@);
    }

    pub fn new() -> (r: Self)
        ensures
            r.wf(),
            r@ == Map::<Seq<u8>, (nat, nat)>::empty(),
            r.slots@.len() == 0,
    {
        KeyDir { slots: Vec::new() }
    }

    /// How many keys are live.
    pub fn len(&self) -> (n: usize)
        ensures
            n == self.slots@.len(),
    {
        self.slots.len()
    }

    /// Index of the first slot whose key is not below `key`; all slots before
    /// it hold smaller keys, all from it on hold keys at or above `key`.
    pub fn lower_bound(&self, key: &Vec<u8>) -> (i: usize)
        requires
            self.wf(),
        ensures
            i <= self.slots@.len(),
            forall|j: int| 0 <= j < i ==> lex_lt(self.slots@[j].key@, key@),
            forall|j: int| i <= j < self.slots@.len() ==> !lex_lt(self.slots@[j].key@, key@),
    {
        let mut i: usize = 0;
        while i < self.slots.len()
            invariant
                i <= self.slots@.len(),
                self.wf(),
                forall|j: int| 0 <= j < i ==> lex_lt(self.slots@[j].key@, key@),
            decreases self.slots@.len() - i,
        {
            if !bytes_lt(&self.slots[i].key, key) {
                proof {
                    assert forall|j: int|
                        i <= j < self.slots@.len() implies !lex_lt(
                        self.slots@[j].key@,
                        key@,
                    ) by {
                        if j > i && lex_lt(self.slots@[j].key@, key@) {
                            crate::lex::lemma_lex_lt_trans(
                                self.slots@[i as int].key@,
                                self.slots@[j].key@,
                                key@,
                            );
                        }
                    }
                }
                return i;
            }
            i = i + 1;
        }
        i
    }

    /// Looks a key up, returning the position and length of its value.
    pub fn get(&self, key: &Vec<u8>) -> (r: Option<(usize, usize)>)
        requires
            self.wf(),
        ensures
            match r {
                Some(loc) => self@.dom().contains(key@) && self@[key@] == (
                    loc.0 as nat,
                    loc.1 as nat,
                ),
                None => !self@.dom().contains(key@),
            },
    {
        proof {
            self.lemma_view();
        }
        let i = self.lower_bound(key);
        if i < self.slots.len() && bytes_eq(&self.slots[i].key, key) {
            return Some((self.slots[i].value_pos, self.slots[i].value_len));
        }
        proof {
            assert forall|j: int| 0 <= j < self.slots@.len() implies self.slots@[j].key@
                != key@ by {
                if j < i {
                    lemma_lex_lt_irrefl(key@);
                } else if j > i && self.slots@[j].key@ == key@ {
                    assert(lex_lt(self.slots@[i as int].key@, self.slots@[j].key@));
                    assert(!lex_lt(self.slots@[i as int].key@, key@));
                    lemma_lex_lt_total(self.slots@[i as int].key@, key@);
                    lemma_lex_lt_irrefl(key@);
                }
            }
        }
        None
    }

    /// Binds `key` to the given value location, overwriting any prior binding.
    pub fn insert(&mut self, key: &Vec<u8>, value_pos: usize, value_len: usize)
        requires
            old(self).wf(),
        ensures
            final(self).wf(),
            final(self)@ == old(self)@.insert(key@, (value_pos as nat, value_len as nat)),
    {
        proof {
            lemma_sorted_distinct(self.slots@);
        }
        let i = self.lower_bound(key);
        let k = crate::record::clone_bytes(key);
        let slot = Slot { key: k, value_pos, value_len };
        if i < self.slots.len() && bytes_eq(&self.slots[i].key, key) {
            proof {
                lemma_slots_map_update(self.slots@, i as int, slot);
            }
            self.slots[i] = slot;
            proof {
                assert forall|a: int, b: int|
                    0 <= a < b < self.slots@.len() implies lex_lt(
                    self.slots@[a].key@,
                    self.slots@[b].key@,
                ) by {}
            }
        } else {
            proof {
                assert forall|j: int| 0 <= j < self.slots@.len() implies self.slots@[j].key@
                    != key@ by {
                    if j < i {
                        lemma_lex_lt_irrefl(key@);
                    } else if self.slots@[j].key@ == key@ {
                        if j > i {
                            assert(lex_lt(self.slots@[i as int].key@, self.slots@[j].key@));
                            lemma_lex_lt_total(self.slots@[i as int].key@, key@);
                            lemma_lex_lt_irrefl(key@);
                        }
                    }
                }
                lemma_slots_map_insert(self.slots@, i as int, slot);
                assert forall|j: int|
                    i <= j < self.slots@.len() implies lex_lt(key@, self.slots@[j].key@) by {
                    lemma_lex_lt_total(self.slots@[j].key@, key@);
                }
            }
            self.slots.insert(i, slot);
        }
    }

    /// Appends a binding whose key is above every key already present, as
    /// when the directory is rebuilt in key order.
    pub fn push_max(&mut self, key: &Vec<u8>, value_pos: usize, value_len: usize)
        requires
            old(self).wf(),
            forall|j: int|
                0 <= j < old(self).slots@.len() ==> lex_lt(old(self).slots@[j].key@, key@),
        ensures
            final(self).wf(),
            final(self)@ == old(self)@.insert(key@, (value_pos as nat, value_len as nat)),
            final(self).slots@.len() == old(self).slots@.len() + 1,
            forall|j: int|
                0 <= j < old(self).slots@.len() ==> final(self).slots@[j] == old(self).slots@[j],
            final(self).slots@.last().key@ == key@,
            final(self).slots@.last().value_pos == value_pos,
            final(self).slots@.last().value_len == value_len,
    {
        proof {
            lemma_sorted_distinct(self.slots@);
            assert forall|j: int| 0 <= j < self.slots@.len() implies self.slots@[j].key@
                != key@ by {
                lemma_lex_lt_irrefl(key@);
            }
        }
        let k = crate::record::clone_bytes(key);
        let slot = Slot { key: k, value_pos, value_len };
        proof {
            lemma_slots_map_insert(self.slots@, self.slots@.len() as int, slot);
            assert(self.slots@.insert(self.slots@.len() as int, slot) =~= self.slots@.push(slot));
        }
        self.slots.push(slot);
    }

    /// Drops any binding `key` has.
    pub fn remove(&mut self, key: &Vec<u8>)
        requires
            old(self).wf(),
        ensures
            final(self).wf(),
            final(self)@ == old(self)@.remove(key@),
    {
        proof {
            lemma_sorted_distinct(self.slots@);
            self.lemma_view();
        }
        let i = self.lower_bound(key);
        if i < self.slots.len() && bytes_eq(&self.slots[i].key, key) {
            proof {
                lemma_slots_map_remove(self.slots@, i as int);
            }
            self.slots.remove(i);
        } else {
            proof {
                assert forall|j: int| 0 <= j < self.slots@.len() implies self.slots@[j].key@
                    != key@ by {
                    if j < i {
                        lemma_lex_lt_irrefl(key@);
                    } else if j > i && self.slots@[j].key@ == key@ {
                        assert(lex_lt(self.slots@[i as int].key@, self.slots@[j].key@));
                        lemma_lex_lt_total(self.slots@[i as int].key@, key@);
                        lemma_lex_lt_irrefl(key@);
                    }
                }
                assert(!self@.dom().contains(key@));
                assert(self@ =~= self@.remove(key@));
            }
        }
    }
}

} // verus!
