//! The store: the in-memory key directory over the append-only log. All
//! operations are specified against the model of the store as a finite map
//! from live keys to their value bytes.

use vstd::prelude::*;

use crate::keydir::KeyDir;
use crate::lex::{
    all_ff, bytes_lt, is_prefix, lemma_lex_lt_total, lemma_lex_lt_trans, lemma_prefix_all_ff,
    lemma_prefix_range, lex_lt, prefix_succ, prefix_successor,
};
use crate::log::{
    lemma_replay_append, lemma_replay_bounded, locs_bounded, spec_replay, Log, LogError,
};
use crate::record::{spec_record, spec_record_len, MAX_KEY_LEN, MAX_VALUE_LEN};

verus! {

/// The map from live keys to value bytes that a log image stands for, or
/// `None` when the image is not a whole number of records.
pub open spec fn spec_recover(data: Seq<u8>) -> Option<Map<Seq<u8>, Seq<u8>>> {
    match spec_replay(data) {
        Some(dir) => Some(
            Map::new(
                |k: Seq<u8>| dir.dom().contains(k),
                |k: Seq<u8>| data.subrange(dir[k].0 as int, dir[k].0 as int + dir[k].1 as int),
            ),
        ),
        None => None,
    }
}

/// One end of a key range handed to `scan`, over raw byte-sequence keys in
/// unsigned lexicographic order.
pub enum ScanBound {
    Unbounded,
    Included(Vec<u8>),
    Excluded(Vec<u8>),
}

/// `k` lies at or above the lower bound `lo`.
pub open spec fn above_lower(lo: ScanBound, k: Seq<u8>) -> bool {
    match lo {
        ScanBound::Unbounded => true,
        ScanBound::Included(b) => !lex_lt(k, b@),
        ScanBound::Excluded(b) => lex_lt(b@, k),
    }
}

/// `k` lies below the upper bound `hi`.
pub open spec fn below_upper(hi: ScanBound, k: Seq<u8>) -> bool {
    match hi {
        ScanBound::Unbounded => true,
        ScanBound::Included(b) => !lex_lt(b@, k),
        ScanBound::Excluded(b) => lex_lt(k, b@),
    }
}

/// `k` lies inside the range `[lo, hi]` as the two bounds read it.
pub open spec fn in_range(lo: ScanBound, hi: ScanBound, k: Seq<u8>) -> bool {
    above_lower(lo, k) && below_upper(hi, k)
}

/// Lying at or above a lower bound carries upward along the key order.
proof fn lemma_above_lower_up(lo: ScanBound, a: Seq<u8>, b: Seq<u8>)
    requires
        above_lower(lo, a),
        lex_lt(a, b),
    ensures
        above_lower(lo, b),
{
    match lo {
        ScanBound::Unbounded => {},
        ScanBound::Included(x) => {
            if lex_lt(b, x@) {
                lemma_lex_lt_trans(a, b, x@);
                lemma_lex_lt_total(a, x@);
                crate::lex::lemma_lex_lt_asym(a, x@);
                crate::lex::lemma_lex_lt_irrefl(a);
            }
        },
        ScanBound::Excluded(x) => {
            lemma_lex_lt_trans(x@, a, b);
        },
    }
}

/// Lying below an upper bound carries downward along the key order.
proof fn lemma_below_upper_down(hi: ScanBound, a: Seq<u8>, b: Seq<u8>)
    requires
        below_upper(hi, b),
        lex_lt(a, b),
    ensures
        below_upper(hi, a),
{
    match hi {
        ScanBound::Unbounded => {},
        ScanBound::Included(x) => {
            if lex_lt(x@, a) {
                lemma_lex_lt_trans(x@, a, b);
            }
        },
        ScanBound::Excluded(x) => {
            lemma_lex_lt_trans(a, b, x@);
        },
    }
}

/// Whether `k` satisfies the lower bound.
fn above_lower_exec(lo: &ScanBound, k: &Vec<u8>) -> (r: bool)
    ensures
        r == above_lower(*lo, k@),
{
    match lo {
        ScanBound::Unbounded => true,
        ScanBound::Included(b) => !bytes_lt(k, b),
        ScanBound::Excluded(b) => bytes_lt(b, k),
    }
}

/// Whether `k` satisfies the upper bound.
fn below_upper_exec(hi: &ScanBound, k: &Vec<u8>) -> (r: bool)
    ensures
        r == below_upper(*hi, k@),
{
    match hi {
        ScanBound::Unbounded => true,
        ScanBound::Included(b) => !bytes_lt(b, k),
        ScanBound::Excluded(b) => bytes_lt(k, b),
    }
}

/// What `get` returns on a store whose model is `m`: the value bound to `k`,
/// or `None` when `k` is not live.
pub open spec fn spec_get(m: Map<Seq<u8>, Seq<u8>>, k: Seq<u8>) -> Option<Seq<u8>> {
    if m.dom().contains(k) {
        Some(m[k])
    } else {
        None
    }
}

/// The compact log image of a sequence of live entries: one non-tombstone
/// record per entry, in the given order.
pub open spec fn spec_compact(entries: Seq<(Seq<u8>, Seq<u8>)>) -> Seq<u8>
    decreases entries.len(),
{
    if entries.len() == 0 {
        Seq::empty()
    } else {
        spec_compact(entries.drop_last()) + spec_record(
            entries.last().0,
            Some(entries.last().1),
        )
    }
}

/// The byte size of the compact image: the sum over the entries of
/// `8 + |key| + |value|`.
pub open spec fn spec_live_size(entries: Seq<(Seq<u8>, Seq<u8>)>) -> nat
    decreases entries.len(),
{
    if entries.len() == 0 {
        0
    } else {
        spec_live_size(entries.drop_last()) + 8 + entries.last().0.len() + entries.last().1.len()
    }
}

pub proof fn lemma_compact_len(entries: Seq<(Seq<u8>, Seq<u8>)>)
    ensures
        spec_compact(entries).len() == spec_live_size(entries),
    decreases entries.len(),
{
    if entries.len() > 0 {
        lemma_compact_len(entries.drop_last());
    }
}

/// One step of a merge: appends the record for one live entry to the new log
/// image and its binding to the new directory, whose keys it must exceed.
fn merge_push(new_data: &mut Vec<u8>, new_keydir: &mut KeyDir, key: &Vec<u8>, value: &Vec<u8>)
    requires
        old(new_keydir).wf(),
        spec_replay(old(new_data)@) == Some(old(new_keydir)@),
        locs_bounded(old(new_keydir)@, old(new_data)@.len()),
        key@.len() <= MAX_KEY_LEN,
        value@.len() <= MAX_VALUE_LEN,
        forall|j: int|
            0 <= j < old(new_keydir).slots@.len() ==> lex_lt(
                old(new_keydir).slots@[j].key@,
                key@,
            ),
    ensures
        final(new_keydir).wf(),
        spec_replay(final(new_data)@) == Some(final(new_keydir)@),
        locs_bounded(final(new_keydir)@, final(new_data)@.len()),
        final(new_data)@ == old(new_data)@ + spec_record(key@, Some(value@)),
        final(new_keydir).slots@.len() == old(new_keydir).slots@.len() + 1,
        forall|j: int|
            0 <= j < old(new_keydir).slots@.len() ==> final(new_keydir).slots@[j] == old(
                new_keydir,
            ).slots@[j] && final(new_data)@.subrange(
                (#[trigger] final(new_keydir).slots@[j]).value_pos as int,
                final(new_keydir).slots@[j].value_pos as int
                    + final(new_keydir).slots@[j].value_len as int,
            ) == old(new_data)@.subrange(
                old(new_keydir).slots@[j].value_pos as int,
                old(new_keydir).slots@[j].value_pos as int + old(new_keydir).slots@[j].value_len
                    as int,
            ),
        final(new_keydir).slots@.last().key@ == key@,
        final(new_data)@.subrange(
            final(new_keydir).slots@.last().value_pos as int,
            final(new_keydir).slots@.last().value_pos as int
                + final(new_keydir).slots@.last().value_len as int,
        ) == value@,
{
    proof {
        lemma_replay_append(new_data@, key@, Some(value@));
        new_keydir.lemma_view();
    }
    let rec = crate::record::encode_record(key, Some(value));
    let ghost prev = new_data@;
    let ghost prev_kd = new_keydir@;
    crate::record::append_bytes(new_data, &rec);
    let value_pos = new_data.len() - value.len();
    new_keydir.push_max(key, value_pos, value.len());
    proof {
        assert(value_pos == prev.len() + 8 + key@.len());
        assert(locs_bounded(new_keydir@, new_data@.len())) by {
            assert forall|k: Seq<u8>| #[trigger]
                new_keydir@.dom().contains(k) implies new_keydir@[k].0 + new_keydir@[k].1
                <= new_data@.len() && k.len() <= MAX_KEY_LEN && new_keydir@[k].1
                <= MAX_VALUE_LEN by {
                if k != key@ {
                    assert(prev_kd.dom().contains(k));
                }
            }
        }
        assert forall|j: int| 0 <= j < new_keydir.slots@.len() - 1 implies new_data@.subrange(
            (#[trigger] new_keydir.slots@[j]).value_pos as int,
            new_keydir.slots@[j].value_pos as int + new_keydir.slots@[j].value_len as int,
        ) == prev.subrange(
            new_keydir.slots@[j].value_pos as int,
            new_keydir.slots@[j].value_pos as int + new_keydir.slots@[j].value_len as int,
        ) by {
            if 0 <= j < new_keydir.slots@.len() - 1 {
                assert(prev_kd.dom().contains(new_keydir.slots@[j].key@));
                assert(new_data@.subrange(
                    new_keydir.slots@[j].value_pos as int,
                    new_keydir.slots@[j].value_pos as int + new_keydir.slots@[j].value_len as int,
                ) =~= prev.subrange(
                    new_keydir.slots@[j].value_pos as int,
                    new_keydir.slots@[j].value_pos as int + new_keydir.slots@[j].value_len as int,
                ));
            }
        }
        assert(new_data@.subrange(value_pos as int, value_pos as int + value@.len() as int)
            =~= value@);
    }
}

/// A log-structured key-value store: one append-only log file and the
/// in-memory directory of live keys.
pub struct MiniBitcask {
    log: Log,
    keydir: KeyDir,
}

impl View for MiniBitcask {
    type V = Map<Seq<u8>, Seq<u8>>;

    /// The store's model: each live key bound to its current value bytes.
    closed spec fn view(&self) -> Map<Seq<u8>, Seq<u8>> {
        Map::new(
            |k: Seq<u8>| self.keydir@.dom().contains(k),
            |k: Seq<u8>|
                self.log@.subrange(
                    self.keydir@[k].0 as int,
                    self.keydir@[k].0 as int + self.keydir@[k].1 as int,
                ),
        )
    }
}

impl MiniBitcask {
    /// The bytes of the log file.
    pub closed spec fn file_bytes(self) -> Seq<u8> {
        self.log@
    }

    /// The directory is exactly what replaying the log yields, and every
    /// location it holds lies inside the log.
    pub closed spec fn wf(self) -> bool {
        &&& self.keydir.wf()
        &&& spec_replay(self.log@) == Some(self.keydir@)
        &&& locs_bounded(self.keydir@, self.log@.len())
    }

    /// Opens a store over the bytes of its log file, replaying them to build
    /// the directory. Fails exactly when the file ends inside a record.
    pub fn new(data: Vec<u8>) -> (r: Result<Self, LogError>)
        ensures
            match r {
                Ok(s) => s.wf() && s.file_bytes() == data@ && spec_recover(data@) == Some(s@),
                Err(_) => spec_recover(data@) is None,
            },
    {
        let log = Log::from_bytes(data);
        match log.load_index() {
            Ok(keydir) => {
                proof {
                    lemma_replay_bounded(log@, 0, Map::empty());
                }
                let s = MiniBitcask { log, keydir };
                proof {
                    assert(spec_recover(s.log@)->0 =~= s@);
                }
                Ok(s)
            },
            Err(e) => Err(e),
        }
    }

    /// The current size of the log file in bytes.
    pub fn file_len(&self) -> (n: usize)
        ensures
            n == self.file_bytes().len(),
    {
        self.log.len()
    }

    /// The bytes of the log file, as they would stand on disk.
    pub fn log_bytes(&self) -> (r: &Vec<u8>)
        ensures
            r@ == self.file_bytes(),
    {
        &self.log.data
    }

    /// The value bound to `key`, or `None` when no live record holds it.
    pub fn get(&self, key: &Vec<u8>) -> (r: Option<Vec<u8>>)
        requires
            self.wf(),
        ensures
            match r {
                Some(v) => spec_get(self@, key@) == Some(v@),
                None => spec_get(self@, key@) is None,
            },
    {
        match self.keydir.get(key) {
            Some((value_pos, value_len)) => {
                proof {
                    assert(self.keydir@.dom().contains(key@));
                }
                let v = self.log.read_value(value_pos, value_len);
                Some(v)
            },
            None => None,
        }
    }

    /// Binds `key` to `value`: appends one record and points the directory at
    /// the value bytes inside it.
    pub fn set(&mut self, key: &Vec<u8>, value: Vec<u8>)
        requires
            old(self).wf(),
            key@.len() <= MAX_KEY_LEN,
            value@.len() <= MAX_VALUE_LEN,
            old(self).file_bytes().len() + 8 + key@.len() + value@.len() <= usize::MAX,
        ensures
            final(self).wf(),
            final(self)@ == old(self)@.insert(key@, value@),
            final(self).file_bytes() == old(self).file_bytes() + spec_record(key@, Some(value@)),
    {
        proof {
            lemma_replay_append(self.log@, key@, Some(value@));
        }
        let (offset, len) = self.log.write_entry(key, Some(&value));
        let value_pos = offset + len - value.len();
        self.keydir.insert(key, value_pos, value.len());
        proof {
            let od = old(self).log@;
            let nd = self.log@;
            let rec = spec_record(key@, Some(value@));
            assert(nd.subrange(value_pos as int, value_pos as int + value@.len() as int)
                =~= value@);
            assert(locs_bounded(self.keydir@, nd.len())) by {
                assert(forall|k: Seq<u8>| #[trigger]
                    old(self).keydir@.dom().contains(k) ==> old(self).keydir@[k]
                        == self.keydir@[k] || k == key@);
            }
            assert(final(self)@ =~= old(self)@.insert(key@, value@)) by {
                assert forall|k: Seq<u8>|
                    old(self).keydir@.dom().contains(k) && k != key@ implies nd.subrange(
                    old(self).keydir@[k].0 as int,
                    old(self).keydir@[k].0 as int + old(self).keydir@[k].1 as int,
                ) == od.subrange(
                    old(self).keydir@[k].0 as int,
                    old(self).keydir@[k].0 as int + old(self).keydir@[k].1 as int,
                ) by {
                    assert(old(self).keydir@[k].0 + old(self).keydir@[k].1 <= od.len());
                    assert(nd.subrange(
                        old(self).keydir@[k].0 as int,
                        old(self).keydir@[k].0 as int + old(self).keydir@[k].1 as int,
                    ) =~= od.subrange(
                        old(self).keydir@[k].0 as int,
                        old(self).keydir@[k].0 as int + old(self).keydir@[k].1 as int,
                    ));
                }
            }
        }
    }

    /// Unbinds `key`: appends a tombstone record and drops the key from the
    /// directory, which makes the removal durable across reopen.
    pub fn delete(&mut self, key: &Vec<u8>)
        requires
            old(self).wf(),
            key@.len() <= MAX_KEY_LEN,
            old(self).file_bytes().len() + 8 + key@.len() <= usize::MAX,
        ensures
            final(self).wf(),
            final(self)@ == old(self)@.remove(key@),
            final(self).file_bytes() == old(self).file_bytes() + spec_record(key@, None),
    {
        proof {
            lemma_replay_append(self.log@, key@, None);
        }
        let _ = self.log.write_entry(key, None);
        self.keydir.remove(key);
        proof {
            let od = old(self).log@;
            let nd = self.log@;
            assert(locs_bounded(self.keydir@, nd.len())) by {
                assert(forall|k: Seq<u8>| #[trigger]
                    self.keydir@.dom().contains(k) ==> old(self).keydir@.dom().contains(k)
                        && old(self).keydir@[k] == self.keydir@[k]);
            }
            assert(final(self)@ =~= old(self)@.remove(key@)) by {
                assert forall|k: Seq<u8>|
                    self.keydir@.dom().contains(k) implies nd.subrange(
                    self.keydir@[k].0 as int,
                    self.keydir@[k].0 as int + self.keydir@[k].1 as int,
                ) == od.subrange(
                    self.keydir@[k].0 as int,
                    self.keydir@[k].0 as int + self.keydir@[k].1 as int,
                ) by {
                    assert(self.keydir@[k].0 + self.keydir@[k].1 <= od.len());
                    assert(nd.subrange(
                        self.keydir@[k].0 as int,
                        self.keydir@[k].0 as int + self.keydir@[k].1 as int,
                    ) =~= od.subrange(
                        self.keydir@[k].0 as int,
                        self.keydir@[k].0 as int + self.keydir@[k].1 as int,
                    ));
                }
            }
        }
    }

    /// The live entries in ascending key order: each live key paired with its
    /// current value bytes.
    pub closed spec fn live_entries(self) -> Seq<(Seq<u8>, Seq<u8>)> {
        Seq::new(
            self.keydir.slots@.len(),
            |i: int|
                (
                    self.keydir.slots@[i].key@,
                    self.log@.subrange(
                        self.keydir.slots@[i].value_pos as int,
                        self.keydir.slots@[i].value_pos as int + self.keydir.slots@[i].value_len
                            as int,
                    ),
                ),
        )
    }

    /// Rewrites the log to hold exactly one record per live key, in key
    /// order, and drops everything superseded: the model is unchanged while
    /// the file shrinks to the compact image of the live entries.
    #[verifier::rlimit(100)]
    pub fn merge(&mut self)
        requires
            old(self).wf(),
        ensures
            final(self).wf(),
            final(self)@ == old(self)@,
            final(self).live_entries() == old(self).live_entries(),
            final(self).file_bytes() == spec_compact(old(self).live_entries()),
            final(self).file_bytes().len() == spec_live_size(old(self).live_entries()),
    {
        proof {
            self.keydir.lemma_view();
        }
        let ghost live = self.live_entries();
        let n = self.keydir.len();
        let mut new_data: Vec<u8> = Vec::new();
        let mut new_keydir = KeyDir::new();
        let mut i: usize = 0;
        while i < n
            invariant
                i <= n,
                *self == *old(self),
                self.wf(),
                n == self.keydir.slots@.len(),
                live == self.live_entries(),
                new_keydir.wf(),
                new_keydir.slots@.len() == i,
                crate::log::spec_replay(new_data@) == Some(new_keydir@),
                locs_bounded(new_keydir@, new_data@.len()),
                new_data@ == spec_compact(live.take(i as int)),
                forall|j: int|
                    0 <= j < i ==> (#[trigger] new_keydir.slots@[j]).key@ == live[j].0
                        && new_data@.subrange(
                        new_keydir.slots@[j].value_pos as int,
                        new_keydir.slots@[j].value_pos as int + new_keydir.slots@[j].value_len
                            as int,
                    ) == live[j].1,
            decreases n - i,
        {
            proof {
                self.keydir.lemma_view();
                assert(self.keydir@.dom().contains(self.keydir.slots@[i as int].key@));
                assert(self.keydir@[self.keydir.slots@[i as int].key@] == (
                    self.keydir.slots@[i as int].value_pos as nat,
                    self.keydir.slots@[i as int].value_len as nat,
                ));
                assert forall|j: int|
                    0 <= j < new_keydir.slots@.len() implies lex_lt(
                    (#[trigger] new_keydir.slots@[j]).key@,
                    self.keydir.slots@[i as int].key@,
                ) by {
                    assert(new_keydir.slots@[j].key@ == live[j].0);
                    assert(live[j].0 == self.keydir.slots@[j].key@);
                }
            }
            let slot = &self.keydir.slots[i];
            let value = self.log.read_value(slot.value_pos, slot.value_len);
            let ghost prev = new_data@;
            let ghost prev_slots = new_keydir.slots@;
            merge_push(&mut new_data, &mut new_keydir, &slot.key, &value);
            i = i + 1;
            proof {
                assert(new_data@ == spec_compact(live.take(i as int))) by {
                    assert(live.take(i as int).drop_last() =~= live.take(i as int - 1));
                    assert(live.take(i as int).last() == live[i as int - 1]);
                    assert(live[i as int - 1].1 == value@);
                }
                assert forall|j: int|
                    0 <= j < i implies (#[trigger] new_keydir.slots@[j]).key@ == live[j].0
                    && new_data@.subrange(
                    new_keydir.slots@[j].value_pos as int,
                    new_keydir.slots@[j].value_pos as int + new_keydir.slots@[j].value_len as int,
                ) == live[j].1 by {
                    if j < i - 1 {
                        assert(new_keydir.slots@[j] == prev_slots[j]);
                    } else {
                        assert(new_keydir.slots@[j] == new_keydir.slots@.last());
                    }
                }
            }
        }
        self.log = Log::from_bytes(new_data);
        self.keydir = new_keydir;
        proof {
            assert(live.take(n as int) =~= live);
            lemma_compact_len(live);
            assert(self.live_entries() =~= live);
            old(self).keydir.lemma_view();
            self.keydir.lemma_view();
            assert(self@ =~= old(self)@) by {
                assert forall|k: Seq<u8>| #[trigger]
                    self.keydir@.dom().contains(k) implies old(self).keydir@.dom().contains(k)
                    && self@[k] == old(self)@[k] by {
                    let j = choose|j: int|
                        0 <= j < self.keydir.slots@.len() && self.keydir.slots@[j].key@ == k;
                    assert(old(self).keydir.slots@[j].key@ == k);
                    assert(self@[k] == live[j].1);
                    assert(old(self)@[k] == live[j].1);
                }
                assert forall|k: Seq<u8>| #[trigger]
                    old(self).keydir@.dom().contains(k) implies self.keydir@.dom().contains(k) by {
                    let j = choose|j: int|
                        0 <= j < old(self).keydir.slots@.len() && old(self).keydir.slots@[j].key@
                            == k;
                    assert(self.keydir.slots@[j].key@ == k);
                }
            }
        }
    }

    /// An ordered traversal of the live keys whose keys fall inside the given
    /// bounds, each paired with its value read from the log. Forward steps
    /// come from `next`, backward steps from `next_back`.
    pub fn scan<'a>(&'a self, lo: ScanBound, hi: ScanBound) -> (it: ScanIterator<'a>)
        requires
            self.wf(),
        ensures
            it.valid(),
            forall|i: int|
                0 <= i < it.remaining().len() ==> in_range(lo, hi, #[trigger] it.remaining()[i].0)
                    && self@.dom().contains(it.remaining()[i].0) && it.remaining()[i].1 == self@[
                    it.remaining()[i].0],
            forall|i: int, j: int|
                0 <= i < j < it.remaining().len() ==> lex_lt(
                    #[trigger] it.remaining()[i].0,
                    #[trigger] it.remaining()[j].0,
                ),
            forall|k: Seq<u8>|
                self@.dom().contains(k) && in_range(lo, hi, k) ==> exists|i: int|
                    0 <= i < it.remaining().len() && #[trigger] it.remaining()[i].0 == k,
    {
        proof {
            self.keydir.lemma_view();
        }
        let n = self.keydir.len();
        let ghost slots = self.keydir.slots@;
        let mut l: usize = 0;
        while l < n && !above_lower_exec(&lo, &self.keydir.slots[l].key)
            invariant
                l <= n,
                n == slots.len(),
                self.wf(),
                slots == self.keydir.slots@,
                forall|j: int| 0 <= j < l ==> !above_lower(lo, slots[j].key@),
            decreases n - l,
        {
            l = l + 1;
        }
        let mut h: usize = l;
        while h < n && below_upper_exec(&hi, &self.keydir.slots[h].key)
            invariant
                l <= h <= n,
                n == slots.len(),
                self.wf(),
                slots == self.keydir.slots@,
                forall|j: int| l <= j < h ==> below_upper(hi, slots[j].key@),
            decreases n - h,
        {
            h = h + 1;
        }
        let it = ScanIterator { store: self, lo: l, hi: h };
        proof {
            // Every slot in the window satisfies both bounds.
            assert forall|i: int| 0 <= i < it.remaining().len() implies in_range(
                lo,
                hi,
                #[trigger] it.remaining()[i].0,
            ) && self@.dom().contains(it.remaining()[i].0) && it.remaining()[i].1 == self@[
                it.remaining()[i].0] by {
                let key = slots[l + i].key@;
                assert(it.remaining()[i].0 == key);
                if l + i > l {
                    lemma_above_lower_up(lo, slots[l as int].key@, key);
                }
            }
            // Ascending order follows from the sorted directory.
            assert forall|i: int, j: int|
                0 <= i < j < it.remaining().len() implies lex_lt(
                #[trigger] it.remaining()[i].0,
                #[trigger] it.remaining()[j].0,
            ) by {
                assert(lex_lt(slots[l + i].key@, slots[l + j].key@));
            }
            // Every live key inside the bounds appears in the window.
            assert forall|k: Seq<u8>|
                self@.dom().contains(k) && in_range(lo, hi, k) implies exists|i: int|
                0 <= i < it.remaining().len() && #[trigger] it.remaining()[i].0 == k by {
                let idx = choose|idx: int| 0 <= idx < slots.len() && slots[idx].key@ == k;
                if idx < l {
                    assert(!above_lower(lo, slots[idx].key@));
                } else if idx >= h {
                    if h < n {
                        if idx > h {
                            lemma_below_upper_down(hi, slots[h as int].key@, slots[idx].key@);
                        }
                        assert(!below_upper(hi, slots[h as int].key@));
                        assert(false);
                    } else {
                        assert(idx < n);
                        assert(false);
                    }
                } else {
                    assert(it.remaining()[idx - l].0 == k);
                }
            }
        }
        it
    }

    /// An ordered traversal of exactly the live keys that start with
    /// `prefix`: the range from `prefix` up to its byte successor, or
    /// unbounded above when every byte of `prefix` is `0xFF`.
    pub fn scan_prefix<'a>(&'a self, prefix: &Vec<u8>) -> (it: ScanIterator<'a>)
        requires
            self.wf(),
        ensures
            it.valid(),
            forall|i: int|
                0 <= i < it.remaining().len() ==> is_prefix(
                    prefix@,
                    #[trigger] it.remaining()[i].0,
                ) && self@.dom().contains(it.remaining()[i].0) && it.remaining()[i].1 == self@[
                    it.remaining()[i].0],
            forall|i: int, j: int|
                0 <= i < j < it.remaining().len() ==> lex_lt(
                    #[trigger] it.remaining()[i].0,
                    #[trigger] it.remaining()[j].0,
                ),
            forall|k: Seq<u8>|
                self@.dom().contains(k) && is_prefix(prefix@, k) ==> exists|i: int|
                    0 <= i < it.remaining().len() && #[trigger] it.remaining()[i].0 == k,
    {
        let start = ScanBound::Included(crate::record::clone_bytes(prefix));
        let ghost glo = start;
        match prefix_successor(prefix) {
            Some(succ) => {
                let end = ScanBound::Excluded(succ);
                let ghost ghi = end;
                let it = self.scan(start, end);
                proof {
                    assert forall|k: Seq<u8>| true implies #[trigger] is_prefix(prefix@, k)
                        == in_range(glo, ghi, k) by {
                        lemma_prefix_range(prefix@, k);
                    }
                    assert forall|k: Seq<u8>|
                        self@.dom().contains(k) && is_prefix(prefix@, k) implies exists|i: int|
                        0 <= i < it.remaining().len() && #[trigger] it.remaining()[i].0 == k by {
                        assert(in_range(glo, ghi, k));
                    }
                }
                it
            },
            None => {
                let end = ScanBound::Unbounded;
                let ghost ghi = end;
                let it = self.scan(start, end);
                proof {
                    assert forall|k: Seq<u8>| true implies #[trigger] is_prefix(prefix@, k)
                        == in_range(glo, ghi, k) by {
                        lemma_prefix_all_ff(prefix@, k);
                    }
                    assert forall|k: Seq<u8>|
                        self@.dom().contains(k) && is_prefix(prefix@, k) implies exists|i: int|
                        0 <= i < it.remaining().len() && #[trigger] it.remaining()[i].0 == k by {
                        assert(in_range(glo, ghi, k));
                    }
                }
                it
            },
        }
    }
}

/// After `set(k, v)`, `get(k)` returns `Some(v)`.
pub proof fn lemma_get_after_set(m: Map<Seq<u8>, Seq<u8>>, k: Seq<u8>, v: Seq<u8>)
    ensures
        spec_get(m.insert(k, v), k) == Some(v),
{
}

/// After `set(k, v)` then `set(k, v2)`, `get(k)` returns the second value.
pub proof fn lemma_get_after_overwrite(
    m: Map<Seq<u8>, Seq<u8>>,
    k: Seq<u8>,
    v: Seq<u8>,
    v2: Seq<u8>,
)
    ensures
        spec_get(m.insert(k, v).insert(k, v2), k) == Some(v2),
{
}

/// After `set(k, v)` then `delete(k)`, `get(k)` returns `None`.
pub proof fn lemma_get_after_delete(m: Map<Seq<u8>, Seq<u8>>, k: Seq<u8>, v: Seq<u8>)
    ensures
        spec_get(m.insert(k, v).remove(k), k) is None,
{
}

/// `get` of a key never set returns `None`: it is `None` on the empty store,
/// and writes or deletions of other keys leave it `None`.
pub proof fn lemma_get_never_set(m: Map<Seq<u8>, Seq<u8>>, k: Seq<u8>, k2: Seq<u8>, v: Seq<u8>)
    requires
        k != k2,
    ensures
        spec_get(Map::<Seq<u8>, Seq<u8>>::empty(), k) is None,
        spec_get(m.insert(k2, v), k) == spec_get(m, k),
        spec_get(m.remove(k2), k) == spec_get(m, k),
{
}

/// An empty file holds the empty store: before any write, every key reads
/// as unset.
pub proof fn lemma_recover_empty()
    ensures
        spec_recover(Seq::<u8>::empty()) == Some(Map::<Seq<u8>, Seq<u8>>::empty()),
{
    assert(spec_recover(Seq::<u8>::empty())->0 =~= Map::<Seq<u8>, Seq<u8>>::empty());
}

/// Closing a store and reopening it over the same file bytes yields the same
/// model: the directory round-trips through the log.
pub proof fn lemma_reopen_round_trip(s: MiniBitcask)
    requires
        s.wf(),
    ensures
        spec_recover(s.file_bytes()) == Some(s@),
{
    assert(spec_recover(s.file_bytes())->0 =~= s@);
}

/// Two well-formed stores with the same contents have the same live entries,
/// so merging either writes the identical compacted file: what a merge
/// produces is determined by the model alone. With `merge`'s own contract,
/// a merge leaves every read unchanged and a second merge immediately after
/// rewrites the file byte for byte.
pub proof fn lemma_merge_determined(a: MiniBitcask, b: MiniBitcask)
    requires
        a.wf(),
        b.wf(),
        a@ == b@,
    ensures
        a.live_entries() == b.live_entries(),
        spec_compact(a.live_entries()) == spec_compact(b.live_entries()),
{
    a.keydir.lemma_view();
    b.keydir.lemma_view();
    let ka = a.keydir.key_seq();
    let kb = b.keydir.key_seq();
    assert(crate::lex::strictly_sorted_keys(ka)) by {
        assert(forall|i: int| 0 <= i < ka.len() ==> ka[i] == a.keydir.slots@[i].key@);
    }
    assert(crate::lex::strictly_sorted_keys(kb)) by {
        assert(forall|i: int| 0 <= i < kb.len() ==> kb[i] == b.keydir.slots@[i].key@);
    }
    assert forall|k: Seq<u8>| ka.contains(k) <==> kb.contains(k) by {
        if ka.contains(k) {
            let i = choose|i: int| 0 <= i < ka.len() && ka[i] == k;
            assert(a.keydir.slots@[i].key@ == k);
            assert(a.keydir@.dom().contains(k));
            assert(b@.dom().contains(k));
            assert(b.keydir@.dom().contains(k));
            let j = choose|j: int| 0 <= j < b.keydir.slots@.len() && b.keydir.slots@[j].key@ == k;
            assert(kb[j] == k);
            assert(kb.contains(k));
        }
        if kb.contains(k) {
            let j = choose|j: int| 0 <= j < kb.len() && kb[j] == k;
            assert(b.keydir.slots@[j].key@ == k);
            assert(b.keydir@.dom().contains(k));
            assert(a@.dom().contains(k));
            assert(a.keydir@.dom().contains(k));
            let i = choose|i: int| 0 <= i < a.keydir.slots@.len() && a.keydir.slots@[i].key@ == k;
            assert(ka[i] == k);
            assert(ka.contains(k));
        }
    }
    crate::lex::lemma_sorted_keys_unique(ka, kb);
    assert(a.live_entries() =~= b.live_entries()) by {
        assert forall|i: int| 0 <= i < a.live_entries().len() implies a.live_entries()[i]
            == b.live_entries()[i] by {
            let k = a.keydir.slots@[i].key@;
            assert(ka[i] == k && kb[i] == k);
            assert(b.keydir.slots@[i].key@ == k);
            assert(a.live_entries()[i].1 == a@[k]);
            assert(b.live_entries()[i].1 == b@[k]);
        }
    }
}

/// A borrowing cursor over one contiguous run of the directory: keys ascend
/// from the front, descend from the back, and each step reads the key's
/// current value out of the log.
pub struct ScanIterator<'a> {
    store: &'a MiniBitcask,
    lo: usize,
    hi: usize,
}

impl<'a> ScanIterator<'a> {
    /// The window still lies inside the directory of a well-formed store.
    pub closed spec fn valid(self) -> bool {
        &&& self.store.wf()
        &&& self.lo <= self.hi <= self.store.keydir.slots@.len()
    }

    /// The key-value pairs not yet yielded, in ascending key order.
    pub closed spec fn remaining(self) -> Seq<(Seq<u8>, Seq<u8>)> {
        Seq::new(
            (self.hi - self.lo) as nat,
            |i: int|
                (
                    self.store.keydir.slots@[self.lo + i].key@,
                    self.store.log@.subrange(
                        self.store.keydir.slots@[self.lo + i].value_pos as int,
                        self.store.keydir.slots@[self.lo + i].value_pos as int
                            + self.store.keydir.slots@[self.lo + i].value_len as int,
                    ),
                ),
        )
    }

    /// Yields the first not-yet-yielded pair, lowest key first.
    pub fn next(&mut self) -> (r: Option<(Vec<u8>, Vec<u8>)>)
        requires
            old(self).valid(),
        ensures
            final(self).valid(),
            old(self).remaining().len() == 0 ==> r is None && final(self).remaining()
                == old(self).remaining(),
            old(self).remaining().len() > 0 ==> r is Some && (r->0).0@ == old(self).remaining()[0].0
                && (r->0).1@ == old(self).remaining()[0].1 && final(self).remaining() == old(
                self).remaining().drop_first(),
    {
        if self.lo >= self.hi {
            return None;
        }
        proof {
            self.store.keydir.lemma_view();
        }
        let slot = &self.store.keydir.slots[self.lo];
        let key = crate::record::clone_bytes(&slot.key);
        let value = self.store.log.read_value(slot.value_pos, slot.value_len);
        self.lo = self.lo + 1;
        proof {
            assert(final(self).remaining() =~= old(self).remaining().drop_first());
        }
        Some((key, value))
    }

    /// Yields the last not-yet-yielded pair, highest key first.
    pub fn next_back(&mut self) -> (r: Option<(Vec<u8>, Vec<u8>)>)
        requires
            old(self).valid(),
        ensures
            final(self).valid(),
            old(self).remaining().len() == 0 ==> r is None && final(self).remaining()
                == old(self).remaining(),
            old(self).remaining().len() > 0 ==> r is Some && (r->0).0@ == old(
                self).remaining().last().0 && (r->0).1@ == old(self).remaining().last().1 && final(
                self).remaining() == old(self).remaining().drop_last(),
    {
        if self.lo >= self.hi {
            return None;
        }
        proof {
            self.store.keydir.lemma_view();
        }
        let slot = &self.store.keydir.slots[self.hi - 1];
        let key = crate::record::clone_bytes(&slot.key);
        let value = self.store.log.read_value(slot.value_pos, slot.value_len);
        self.hi = self.hi - 1;
        proof {
            assert(final(self).remaining() =~= old(self).remaining().drop_last());
        }
        Some((key, value))
    }
}

} // verus!
