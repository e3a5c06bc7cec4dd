//! The log: the append-only byte image of the data file. Records are only
//! ever appended; replaying them from the front rebuilds the key directory,
//! which is how a store recovers its index on open.

use vstd::prelude::*;

use crate::keydir::KeyDir;
use crate::record::{
    encode_record, lemma_be32_round_trip, lemma_len_field_sign, lemma_record_len, opt_view,
    read_be32, spec_be32, spec_record, spec_record_len, MAX_KEY_LEN, MAX_VALUE_LEN,
};

verus! {

/// Why recovery can fail: the file ends inside a record, typically after a
/// crash mid-append.
#[derive(Clone, Copy, Debug, PartialEq, Eq, Structural)]
pub enum LogError {
    Truncated,
}

/// Replays the records of `data` from `pos` onto the directory `dir`:
/// a non-tombstone binds its key to the position and length of its value
/// bytes, a tombstone removes its key. `None` when the bytes from `pos` on
/// are not a whole number of records.
pub open spec fn spec_replay_from(data: Seq<u8>, pos: nat, dir: Map<Seq<u8>, (nat, nat)>) -> Option<
    Map<Seq<u8>, (nat, nat)>,
>
    decreases data.len() - pos,
{
    if pos >= data.len() {
        if pos == data.len() {
            Some(dir)
        } else {
            None
        }
    } else if pos + 8 > data.len() {
        None
    } else {
        let key_len = spec_be32(data.subrange(pos as int, pos as int + 4));
        let key_end = pos + 8 + key_len;
        if data[pos as int + 4] >= 128 {
            if key_end > data.len() {
                None
            } else {
                spec_replay_from(
                    data,
                    key_end,
                    dir.remove(data.subrange(pos as int + 8, key_end as int)),
                )
            }
        } else {
            let value_len = spec_be32(data.subrange(pos as int + 4, pos as int + 8));
            if key_end + value_len > data.len() {
                None
            } else {
                spec_replay_from(
                    data,
                    key_end + value_len,
                    dir.insert(data.subrange(pos as int + 8, key_end as int), (key_end, value_len)),
                )
            }
        }
    }
}

/// The directory that replaying the whole log yields, when the log is a
/// valid concatenation of records.
pub open spec fn spec_replay(data: Seq<u8>) -> Option<Map<Seq<u8>, (nat, nat)>> {
    spec_replay_from(data, 0, Map::empty())
}

/// Every location a replayed directory holds lies inside the log, its key
/// fits the key-length field and its length fits the value-length field.
pub open spec fn locs_bounded(dir: Map<Seq<u8>, (nat, nat)>, n: nat) -> bool {
    forall|k: Seq<u8>| #[trigger]
        dir.dom().contains(k) ==> dir[k].0 + dir[k].1 <= n && k.len() <= MAX_KEY_LEN && dir[k].1
            <= MAX_VALUE_LEN
}

pub proof fn lemma_replay_bounded(data: Seq<u8>, pos: nat, dir: Map<Seq<u8>, (nat, nat)>)
    requires
        pos <= data.len(),
        locs_bounded(dir, data.len()),
        spec_replay_from(data, pos, dir) is Some,
    ensures
        locs_bounded(spec_replay_from(data, pos, dir)->0, data.len()),
    decreases data.len() - pos,
{
    if pos == data.len() {
    } else {
        let key_len = spec_be32(data.subrange(pos as int, pos as int + 4));
        let key_end = pos + 8 + key_len;
        let key = data.subrange(pos as int + 8, key_end as int);
        if data[pos as int + 4] >= 128 {
            lemma_replay_bounded(data, key_end, dir.remove(key));
        } else {
            let value_len = spec_be32(data.subrange(pos as int + 4, pos as int + 8));
            assert(value_len <= MAX_VALUE_LEN) by {
                let f = data.subrange(pos as int + 4, pos as int + 8);
                assert(f[0] < 128);
            }
            lemma_replay_bounded(data, key_end + value_len, dir.insert(key, (key_end, value_len)));
        }
    }
}

/// Replaying a log extended by `ext` first reproduces, at the old end, what
/// replaying the unextended log gave.
proof fn lemma_replay_extend(data: Seq<u8>, ext: Seq<u8>, pos: nat, dir: Map<Seq<u8>, (nat, nat)>)
    requires
        pos <= data.len(),
        spec_replay_from(data, pos, dir) is Some,
    ensures
        spec_replay_from(data + ext, pos, dir) == spec_replay_from(
            data + ext,
            data.len(),
            spec_replay_from(data, pos, dir)->0,
        ),
    decreases data.len() - pos,
{
    let w = data + ext;
    if pos == data.len() {
    } else {
        assert(data.subrange(pos as int, pos as int + 4) =~= w.subrange(pos as int, pos as int + 4));
        assert(data.subrange(pos as int + 4, pos as int + 8) =~= w.subrange(
            pos as int + 4,
            pos as int + 8,
        ));
        let key_len = spec_be32(data.subrange(pos as int, pos as int + 4));
        let key_end = pos + 8 + key_len;
        if data[pos as int + 4] >= 128 {
            assert(data.subrange(pos as int + 8, key_end as int) =~= w.subrange(
                pos as int + 8,
                key_end as int,
            ));
            lemma_replay_extend(
                data,
                ext,
                key_end,
                dir.remove(data.subrange(pos as int + 8, key_end as int)),
            );
        } else {
            let value_len = spec_be32(data.subrange(pos as int + 4, pos as int + 8));
            assert(data.subrange(pos as int + 8, key_end as int) =~= w.subrange(
                pos as int + 8,
                key_end as int,
            ));
            lemma_replay_extend(
                data,
                ext,
                key_end + value_len,
                dir.insert(data.subrange(pos as int + 8, key_end as int), (key_end, value_len)),
            );
        }
    }
}

/// Replaying exactly one appended record performs its one insertion or
/// removal on the directory.
proof fn lemma_replay_record(
    data: Seq<u8>,
    key: Seq<u8>,
    value: Option<Seq<u8>>,
    dir: Map<Seq<u8>, (nat, nat)>,
)
    requires
        key.len() <= MAX_KEY_LEN,
        match value {
            Some(v) => v.len() <= MAX_VALUE_LEN,
            None => true,
        },
    ensures
        spec_replay_from(data + spec_record(key, value), data.len(), dir) == Some(
            match value {
                Some(v) => dir.insert(key, ((data.len() + 8 + key.len()) as nat, v.len())),
                None => dir.remove(key),
            },
        ),
{
    let rec = spec_record(key, value);
    let w = data + rec;
    let pos = data.len();
    lemma_record_len(key, value);
    lemma_len_field_sign(value);
    lemma_be32_round_trip(key.len());
    assert(w.subrange(pos as int, pos as int + 4) =~= crate::record::spec_be32_bytes(key.len()));
    assert(w.subrange(pos as int + 4, pos as int + 8) =~= crate::record::spec_len_field(value));
    let key_len = spec_be32(w.subrange(pos as int, pos as int + 4));
    assert(key_len == key.len());
    let key_end = pos + 8 + key_len;
    assert(w.subrange(pos as int + 8, key_end as int) =~= key);
    match value {
        Some(v) => {
            assert(w[pos as int + 4] < 128);
            let value_len = spec_be32(w.subrange(pos as int + 4, pos as int + 8));
            assert(value_len == v.len());
            assert(key_end + value_len == w.len());
            let dir2 = dir.insert(key, (key_end, value_len));
            assert(spec_replay_from(w, key_end + value_len, dir2) == Some(dir2));
            assert(spec_replay_from(w, pos, dir) == Some(dir2));
        },
        None => {
            assert(w[pos as int + 4] >= 128);
            assert(key_end == w.len());
            assert(spec_replay_from(w, key_end, dir.remove(key)) == Some(dir.remove(key)));
            assert(spec_replay_from(w, pos, dir) == Some(dir.remove(key)));
        },
    }
}

/// Appending one record to a valid log performs its one insertion or removal
/// on the replayed directory.
pub proof fn lemma_replay_append(data: Seq<u8>, key: Seq<u8>, value: Option<Seq<u8>>)
    requires
        spec_replay(data) is Some,
        key.len() <= MAX_KEY_LEN,
        match value {
            Some(v) => v.len() <= MAX_VALUE_LEN,
            None => true,
        },
    ensures
        spec_replay(data + spec_record(key, value)) == Some(
            match value {
                Some(v) => (spec_replay(data)->0).insert(
                    key,
                    ((data.len() + 8 + key.len()) as nat, v.len()),
                ),
                None => (spec_replay(data)->0).remove(key),
            },
        ),
{
    lemma_replay_extend(data, spec_record(key, value), 0, Map::empty());
    lemma_replay_record(data, key, value, spec_replay(data)->0);
}

/// The byte image of the data file, only ever appended to.
pub struct Log {
    pub data: Vec<u8>,
}

impl View for Log {
    type V = Seq<u8>;

    open spec fn view(&self) -> Seq<u8> {
        self.data@
    }
}

impl Log {
    /// A log over the given file bytes, as handed in by whoever read or will
    /// hold the file.
    pub fn from_bytes(data: Vec<u8>) -> (r: Self)
        ensures
            r@ == data@,
    {
        Log { data }
    }

    /// The file size in bytes.
    pub fn len(&self) -> (n: usize)
        ensures
            n == self@.len(),
    {
        self.data.len()
    }

    /// Appends one record for `key`: a write of the value when one is given,
    /// a tombstone otherwise. Returns where the record begins and its length.
    pub fn write_entry(&mut self, key: &Vec<u8>, value: Option<&Vec<u8>>) -> (r: (usize, usize))
        requires
            key@.len() <= MAX_KEY_LEN,
            match value {
                Some(v) => v@.len() <= MAX_VALUE_LEN,
                None => true,
            },
            old(self)@.len() + spec_record_len(key@, opt_view(value)) <= usize::MAX,
        ensures
            final(self)@ == old(self)@ + spec_record(key@, opt_view(value)),
            r.0 == old(self)@.len(),
            r.1 == spec_record_len(key@, opt_view(value)),
    {
        let rec = encode_record(key, value);
        proof {
            lemma_record_len(key@, opt_view(value));
        }
        let offset = self.data.len();
        let len = rec.len();
        crate::record::append_bytes(&mut self.data, &rec);
        (offset, len)
    }

    /// Reads the `value_len` bytes at `value_pos`.
    pub fn read_value(&self, value_pos: usize, value_len: usize) -> (r: Vec<u8>)
        requires
            value_pos + value_len <= self@.len(),
        ensures
            r@ == self@.subrange(value_pos as int, value_pos as int + value_len as int),
    {
        let mut r: Vec<u8> = Vec::new();
        let mut i: usize = 0;
        while i < value_len
            invariant
                i <= value_len,
                value_pos + value_len <= self@.len(),
                r@ =~= self@.subrange(value_pos as int, value_pos as int + i as int),
            decreases value_len - i,
        {
            proof {
                assert(self@.len() <= usize::MAX) by {
                    assert(self.data@.len() == self.data.len());
                }
            }
            r.push(self.data[value_pos + i]);
            i = i + 1;
        }
        r
    }

    /// Replays the whole log to rebuild the key directory, as a store does on
    /// open. Fails when the file ends inside a record.
    pub fn load_index(&self) -> (r: Result<KeyDir, LogError>)
        ensures
            match r {
                Ok(kd) => kd.wf() && spec_replay(self@) == Some(kd@),
                Err(_) => spec_replay(self@) is None,
            },
    {
        let mut kd = KeyDir::new();
        let mut pos: usize = 0;
        let n = self.data.len();
        while pos < n
            invariant
                pos <= n,
                n == self@.len(),
                kd.wf(),
                spec_replay(self@) == spec_replay_from(self@, pos as nat, kd@),
            decreases n - pos,
        {
            if n - pos < 8 {
                return Err(LogError::Truncated);
            }
            let key_len_word = read_be32(&self.data, pos);
            let len_first = self.data[pos + 4];
            let key_len = key_len_word as usize;
            let rest = n - pos - 8;
            if key_len > rest {
                return Err(LogError::Truncated);
            }
            let key_end = pos + 8 + key_len;
            let key = self.read_value(pos + 8, key_len);
            if len_first >= 128 {
                kd.remove(&key);
                pos = key_end;
            } else {
                let value_len_word = read_be32(&self.data, pos + 4);
                let value_len = value_len_word as usize;
                if value_len > rest - key_len {
                    return Err(LogError::Truncated);
                }
                kd.insert(&key, key_end, value_len);
                pos = key_end + value_len;
            }
        }
        Ok(kd)
    }
}

} // verus!
