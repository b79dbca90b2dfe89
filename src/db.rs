//! The store: the log's bytes, and an index from each key to the offset of
//! its latest record.
use vstd::prelude::*;
use vstd::hash_map::StringHashMap;
use vstd::slice::slice_subrange;
use crate::record::{
    decode_line, encode_record, find_line_end, is_blank, lemma_line_end_bounds, line_at, line_end,
    read_line, record_at, record_bytes, Line, NEWLINE,
};

verus! {

/// Why an operation on the store failed.
#[derive(Debug, PartialEq, Eq, Structural)]
pub enum DbError {
    /// The key is not in the index.
    NotFound,
    /// A record could not be read or written as JSON.
    DataCorruption,
}

/// The index that replaying the log from `pos` on gives, starting from `acc`:
/// each record sets its key to its own offset, blank lines are skipped, and a
/// line that is neither fails the whole replay.
pub open spec fn replay_from(log: Seq<u8>, pos: int, acc: Map<Seq<char>, int>) -> Option<
    Map<Seq<char>, int>,
>
    decreases log.len() - pos,
    via replay_from_decreases
{
    if pos < 0 || pos >= log.len() {
        Some(acc)
    } else {
        let line = line_at(log, pos);
        let e = line_end(log, pos);
        let next = if e < log.len() { e + 1 } else { e };
        if is_blank(line) {
            replay_from(log, next, acc)
        } else {
            match decode_line(line) {
                Some(kv) => replay_from(log, next, acc.insert(kv.0, pos)),
                None => None,
            }
        }
    }
}

#[via_fn]
proof fn replay_from_decreases(log: Seq<u8>, pos: int, acc: Map<Seq<char>, int>) {
    if 0 <= pos < log.len() {
        lemma_line_end_bounds(log, pos);
    }
}

/// The index that replaying the whole log gives.
pub open spec fn replay(log: Seq<u8>) -> Option<Map<Seq<char>, int>> {
    replay_from(log, 0, Map::empty())
}

/// `index` holds the same keys as `m`, each at the same offset.
pub open spec fn same_offsets(index: Map<Seq<char>, u64>, m: Map<Seq<char>, int>) -> bool {
    &&& index.dom() == m.dom()
    &&& forall|k: Seq<char>| #[trigger] index.contains_key(k) ==> index[k] as int == m[k]
}

/// The value of each key in `index` whose offset holds a record: that
/// record's value.
pub open spec fn stored_values(log: Seq<u8>, index: Map<Seq<char>, u64>) -> Map<Seq<char>, Seq<char>> {
    Map::new(
        |k: Seq<char>| index.contains_key(k) && record_at(log, index[k] as int) is Some,
        |k: Seq<char>| (record_at(log, index[k] as int)->0).1,
    )
}

/// The log ends where a line ends: it is empty, or its last byte is a newline.
pub open spec fn ends_on_line(log: Seq<u8>) -> bool {
    log.len() == 0 || log.last() == NEWLINE
}

/// Rebuilds the index by replaying `log` from its start.
fn load_index(log: &[u8]) -> (r: Option<StringHashMap<u64>>)
    ensures
        match replay(log@) {
            Some(m) => r matches Some(ix) && same_offsets(ix@, m),
            None => r is None,
        },
{
    let mut index: StringHashMap<u64> = StringHashMap::new();
    let ghost mut acc: Map<Seq<char>, int> = Map::empty();
    let mut pos: usize = 0;
    while pos < log.len()
        invariant
            pos <= log@.len(),
            same_offsets(index@, acc),
            replay(log@) == replay_from(log@, pos as int, acc),
        decreases log@.len() - pos,
    {
        let e = find_line_end(log, pos);
        proof {
            lemma_line_end_bounds(log@, pos as int);
        }
        let line = slice_subrange(log, pos, e);
        match read_line(line) {
            Line::Blank => {},
            Line::Record(p) => {
                proof {
                    acc = acc.insert(p.key@, pos as int);
                }
                index.insert(p.key, pos as u64);
            },
            Line::Malformed => {
                return None;
            },
        }
        if e < log.len() {
            pos = e + 1;
        } else {
            pos = e;
        }
    }
    Some(index)
}


/// Where a newline stands at or after `pos`, the line through `pos` ends no later.
proof fn lemma_line_end_at_most(log: Seq<u8>, pos: int, j: int)
    requires
        0 <= pos <= j < log.len(),
        log[j] == NEWLINE,
    ensures
        line_end(log, pos) <= j,
    decreases j - pos,
{
    if log[pos] != NEWLINE {
        lemma_line_end_at_most(log, pos + 1, j);
    }
}

/// The line through `pos` that starts at `pos` and ends before `e`, where a
/// newline stands at `e` and none between.
proof fn lemma_line_end_is(log: Seq<u8>, pos: int, e: int)
    requires
        0 <= pos <= e < log.len(),
        log[e] == NEWLINE,
        forall|i: int| pos <= i < e ==> log[i] != NEWLINE,
    ensures
        line_end(log, pos) == e,
{
    lemma_line_end_at_most(log, pos, e);
    lemma_line_end_bounds(log, pos);
}

/// Bytes appended after a log that ends on a line leave each of its lines
/// as it was.
proof fn lemma_line_at_append(log: Seq<u8>, s: Seq<u8>, pos: int)
    requires
        ends_on_line(log),
        0 <= pos < log.len(),
    ensures
        line_end(log + s, pos) == line_end(log, pos),
        line_at(log + s, pos) == line_at(log, pos),
{
    let t = log + s;
    let e = line_end(log, pos);
    lemma_line_end_bounds(log, pos);
    lemma_line_end_at_most(log, pos, log.len() - 1);
    assert forall|i: int| pos <= i < e implies t[i] != NEWLINE by {
        assert(t[i] == log[i]);
    }
    lemma_line_end_is(t, pos, e);
    assert(line_at(t, pos) =~= line_at(log, pos));
}

/// Bytes appended after a log that ends on a line leave its replay as it
/// was, and go on from the index it gave.
proof fn lemma_replay_append(log: Seq<u8>, s: Seq<u8>, pos: int, acc: Map<Seq<char>, int>)
    requires
        ends_on_line(log),
        0 <= pos <= log.len(),
    ensures
        replay_from(log + s, pos, acc) == match replay_from(log, pos, acc) {
            Some(m) => replay_from(log + s, log.len() as int, m),
            None => None,
        },
    decreases log.len() - pos,
{
    if pos < log.len() {
        let e = line_end(log, pos);
        lemma_line_end_bounds(log, pos);
        lemma_line_end_at_most(log, pos, log.len() - 1);
        lemma_line_at_append(log, s, pos);
        let line = line_at(log, pos);
        if is_blank(line) {
            lemma_replay_append(log, s, e + 1, acc);
        } else if let Some(kv) = decode_line(line) {
            lemma_replay_append(log, s, e + 1, acc.insert(kv.0, pos));
        }
    }
}

/// Replaying a log that ends on a line, with one more record appended,
/// gives the earlier index with the record's key set to its offset.
proof fn lemma_replay_one_more(log: Seq<u8>, rec: Seq<u8>, key: Seq<char>, value: Seq<char>)
    requires
        ends_on_line(log),
        decode_line(rec) == Some((key, value)),
        !is_blank(rec),
        forall|i: int| 0 <= i < rec.len() ==> rec[i] != NEWLINE,
    ensures
        replay(log + rec.push(NEWLINE)) == match replay(log) {
            Some(m) => Some(m.insert(key, log.len() as int)),
            None => None,
        },
{
    let s = rec.push(NEWLINE);
    let t = log + s;
    lemma_replay_append(log, s, 0, Map::empty());
    let p = log.len() as int;
    let e = p + rec.len();
    assert forall|i: int| p <= i < e implies t[i] != NEWLINE by {
        assert(t[i] == rec[i - p]);
    }
    lemma_line_end_is(t, p, e);
    assert(line_at(t, p) =~= rec);
    if let Some(m) = replay(log) {
        assert(replay_from(t, e + 1, m.insert(key, p)) == Some(m.insert(key, p)));
    }
}

/// Each offset in `m` starts a line of `log` whose record holds that key.
pub open spec fn offsets_valid(log: Seq<u8>, m: Map<Seq<char>, int>) -> bool {
    forall|k: Seq<char>| #[trigger]
        m.contains_key(k) ==> {
            &&& 0 <= m[k] < log.len()
            &&& record_at(log, m[k]) matches Some(kv) && kv.0 == k
        }
}

/// Replay only sets a key to the offset of a record of that key.
proof fn lemma_replay_offsets(log: Seq<u8>, pos: int, acc: Map<Seq<char>, int>)
    requires
        0 <= pos,
        offsets_valid(log, acc),
    ensures
        replay_from(log, pos, acc) matches Some(m) ==> offsets_valid(log, m),
    decreases log.len() - pos,
{
    if pos < log.len() {
        lemma_line_end_bounds(log, pos);
        let e = line_end(log, pos);
        let next = if e < log.len() { e + 1 } else { e };
        let line = line_at(log, pos);
        if is_blank(line) {
            lemma_replay_offsets(log, next, acc);
        } else if let Some(kv) = decode_line(line) {
            let acc2 = acc.insert(kv.0, pos);
            assert forall|k: Seq<char>| #[trigger] acc2.contains_key(k) implies {
                &&& 0 <= acc2[k] < log.len()
                &&& record_at(log, acc2[k]) matches Some(kv2) && kv2.0 == k
            } by {
                if k != kv.0 {
                    assert(acc.contains_key(k));
                }
            }
            lemma_replay_offsets(log, next, acc2);
        }
    }
}

/// What a `set` of `key` to `value` that succeeded did, from `before` to
/// `after`: it appended the record's line at offset `off`, the end of the log
/// before, and set `key` in the index to that offset.
pub open spec fn set_outcome(
    before: SimpleDB,
    after: SimpleDB,
    key: Seq<char>,
    value: Seq<char>,
    off: u64,
) -> bool {
    &&& off == before.log_view().len()
    &&& after.log_view() == before.log_view() + record_bytes(key, value).push(NEWLINE)
    &&& after.index_view() == before.index_view().insert(key, off)
    &&& record_at(after.log_view(), off as int) == Some((key, value))
}

/// What a `delete` of `key` that succeeded did, from `before` to `after`.
pub open spec fn delete_outcome(before: SimpleDB, after: SimpleDB, key: Seq<char>) -> bool {
    &&& after.log_view() == before.log_view()
    &&& after.index_view() == before.index_view().remove(key)
}

/// The store: the bytes of its log, as they stand in its file, and the index
/// from each key to the offset of its latest record there.
pub struct SimpleDB {
    data: StringHashMap<u64>,
    log: Vec<u8>,
    path: String,
    replays: Ghost<bool>,
}

impl View for SimpleDB {
    type V = Map<Seq<char>, Seq<char>>;

    /// Each key in the index, with the value of its latest record.
    open spec fn view(&self) -> Map<Seq<char>, Seq<char>> {
        stored_values(self.log_view(), self.index_view())
    }
}

impl SimpleDB {
    /// The bytes of the log.
    pub closed spec fn log_view(&self) -> Seq<u8> {
        self.log@
    }

    /// The path of the log's file.
    pub closed spec fn path_view(&self) -> Seq<char> {
        self.path@
    }

    /// The index: each key, with the offset of its latest record.
    pub closed spec fn index_view(&self) -> Map<Seq<char>, u64> {
        self.data@
    }

    /// Whether the log ended on a line when the store was opened: appending
    /// then keeps each record on a line of its own, so the log replays.
    pub closed spec fn replays(&self) -> bool {
        self.replays@
    }

    /// Each offset in the index lies inside the log. Where the log replays,
    /// each starts a line whose record holds that key, and replaying the log
    /// sets each key of the index to the same offset.
    pub closed spec fn wf(&self) -> bool {
        &&& forall|k: Seq<char>| #[trigger]
            self.data@.contains_key(k) ==> (self.data@[k] as int) < self.log@.len()
        &&& self.replays@ ==> {
            &&& ends_on_line(self.log@)
            &&& forall|k: Seq<char>| #[trigger]
                self.data@.contains_key(k) ==> (record_at(self.log@, self.data@[k] as int) matches Some(
                    kv,
                ) && kv.0 == k)
            &&& replay(self.log@) matches Some(m) && forall|k: Seq<char>| #[trigger]
                self.data@.contains_key(k) ==> m.contains_key(k) && m[k] == self.data@[k] as int
        }
    }

    /// The path of the log's file.
    pub fn path(&self) -> (r: &str)
        ensures
            r@ == self.path_view(),
    {
        self.path.as_str()
    }

    /// The offset of the latest record of `key`, where the index holds it.
    pub fn offset_of(&self, key: &str) -> (r: Option<u64>)
        ensures
            r == (if self.index_view().contains_key(key@) {
                Some(self.index_view()[key@])
            } else {
                None
            }),
    {
        match self.data.get(key) {
            Some(off) => Some(*off),
            None => None,
        }
    }

    /// The bytes of the log.
    pub fn log(&self) -> (r: &[u8])
        ensures
            r@ == self.log_view(),
    {
        self.log.as_slice()
    }

    /// Opens the store whose file at `path` holds `log`, rebuilding the index
    /// by replaying every record: the latest record of each key wins. A line
    /// that is neither blank nor a record fails with `DataCorruption`.
    pub fn open(path: &str, log: Vec<u8>) -> (r: Result<SimpleDB, DbError>)
        ensures
            match replay(log@) {
                Some(m) => r matches Ok(db) && {
                    &&& db.wf()
                    &&& db.log_view() == log@
                    &&& same_offsets(db.index_view(), m)
                    &&& db.replays() == ends_on_line(log@)
                    &&& db.path_view() == path@
                },
                None => r == Err::<SimpleDB, DbError>(DbError::DataCorruption),
            },
    {
        match load_index(log.as_slice()) {
            None => Err(DbError::DataCorruption),
            Some(data) => {
                proof {
                    lemma_replay_offsets(log@, 0, Map::empty());
                }
                Ok(SimpleDB { data, log, path: path.to_string(), replays: Ghost(ends_on_line(log@)) })
            },
        }
    }

    /// Appends the record of `key` and `value` to the log and sets `key` in
    /// the index to the offset where it begins, which it returns. It always
    /// succeeds; the `Result` is kept for callers that also append to a file.
    pub fn set(&mut self, key: String, value: String) -> (r: Result<u64, DbError>)
        requires
            old(self).wf(),
        ensures
            final(self).wf(),
            final(self).replays() == old(self).replays(),
            final(self).path_view() == old(self).path_view(),
            r is Ok,
            match r {
                Ok(off) => {
                    &&& set_outcome(*old(self), *final(self), key@, value@, off)
                    &&& final(self)@.contains_key(key@) && final(self)@[key@] == value@
                    &&& old(self).replays() ==> final(self)@ == old(self)@.insert(key@, value@)
                },
                Err(e) => {
                    &&& e == DbError::DataCorruption
                    &&& final(self).log_view() == old(self).log_view()
                    &&& final(self).index_view() == old(self).index_view()
                },
            },
    {
        match encode_record(key.as_str(), value.as_str()) {
            None => Err(DbError::DataCorruption),
            Some(mut rec) => {
                let off = self.log.len() as u64;
                let ghost old_log = self.log@;
                let ghost old_data = self.data@;
                let ghost rec_v = rec@;
                let ghost s = rec@.push(NEWLINE);
                proof {
                    if self.replays@ {
                        lemma_replay_one_more(old_log, rec_v, key@, value@);
                    }
                }
                self.log.append(&mut rec);
                self.log.push(NEWLINE);
                self.data.insert(key, off);
                proof {
                    let t = self.log@;
                    assert(t =~= old_log + s);
                    let p = old_log.len() as int;
                    let e = p + rec_v.len();
                    assert forall|i: int| p <= i < e implies t[i] != NEWLINE by {
                        assert(t[i] == rec_v[i - p]);
                    }
                    lemma_line_end_is(t, p, e);
                    assert(line_at(t, p) =~= rec_v);
                    if self.replays@ {
                        assert forall|k: Seq<char>| #[trigger]
                            old_data.contains_key(k) implies record_at(t, old_data[k] as int)
                            == record_at(old_log, old_data[k] as int) by {
                            lemma_line_at_append(old_log, s, old_data[k] as int);
                        }
                        assert(t.last() == NEWLINE);
                        assert(self@ =~= stored_values(old_log, old_data).insert(key@, value@));
                    }
                }
                Ok(off)
            },
        }
    }

    /// The value of the latest record of `key`, read from the log at the
    /// offset the index holds. Fails with `NotFound` where the index holds no
    /// such key, and with `DataCorruption` where the line there is no record.
    pub fn get(&self, key: &str) -> (r: Result<String, DbError>)
        requires
            self.wf(),
        ensures
            !self.index_view().contains_key(key@) ==> r == Err::<String, DbError>(DbError::NotFound),
            self.index_view().contains_key(key@) ==> match record_at(
                self.log_view(),
                self.index_view()[key@] as int,
            ) {
                Some(kv) => r matches Ok(v) && v@ == kv.1,
                None => r == Err::<String, DbError>(DbError::DataCorruption),
            },
            self@.contains_key(key@) ==> (r matches Ok(v) && v@ == self@[key@]),
            self.replays() ==> (r is Ok <==> self@.contains_key(key@)),
    {
        match self.data.get(key) {
            None => Err(DbError::NotFound),
            Some(off) => {
                assert(self.data@.contains_key(key@));
                let n = self.log.len();
                assert(*off == self.data@[key@]);
                assert((*off as int) < n);
                let pos = *off as usize;
                let log = self.log.as_slice();
                let e = find_line_end(log, pos);
                proof {
                    lemma_line_end_bounds(log@, pos as int);
                }
                let line = slice_subrange(log, pos, e);
                match read_line(line) {
                    Line::Record(p) => Ok(p.value),
                    _ => Err(DbError::DataCorruption),
                }
            },
        }
    }

    /// Removes `key` from the index, leaving its records in the log. Fails
    /// with `NotFound`, and changes nothing, where the index holds no such key.
    pub fn delete(&mut self, key: &str) -> (r: Result<(), DbError>)
        requires
            old(self).wf(),
        ensures
            final(self).wf(),
            final(self).replays() == old(self).replays(),
            final(self).path_view() == old(self).path_view(),
            delete_outcome(*old(self), *final(self), key@),
            final(self)@ == old(self)@.remove(key@),
            old(self).index_view().contains_key(key@) ==> r == Ok::<(), DbError>(()),
            !old(self).index_view().contains_key(key@) ==> r == Err::<(), DbError>(
                DbError::NotFound,
            ),
    {
        if self.data.contains_key(key) {
            self.data.remove(key);
            proof {
                assert(self@ =~= old(self)@.remove(key@));
            }
            Ok(())
        } else {
            proof {
                assert(self.data@ =~= self.data@.remove(key@));
                assert(self@ =~= self@.remove(key@));
            }
            Err(DbError::NotFound)
        }
    }
}


/// Once `set(key, value)` has succeeded, the store maps `key` to `value`,
/// which `get(key)` then returns.
pub proof fn law_get_after_set(
    before: SimpleDB,
    after: SimpleDB,
    key: Seq<char>,
    value: Seq<char>,
    off: u64,
)
    requires
        set_outcome(before, after, key, value, off),
    ensures
        after.index_view().contains_key(key),
        after@.contains_key(key),
        after@[key] == value,
{
}

/// Last write wins: after `set(key, v1)` and then `set(key, v2)`, the store
/// maps `key` to `v2`.
pub proof fn law_last_write_wins(
    s0: SimpleDB,
    s1: SimpleDB,
    s2: SimpleDB,
    key: Seq<char>,
    v1: Seq<char>,
    v2: Seq<char>,
    o1: u64,
    o2: u64,
)
    requires
        set_outcome(s0, s1, key, v1, o1),
        set_outcome(s1, s2, key, v2, o2),
    ensures
        s2@.contains_key(key),
        s2@[key] == v2,
{
    law_get_after_set(s1, s2, key, v2, o2);
}

/// After `delete(key)`, the index no longer holds `key`, so `get(key)` and
/// `delete(key)` fail with `NotFound`; a later `set(key, v)` makes the store
/// map `key` to `v` again.
pub proof fn law_delete_then_set(
    s0: SimpleDB,
    s1: SimpleDB,
    s2: SimpleDB,
    key: Seq<char>,
    value: Seq<char>,
    off: u64,
)
    requires
        delete_outcome(s0, s1, key),
        set_outcome(s1, s2, key, value, off),
    ensures
        !s1.index_view().contains_key(key),
        !s1@.contains_key(key),
        s2@.contains_key(key),
        s2@[key] == value,
{
    law_get_after_set(s1, s2, key, value, off);
}

/// Every offset in the index of a store lies inside its log.
pub proof fn law_offsets_in_log(db: SimpleDB)
    requires
        db.wf(),
    ensures
        forall|k: Seq<char>| #[trigger]
            db.index_view().contains_key(k) ==> (db.index_view()[k] as int) < db.log_view().len(),
{
}

/// The log of a store that replays does replay: replaying it succeeds and
/// sets each key of the index to the offset the index holds, where a record
/// of that key starts.
pub proof fn law_replays(db: SimpleDB)
    requires
        db.wf(),
        db.replays(),
    ensures
        ends_on_line(db.log_view()),
        replay(db.log_view()) matches Some(m) && forall|k: Seq<char>| #[trigger]
            db.index_view().contains_key(k) ==> m.contains_key(k) && m[k]
                == db.index_view()[k] as int,
        forall|k: Seq<char>| #[trigger]
            db.index_view().contains_key(k) ==> (record_at(
                db.log_view(),
                db.index_view()[k] as int,
            ) matches Some(kv) && kv.0 == k),
{
}

/// Reopening a store that replays from its log gives every key that the
/// store holds, with the same value. Where every key with a record in the
/// log is still in the index (none was deleted and left unset since), the
/// reopened store holds exactly what the store held.
pub proof fn law_reopen(db: SimpleDB, reopened: SimpleDB)
    requires
        db.wf(),
        db.replays(),
        reopened.log_view() == db.log_view(),
        replay(db.log_view()) is Some ==> same_offsets(
            reopened.index_view(),
            replay(db.log_view())->0,
        ),
    ensures
        replay(db.log_view()) is Some,
        forall|k: Seq<char>| #[trigger]
            db@.contains_key(k) ==> reopened@.contains_key(k) && reopened@[k] == db@[k],
        (forall|k: Seq<char>| #[trigger]
            reopened.index_view().contains_key(k) ==> db.index_view().contains_key(k))
            ==> reopened@ == db@,
{
    let m = replay(db.log_view())->0;
    assert forall|k: Seq<char>| #[trigger]
        db@.contains_key(k) implies reopened@.contains_key(k) && reopened@[k] == db@[k] by {
        assert(db.index_view().contains_key(k));
        assert(m.contains_key(k));
        assert(reopened.index_view().contains_key(k));
    }
    if forall|k: Seq<char>| #[trigger]
        reopened.index_view().contains_key(k) ==> db.index_view().contains_key(k) {
        assert forall|k: Seq<char>| #[trigger] db.index_view().contains_key(k) implies db@.contains_key(
            k,
        ) by {
            assert(m.contains_key(k));
            assert(reopened.index_view().contains_key(k));
        }
        assert(reopened@ =~= db@);
    }
}

/// Replaying from any line start at or before a line that is neither blank
/// nor a record fails.
proof fn lemma_replay_hits_bad_line(log: Seq<u8>, p: int, pos: int, acc: Map<Seq<char>, int>)
    requires
        0 <= p <= pos < log.len(),
        p == 0 || log[p - 1] == NEWLINE,
        pos == 0 || log[pos - 1] == NEWLINE,
        !is_blank(line_at(log, pos)),
        decode_line(line_at(log, pos)) is None,
    ensures
        replay_from(log, p, acc) is None,
    decreases pos - p,
{
    if p < pos {
        lemma_line_end_bounds(log, p);
        lemma_line_end_at_most(log, p, pos - 1);
        let e = line_end(log, p);
        let line = line_at(log, p);
        if is_blank(line) {
            lemma_replay_hits_bad_line(log, e + 1, pos, acc);
        } else if let Some(kv) = decode_line(line) {
            lemma_replay_hits_bad_line(log, e + 1, pos, acc.insert(kv.0, p));
        }
    }
}

/// A line of the log that is neither blank nor a record, wherever it
/// stands, makes replaying the log fail, so `open` fails with
/// `DataCorruption` rather than build part of the index.
pub proof fn law_corrupt_line_fails(log: Seq<u8>, pos: int)
    requires
        0 <= pos < log.len(),
        pos == 0 || log[pos - 1] == NEWLINE,
        !is_blank(line_at(log, pos)),
        decode_line(line_at(log, pos)) is None,
    ensures
        replay(log) is None,
{
    lemma_replay_hits_bad_line(log, 0, pos, Map::empty());
}

} // verus!
