use vstd::prelude::*;
use crate::table::Table;

verus! {

/// A record of the append-only log: a put when it carries a value, a
/// tombstone when it does not.
#[derive(Debug)]
pub struct LogRecord {
    pub key: Vec<u8>,
    pub value: Option<Vec<u8>>,
}

/// The mathematical form of a log record.
pub struct RecordView {
    pub key: Seq<u8>,
    pub value: Option<Seq<u8>>,
}

impl View for LogRecord {
    type V = RecordView;

    open spec fn view(&self) -> RecordView {
        RecordView {
            key: self.key@,
            value: match self.value {
                Some(v) => Some(v@),
                None => None,
            },
        }
    }
}

/// The table after the effect of record `r`: a put stores its value, a
/// tombstone erases the key.
pub open spec fn apply_record(m: Map<Seq<u8>, Seq<u8>>, r: RecordView) -> Map<Seq<u8>, Seq<u8>> {
    match r.value {
        Some(v) => m.insert(r.key, v),
        None => m.remove(r.key),
    }
}

/// The table that a log yields when its records, given newest first, are
/// replayed: each record lies beneath every newer one.
pub open spec fn replayed(s: Seq<RecordView>) -> Map<Seq<u8>, Seq<u8>>
    decreases s.len(),
{
    if s.len() == 0 {
        Map::empty()
    } else {
        apply_record(replayed(s.drop_first()), s[0])
    }
}

/// The table after applying the records of a log in the order in which
/// they were appended, oldest first.
pub open spec fn applied(log: Seq<RecordView>) -> Map<Seq<u8>, Seq<u8>>
    decreases log.len(),
{
    if log.len() == 0 {
        Map::empty()
    } else {
        apply_record(applied(log.drop_last()), log.last())
    }
}

/// The records of `log` from newest to oldest.
pub open spec fn newest_first(log: Seq<RecordView>) -> Seq<RecordView> {
    Seq::new(log.len(), |i: int| log[log.len() - 1 - i])
}

/// True when some record of `s` is about `k`.
pub open spec fn mentions(s: Seq<RecordView>, k: Seq<u8>) -> bool {
    exists|i: int| 0 <= i < s.len() && s[i].key == k
}

proof fn lemma_mentions_cons(s: Seq<RecordView>, k: Seq<u8>)
    requires
        s.len() > 0,
    ensures
        mentions(s, k) == (s[0].key == k || mentions(s.drop_first(), k)),
{
    if mentions(s, k) && s[0].key != k {
        let i = choose|i: int| 0 <= i < s.len() && s[i].key == k;
        assert(s.drop_first()[i - 1].key == k);
    }
    if mentions(s.drop_first(), k) {
        let i = choose|i: int| 0 <= i < s.drop_first().len() && s.drop_first()[i].key == k;
        assert(s[i + 1].key == k);
    }
    if s[0].key == k {
        assert(s[0].key == k);
    }
}

/// Only keys that the log mentions can be in the replayed table.
pub proof fn lemma_replayed_keys(s: Seq<RecordView>, k: Seq<u8>)
    requires
        !mentions(s, k),
    ensures
        !replayed(s).contains_key(k),
    decreases s.len(),
{
    if s.len() > 0 {
        lemma_mentions_cons(s, k);
        lemma_replayed_keys(s.drop_first(), k);
    }
}

/// Appending an older record to a newest-first log changes the replayed
/// table only when its key was not yet mentioned.
pub proof fn lemma_replayed_push(s: Seq<RecordView>, r: RecordView)
    ensures
        replayed(s.push(r)) == (if mentions(s, r.key) {
            replayed(s)
        } else {
            apply_record(replayed(s), r)
        }),
    decreases s.len(),
{
    if s.len() == 0 {
        assert(s.push(r).drop_first() =~= s);
    } else {
        let h = s[0];
        let q = s.drop_first();
        assert(s.push(r).drop_first() =~= q.push(r));
        assert(s.push(r)[0] == h);
        lemma_replayed_push(q, r);
        lemma_mentions_cons(s, r.key);
        let m = replayed(q);
        if mentions(q, r.key) {
        } else if h.key == r.key {
            assert(apply_record(apply_record(m, r), h) =~= apply_record(m, h));
        } else {
            assert(apply_record(apply_record(m, r), h) =~= apply_record(apply_record(m, h), r));
        }
    }
}

/// Replaying the log newest first gives back the table that applying its
/// records in append order built: a store reopened after a restart holds
/// what it held before.
pub proof fn lemma_replay_restores(log: Seq<RecordView>)
    ensures
        replayed(newest_first(log)) == applied(log),
    decreases log.len(),
{
    if log.len() > 0 {
        let rest = log.drop_last();
        lemma_replay_restores(rest);
        assert(newest_first(log).drop_first() =~= newest_first(rest));
        assert(newest_first(log)[0] == log.last());
    }
}

/// A tombstone that is the newest record of its key keeps that key out of
/// the replayed table, whatever older records hold.
pub proof fn lemma_tombstone_dominates(s: Seq<RecordView>, i: int)
    requires
        0 <= i < s.len(),
        s[i].value.is_none(),
        forall|j: int| 0 <= j < i ==> s[j].key != s[i].key,
    ensures
        !replayed(s).contains_key(s[i].key),
    decreases i,
{
    if i > 0 {
        let q = s.drop_first();
        assert(q[i - 1] == s[i]);
        assert forall|j: int| 0 <= j < i - 1 implies #[trigger] q[j].key != q[i - 1].key by {
            assert(q[j] == s[j + 1]);
        }
        lemma_tombstone_dominates(q, i - 1);
    }
}

/// Drives the rebuilding of a table from a log scanned newest to oldest:
/// the first record met for a key settles it, a tombstone by remembering
/// the key as removed.
pub struct ReplayLoader {
    table: Table,
    removed: Table,
}

impl ReplayLoader {
    pub closed spec fn wf(&self) -> bool {
        self.table.wf() && self.removed.wf()
    }

    /// The table built so far.
    pub closed spec fn built(&self) -> Map<Seq<u8>, Seq<u8>> {
        self.table@
    }

    /// The keys settled by a tombstone so far.
    pub closed spec fn tombstones(&self) -> Set<Seq<u8>> {
        self.removed@.dom()
    }

    /// A loader that has seen no record.
    pub fn new() -> (r: ReplayLoader)
        ensures
            r.wf(),
            r.built() == Map::<Seq<u8>, Seq<u8>>::empty(),
            r.tombstones() == Set::<Seq<u8>>::empty(),
    {
        let r = ReplayLoader { table: Table::new(), removed: Table::new() };
        proof {
            assert(r.removed@.dom() =~= Set::<Seq<u8>>::empty());
        }
        r
    }

    /// True when no record met so far has settled `key`.
    pub fn is_required(&self, key: &[u8]) -> (r: bool)
        requires
            self.wf(),
        ensures
            r == !(self.built().contains_key(key@) || self.tombstones().contains(key@)),
    {
        !self.removed.contains(key) && !self.table.contains(key)
    }

    /// Takes the next record of the scan; it settles its key unless an
    /// earlier (newer) record did.
    pub fn load(&mut self, key: Vec<u8>, value: Option<Vec<u8>>)
        requires
            old(self).wf(),
        ensures
            final(self).wf(),
            ({
                let settled = old(self).built().contains_key(key@) || old(self).tombstones().contains(key@);
                &&& settled ==> final(self).built() == old(self).built()
                    && final(self).tombstones() == old(self).tombstones()
                &&& !settled && value.is_some() ==> final(self).built() == old(self).built().insert(
                    key@,
                    value.unwrap()@,
                ) && final(self).tombstones() == old(self).tombstones()
                &&& !settled && value.is_none() ==> final(self).built() == old(self).built()
                    && final(self).tombstones() == old(self).tombstones().insert(key@)
            }),
    {
        if !self.is_required(key.as_slice()) {
            return;
        }
        match value {
            Some(v) => {
                self.table.insert(key, v);
            },
            None => {
                self.removed.insert(key, Vec::new());
            },
        }
    }

    /// The table built by the scan.
    pub fn finish(self) -> (r: Table)
        requires
            self.wf(),
        ensures
            r.wf(),
            r@ == self.built(),
    {
        self.table
    }
}

/// Rebuilds the table from log records given newest first.
pub fn replay(records: &Vec<LogRecord>) -> (r: Table)
    ensures
        r.wf(),
        r@ == replayed(records@.map_values(|x: LogRecord| x@)),
{
    let ghost s = records@.map_values(|x: LogRecord| x@);
    let mut loader = ReplayLoader::new();
    let mut i: usize = 0;
    while i < records.len()
        invariant
            loader.wf(),
            i <= records@.len(),
            s == records@.map_values(|x: LogRecord| x@),
            loader.built() == replayed(s.subrange(0, i as int)),
            forall|k: Seq<u8>|
                loader.tombstones().contains(k) <==> (mentions(s.subrange(0, i as int), k)
                    && !replayed(s.subrange(0, i as int)).contains_key(k)),
        decreases records.len() - i,
    {
        let rec = &records[i];
        let ghost p = s.subrange(0, i as int);
        let ghost r = s[i as int];
        proof {
            assert(s.subrange(0, i + 1 as int) =~= p.push(r));
            lemma_replayed_push(p, r);
            if !mentions(p, r.key) {
                lemma_replayed_keys(p, r.key);
            }
            assert forall|k: Seq<u8>| mentions(p.push(r), k) == (mentions(p, k) || k == r.key) by {
                if mentions(p.push(r), k) && k != r.key {
                    let j = choose|j: int| 0 <= j < p.push(r).len() && p.push(r)[j].key == k;
                    assert(p[j].key == k);
                }
                if mentions(p, k) {
                    let j = choose|j: int| 0 <= j < p.len() && p[j].key == k;
                    assert(p.push(r)[j].key == k);
                }
                if k == r.key {
                    assert(p.push(r)[p.len() as int].key == k);
                }
            }
        }
        let key = crate::bytes::copy_bytes(rec.key.as_slice());
        let value = match &rec.value {
            Some(v) => Some(crate::bytes::copy_bytes(v.as_slice())),
            None => None,
        };
        loader.load(key, value);
        i = i + 1;
        proof {
            let p1 = s.subrange(0, i as int);
            assert forall|k: Seq<u8>| loader.tombstones().contains(k) <==> (mentions(p1, k)
                && !replayed(p1).contains_key(k)) by {
                if k == r.key && !mentions(p, k) {
                    assert(!replayed(p).contains_key(k));
                }
            }
        }
    }
    proof {
        assert(s.subrange(0, records@.len() as int) =~= s);
    }
    loader.finish()
}

} // verus!
