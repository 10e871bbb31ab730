use vstd::prelude::*;
use crate::bytes::lex_lt;
use crate::replay::{apply_record, replay, replayed, LogRecord, RecordView, ReplayLoader};
use crate::table::Table;

verus! {

/// The record that a write of `value` under `key` appends to the log.
pub open spec fn put_view(key: Seq<u8>, value: Seq<u8>) -> RecordView {
    RecordView { key, value: Some(value) }
}

/// The tombstone that a removal of `key` appends to the log.
pub open spec fn tombstone_view(key: Seq<u8>) -> RecordView {
    RecordView { key, value: None }
}

/// A key-value store mirrored in memory. Every change reaches the table
/// only once its log record has committed; reads never touch the log.
pub struct AsyncStore {
    table: Table,
}

impl View for AsyncStore {
    type V = Map<Seq<u8>, Seq<u8>>;

    closed spec fn view(&self) -> Map<Seq<u8>, Seq<u8>> {
        self.table@
    }
}

impl AsyncStore {
    pub closed spec fn wf(&self) -> bool {
        self.table.wf()
    }

    /// Builds the store from the log's records, given newest first.
    pub fn open(records: &Vec<LogRecord>) -> (r: AsyncStore)
        ensures
            r.wf(),
            r@ == replayed(records@.map_values(|x: LogRecord| x@)),
    {
        AsyncStore { table: replay(records) }
    }

    /// Builds the store from a loader that the log's scan has driven.
    pub fn from_loader(loader: ReplayLoader) -> (r: AsyncStore)
        requires
            loader.wf(),
        ensures
            r.wf(),
            r@ == loader.built(),
    {
        AsyncStore { table: loader.finish() }
    }

    /// Number of entries.
    pub fn len(&self) -> (r: usize)
        requires
            self.wf(),
        ensures
            r as nat == self@.dom().len(),
    {
        proof {
            self.table.lemma_key_order();
            self.table.lemma_len();
        }
        self.table.len()
    }

    /// The value stored under `key`, if any.
    pub fn read(&self, key: &[u8]) -> (r: Option<Vec<u8>>)
        requires
            self.wf(),
        ensures
            r.is_some() == self@.contains_key(key@),
            r.is_some() ==> r.unwrap()@ == self@[key@],
    {
        self.table.get(key)
    }

    /// The keys, in increasing byte order.
    pub fn keys(&self) -> (r: Vec<Vec<u8>>)
        requires
            self.wf(),
        ensures
            r@.len() == self.keys_spec().len(),
            forall|i: int| 0 <= i < r@.len() ==> #[trigger] r@[i]@ == self.keys_spec()[i],
            forall|i: int, j: int| 0 <= i < j < r@.len() ==> lex_lt(r@[i]@, r@[j]@),
            forall|k: Seq<u8>|
                self@.contains_key(k) <==> exists|i: int| 0 <= i < r@.len() && #[trigger] r@[i]@ == k,
    {
        let r = self.table.keys();
        proof {
            self.table.lemma_key_order();
            assert forall|k: Seq<u8>|
                self@.contains_key(k) <==> exists|i: int| 0 <= i < r@.len() && #[trigger] r@[i]@ == k by {
                if self@.contains_key(k) {
                    assert(self.table.key_order().contains(k));
                    let i = choose|i: int|
                        0 <= i < self.table.key_order().len() && self.table.key_order()[i] == k;
                    assert(r@[i]@ == k);
                }
                if exists|i: int| 0 <= i < r@.len() && #[trigger] r@[i]@ == k {
                    let i = choose|i: int| 0 <= i < r@.len() && #[trigger] r@[i]@ == k;
                    assert(self.table.key_order()[i] == k);
                    assert(self.table.key_order().contains(k));
                }
            }
            assert forall|i: int, j: int| 0 <= i < j < r@.len() implies lex_lt(r@[i]@, r@[j]@) by {
                assert(r@[i]@ == self.table.key_order()[i]);
                assert(r@[j]@ == self.table.key_order()[j]);
            }
        }
        r
    }

    /// The values, in the order of their keys.
    pub fn values(&self) -> (r: Vec<Vec<u8>>)
        requires
            self.wf(),
        ensures
            ({
                let ks = self.keys_spec();
                &&& r@.len() == ks.len()
                &&& forall|i: int| 0 <= i < r@.len() ==> #[trigger] r@[i]@ == self@[ks[i]]
            }),
    {
        self.table.values()
    }

    /// The keys, in increasing byte order, as `keys` returns them.
    pub closed spec fn keys_spec(&self) -> Seq<Seq<u8>> {
        self.table.key_order()
    }

    /// The order of `keys_spec` is that of `keys`: each key once, increasing.
    pub proof fn lemma_keys_spec(&self)
        requires
            self.wf(),
        ensures
            forall|i: int, j: int|
                0 <= i < j < self.keys_spec().len() ==> lex_lt(self.keys_spec()[i], self.keys_spec()[j]),
            forall|k: Seq<u8>| self@.contains_key(k) <==> self.keys_spec().contains(k),
    {
        self.table.lemma_key_order();
    }

    /// Applies a write once its log record has been appended and the
    /// commit has resolved: on success the table takes the value and the
    /// previous one is returned; on failure nothing changes and the error is
    /// passed on.
    pub fn write<E>(&mut self, key: Vec<u8>, value: Vec<u8>, commit: Result<(), E>) -> (r: Result<
        Option<Vec<u8>>,
        E,
    >)
        requires
            old(self).wf(),
        ensures
            final(self).wf(),
            match commit {
                Ok(()) => {
                    &&& final(self)@ == apply_record(old(self)@, put_view(key@, value@))
                    &&& match r {
                        Ok(prev) => prev.is_some() == old(self)@.contains_key(key@) && (prev.is_some()
                            ==> prev.unwrap()@ == old(self)@[key@]),
                        Err(_) => false,
                    }
                },
                Err(e) => final(self)@ == old(self)@ && r == Err::<Option<Vec<u8>>, E>(e),
            },
    {
        match commit {
            Ok(()) => Ok(self.table.insert(key, value)),
            Err(e) => Err(e),
        }
    }

    /// Applies a removal once its tombstone has been appended and the
    /// commit has resolved: on success the key leaves the table and its
    /// value is returned; on failure nothing changes and the error is passed
    /// on.
    pub fn remove<E>(&mut self, key: &[u8], commit: Result<(), E>) -> (r: Result<Option<Vec<u8>>, E>)
        requires
            old(self).wf(),
        ensures
            final(self).wf(),
            match commit {
                Ok(()) => {
                    &&& final(self)@ == apply_record(old(self)@, tombstone_view(key@))
                    &&& match r {
                        Ok(prev) => prev.is_some() == old(self)@.contains_key(key@) && (prev.is_some()
                            ==> prev.unwrap()@ == old(self)@[key@]),
                        Err(_) => false,
                    }
                },
                Err(e) => final(self)@ == old(self)@ && r == Err::<Option<Vec<u8>>, E>(e),
            },
    {
        match commit {
            Ok(()) => Ok(self.table.remove(key)),
            Err(e) => Err(e),
        }
    }
}

/// After a committed write of `v` under `k` a read gives `v`; after a second
/// committed write of `v2` it gives `v2`; after a committed removal the key
/// is absent. Other keys keep their values throughout.
pub proof fn lemma_write_read_remove(m: Map<Seq<u8>, Seq<u8>>, k: Seq<u8>, v: Seq<u8>, v2: Seq<u8>)
    ensures
        ({
            let m1 = apply_record(m, put_view(k, v));
            let m2 = apply_record(m1, put_view(k, v2));
            let m3 = apply_record(m2, tombstone_view(k));
            &&& m1.contains_key(k) && m1[k] == v
            &&& m2.contains_key(k) && m2[k] == v2
            &&& !m3.contains_key(k)
            &&& forall|o: Seq<u8>|
                o != k ==> (#[trigger] m3.contains_key(o) == m.contains_key(o) && (m.contains_key(o)
                    ==> m3[o] == m[o]))
        }),
{
}

} // verus!
