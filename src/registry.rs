use vstd::prelude::*;
use crate::bytes::{compare_bytes, copy_bytes, Order};

verus! {

/// The mathematical state of the registry: the handle id registered for each
/// canonical path, and the next id that has never been handed out.
pub struct RegistryView {
    pub ids: Map<Seq<u8>, u64>,
    pub next_id: nat,
}

/// Every registered id was handed out before `next_id`.
pub open spec fn ids_below(v: RegistryView) -> bool {
    forall|p: Seq<u8>| #[trigger] v.ids.contains_key(p) ==> (v.ids[p] as nat) < v.next_id
}

/// Result of an open: whose handle the caller gets.
#[derive(Clone, Copy, Debug, PartialEq, Eq, Structural)]
pub enum Installed {
    /// A handle registered for the path is still referenced: share it.
    Existing(u64),
    /// The caller's freshly opened handle was registered under this new id.
    Fresh(u64),
}

impl Installed {
    pub open spec fn id(self) -> u64 {
        match self {
            Installed::Existing(id) => id,
            Installed::Fresh(id) => id,
        }
    }
}

/// The registry after an opener whose raw open succeeded tries to install its
/// handle for `p`; `live` tells whether the handle registered for `p`, if
/// any, is still referenced. Returns the new state and the outcome.
pub open spec fn install_spec(v: RegistryView, p: Seq<u8>, live: bool) -> (RegistryView, Installed) {
    if v.ids.contains_key(p) && live {
        (v, Installed::Existing(v.ids[p]))
    } else {
        (
            RegistryView { ids: v.ids.insert(p, v.next_id as u64), next_id: v.next_id + 1 },
            Installed::Fresh(v.next_id as u64),
        )
    }
}

/// The table of open files: canonical path to the id of the handle that
/// was last installed for it. Whether that handle is still referenced is
/// known only to its holders, and handed in.
pub struct OpenRegistry {
    paths: Vec<Vec<u8>>,
    ids: Vec<u64>,
    next_id: u64,
    model: Ghost<Map<Seq<u8>, u64>>,
}

impl OpenRegistry {
    pub closed spec fn view(&self) -> RegistryView {
        RegistryView { ids: self.model@, next_id: self.next_id as nat }
    }

    pub closed spec fn wf(&self) -> bool {
        &&& self.paths@.len() == self.ids@.len()
        &&& forall|i: int, j: int|
            0 <= i < j < self.paths@.len() ==> self.paths@[i]@ != self.paths@[j]@
        &&& forall|i: int|
            0 <= i < self.paths@.len() ==> #[trigger] self.model@.contains_key(self.paths@[i]@)
                && self.model@[self.paths@[i]@] == self.ids@[i]
        &&& forall|p: Seq<u8>|
            #[trigger] self.model@.contains_key(p) ==> exists|i: int|
                0 <= i < self.paths@.len() && self.paths@[i]@ == p
        &&& ids_below(self.view())
    }

    /// An empty registry.
    pub fn new() -> (r: OpenRegistry)
        ensures
            r.wf(),
            r.view().ids == Map::<Seq<u8>, u64>::empty(),
            r.view().next_id == 0,
    {
        OpenRegistry { paths: Vec::new(), ids: Vec::new(), next_id: 0, model: Ghost(Map::empty()) }
    }

    /// True while a fresh id can still be handed out.
    pub fn has_fresh_id(&self) -> (r: bool)
        ensures
            r == (self.view().next_id < u64::MAX),
    {
        self.next_id < u64::MAX
    }

    fn position(&self, path: &[u8]) -> (r: Option<usize>)
        requires
            self.wf(),
        ensures
            match r {
                Some(i) => i < self.paths@.len() && self.paths@[i as int]@ == path@,
                None => !self.model@.contains_key(path@),
            },
    {
        let mut i: usize = 0;
        while i < self.paths.len()
            invariant
                self.wf(),
                i <= self.paths@.len(),
                forall|j: int| 0 <= j < i ==> self.paths@[j]@ != path@,
            decreases self.paths.len() - i,
        {
            if compare_bytes(self.paths[i].as_slice(), path) == Order::Equal {
                return Some(i);
            }
            i = i + 1;
        }
        None
    }

    /// The id registered for `path`, if any.
    pub fn registered(&self, path: &[u8]) -> (r: Option<u64>)
        requires
            self.wf(),
        ensures
            r == (if self.view().ids.contains_key(path@) {
                Some(self.view().ids[path@])
            } else {
                None::<u64>
            }),
    {
        match self.position(path) {
            Some(i) => Some(self.ids[i]),
            None => None,
        }
    }

    /// Installs a freshly opened handle for `path`, unless the handle
    /// registered there is still referenced (`live`): then that one wins and
    /// the caller must drop its own.
    pub fn install(&mut self, path: &[u8], live: bool) -> (r: Installed)
        requires
            old(self).wf(),
            old(self).view().next_id < u64::MAX,
        ensures
            final(self).wf(),
            (final(self).view(), r) == install_spec(old(self).view(), path@, live),
    {
        let found = self.position(path);
        match found {
            Some(i) => {
                if live {
                    return Installed::Existing(self.ids[i]);
                }
            },
            None => {},
        }
        let id = self.next_id;
        match found {
            Some(i) => {
                self.ids.set(i, id);
            },
            None => {
                self.paths.push(copy_bytes(path));
                self.ids.push(id);
            },
        }
        self.next_id = self.next_id + 1;
        self.model = Ghost(self.model@.insert(path@, id));
        proof {
            let v = self.view();
            assert forall|p: Seq<u8>| #[trigger] v.ids.contains_key(p) implies (v.ids[p] as nat)
                < v.next_id by {
                if p != path@ {
                    assert(old(self).view().ids.contains_key(p));
                }
            }
            assert forall|p: Seq<u8>| #[trigger] self.model@.contains_key(p) implies exists|i: int|
                0 <= i < self.paths@.len() && self.paths@[i]@ == p by {
                if p == path@ {
                    match found {
                        Some(i) => {
                            assert(self.paths@[i as int]@ == p);
                        },
                        None => {
                            assert(self.paths@[self.paths@.len() - 1]@ == p);
                        },
                    }
                } else {
                    assert(old(self).model@.contains_key(p));
                    let j = choose|j: int|
                        0 <= j < old(self).paths@.len() && old(self).paths@[j]@ == p;
                    assert(self.paths@[j]@ == p);
                }
            }
        }
        Installed::Fresh(id)
    }
}

/// The state after `n` further opens of `p` while the handle installed for
/// `p` stays referenced, and the ids they returned.
pub open spec fn repeated_opens(v: RegistryView, p: Seq<u8>, n: nat) -> (RegistryView, Seq<u64>)
    decreases n,
{
    if n == 0 {
        (v, Seq::empty())
    } else {
        let (v1, ids) = repeated_opens(v, p, (n - 1) as nat);
        let (v2, got) = install_spec(v1, p, true);
        (v2, ids.push(got.id()))
    }
}

/// Opens of one path alias one handle while it is referenced: after an open
/// of `p`, any number of further opens while that handle stays referenced
/// return its id and leave the registry as it was. Once it is no longer
/// referenced, the next open installs an id that differs from every id
/// registered before.
pub proof fn lemma_open_dedup(v: RegistryView, p: Seq<u8>, live: bool, n: nat)
    requires
        ids_below(v),
        v.next_id < u64::MAX,
    ensures
        ({
            let (v1, first) = install_spec(v, p, live);
            let (vn, later) = repeated_opens(v1, p, n);
            &&& later.len() == n
            &&& forall|i: int| 0 <= i < n ==> later[i] == first.id()
            &&& vn == v1
            &&& v1.ids[p] == first.id()
        }),
        ({
            let (v2, again) = install_spec(v, p, false);
            &&& again == Installed::Fresh(v.next_id as u64)
            &&& forall|q: Seq<u8>| #[trigger] v.ids.contains_key(q) ==> v.ids[q] != again.id()
            &&& v2.ids[p] == again.id()
        }),
    decreases n,
{
    let (v1, first) = install_spec(v, p, live);
    if n > 0 {
        lemma_open_dedup(v, p, live, (n - 1) as nat);
    }
    assert forall|q: Seq<u8>| #[trigger] v.ids.contains_key(q) implies v.ids[q] != v.next_id as u64 by {
        assert((v.ids[q] as nat) < v.next_id);
    }
}

} // verus!
