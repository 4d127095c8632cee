//! Opaque identifiers for transactions and lockable resources.
//!
//! Both identifiers are thin newtypes over `u64`. The library neither assigns
//! nor interprets them: the transaction layer decides what a transaction id
//! means, and the storage layer decides how to map a database, table, page or
//! row to a single [`ResourceId`].
use std::collections::HashMap;
use vstd::prelude::*;

verus! {

/// Identifies the transaction that owns a lock request.
///
/// Reusing a retired id for a new transaction is safe as long as the previous
/// transaction has released everything first.
#[derive(Debug, Clone, Copy, PartialEq, Eq, PartialOrd, Ord, Hash, Structural)]
pub struct TxnId(pub(crate) u64);

/// Identifies a lockable resource: a database, a table, a page or a row.
///
/// The caller maps its own object identity to a stable, collision-free `u64`.
/// Two distinct objects that map to the same id share their locks.
#[derive(Debug, Clone, Copy, PartialEq, Eq, PartialOrd, Ord, Hash, Structural)]
pub struct ResourceId(pub(crate) u64);

impl TxnId {
    /// The number behind the identifier.
    pub open(crate) spec fn id(self) -> u64 {
        self.0
    }

    /// The identifier of a number.
    pub open(crate) spec fn of(id: u64) -> Self {
        TxnId(id)
    }

    /// Wraps a raw transaction number.
    #[must_use]
    pub fn new(id: u64) -> (t: Self)
        ensures
            t == TxnId::of(id),
            t.id() == id,
    {
        TxnId(id)
    }

    /// Returns the underlying number.
    #[must_use]
    pub fn get(self) -> (id: u64)
        ensures
            id == self.id(),
    {
        self.0
    }

    /// Law: wrapping a number and reading it back gives the number, and an
    /// identifier is determined by its number.
    pub proof fn law_roundtrip(self, id: u64)
        ensures
            TxnId::of(id).id() == id,
            TxnId::of(self.id()) == self,
            self.id() == id <==> self == TxnId::of(id),
    {
    }
}

impl ResourceId {
    /// The number behind the identifier.
    pub open(crate) spec fn id(self) -> u64 {
        self.0
    }

    /// The identifier of a number.
    pub open(crate) spec fn of(id: u64) -> Self {
        ResourceId(id)
    }

    /// Wraps a raw resource number.
    #[must_use]
    pub fn new(id: u64) -> (r: Self)
        ensures
            r == ResourceId::of(id),
            r.id() == id,
    {
        ResourceId(id)
    }

    /// Returns the underlying number.
    #[must_use]
    pub fn get(self) -> (id: u64)
        ensures
            id == self.id(),
    {
        self.0
    }

    /// Law: wrapping a number and reading it back gives the number, and an
    /// identifier is determined by its number.
    pub proof fn law_roundtrip(self, id: u64)
        ensures
            ResourceId::of(id).id() == id,
            ResourceId::of(self.id()) == self,
            self.id() == id <==> self == ResourceId::of(id),
    {
    }
}

/// Lists the transactions whose numbers are the keys of `map`, each once, in no
/// particular order.
pub(crate) fn txns_of<V>(map: &HashMap<u64, V>) -> (list: Vec<TxnId>)
    ensures
        list@.no_duplicates(),
        forall|t: TxnId| #[trigger] list@.contains(t) <==> map@.contains_key(t.id()),
{
    let mut list: Vec<TxnId> = Vec::new();
    let ghost keys = vstd::std_specs::iter::IteratorSpec::remaining(&map.keys());
    for key in it: map.keys()
        invariant
            it.seq() == keys,
            list@.len() == it.index(),
            forall|j: int| 0 <= j < list@.len() ==> (#[trigger] list@[j]).id() == *keys[j],
    {
        list.push(TxnId::new(*key));
    }
    proof {
        assert(keys.unref().to_set() == map@.dom());
        assert forall|t: TxnId| #[trigger] list@.contains(t) <==> map@.contains_key(t.id()) by {
            if list@.contains(t) {
                let j = choose|j: int| 0 <= j < list@.len() && list@[j] == t;
                assert(keys.unref()[j] == t.id());
                assert(keys.unref().to_set().contains(t.id()));
            }
            if map@.contains_key(t.id()) {
                assert(keys.unref().contains(t.id()));
                let j = choose|j: int| 0 <= j < keys.unref().len() && keys.unref()[j] == t.id();
                assert(list@[j] == t);
            }
        }
    }
    list
}

/// There are as many transactions in a set as there are numbers of them.
pub(crate) proof fn lemma_txn_count(ids: Set<u64>, txns: Set<TxnId>)
    requires
        ids.finite(),
        forall|t: TxnId| #[trigger] txns.contains(t) <==> ids.contains(t.id()),
    ensures
        txns.finite(),
        txns.len() == ids.len(),
{
    let f = |id: u64| TxnId::of(id);
    assert forall|t: TxnId| #[trigger] txns.contains(t) <==> ids.map(f).contains(t) by {
        if ids.contains(t.id()) {
            assert(f(t.id()) == t);
        }
    }
    assert(ids.map(f) =~= txns);
    vstd::set_lib::lemma_map_size(ids, txns, f);
}

impl From<u64> for TxnId {
    fn from(id: u64) -> (t: Self) {
        TxnId(id)
    }
}

impl vstd::std_specs::convert::FromSpecImpl<u64> for TxnId {
    open spec fn obeys_from_spec() -> bool {
        true
    }

    open spec fn from_spec(id: u64) -> Self {
        TxnId::of(id)
    }
}

impl From<TxnId> for u64 {
    fn from(id: TxnId) -> (n: Self) {
        id.0
    }
}

impl vstd::std_specs::convert::FromSpecImpl<TxnId> for u64 {
    open spec fn obeys_from_spec() -> bool {
        true
    }

    open spec fn from_spec(id: TxnId) -> Self {
        id.id()
    }
}

impl From<u64> for ResourceId {
    fn from(id: u64) -> (r: Self) {
        ResourceId(id)
    }
}

impl vstd::std_specs::convert::FromSpecImpl<u64> for ResourceId {
    open spec fn obeys_from_spec() -> bool {
        true
    }

    open spec fn from_spec(id: u64) -> Self {
        ResourceId::of(id)
    }
}

impl From<ResourceId> for u64 {
    fn from(id: ResourceId) -> (n: Self) {
        id.0
    }
}

impl vstd::std_specs::convert::FromSpecImpl<ResourceId> for u64 {
    open spec fn obeys_from_spec() -> bool {
        true
    }

    open spec fn from_spec(id: ResourceId) -> Self {
        id.id()
    }
}

/// Law: converting a number to an identifier and back gives the number, for both
/// kinds of identifier, and agrees with wrapping it.
pub proof fn law_conversions_roundtrip(id: u64, t: TxnId, r: ResourceId)
    ensures
        <TxnId as vstd::std_specs::convert::FromSpec<u64>>::obeys_from_spec(),
        <u64 as vstd::std_specs::convert::FromSpec<TxnId>>::obeys_from_spec(),
        <ResourceId as vstd::std_specs::convert::FromSpec<u64>>::obeys_from_spec(),
        <u64 as vstd::std_specs::convert::FromSpec<ResourceId>>::obeys_from_spec(),
        <TxnId as vstd::std_specs::convert::FromSpec<u64>>::from_spec(id).id() == id,
        <u64 as vstd::std_specs::convert::FromSpec<TxnId>>::from_spec(t) == t.id(),
        <ResourceId as vstd::std_specs::convert::FromSpec<u64>>::from_spec(id).id() == id,
        <u64 as vstd::std_specs::convert::FromSpec<ResourceId>>::from_spec(r) == r.id(),
{
}

} // verus!
