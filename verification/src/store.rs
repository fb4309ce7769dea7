//! The collections of other crates that the library keeps its data in: the
//! concurrent maps from node id to node and from agent id to worker, the
//! small inline vectors for a node's children and elements, and the parallel
//! sort. Their behaviour is stated here and taken on trust.

use vstd::prelude::*;
use dashmap::DashMap;
use rayon::slice::ParallelSliceMut;
use rustc_hash::FxBuildHasher;
use smallvec::SmallVec;
use std::hash::RandomState;
use std::sync::Arc;
use crate::bvh::{BVHNode, BVHNodeId};
use crate::scene::scene_loop::AgentWorker;
use crate::sensors::TimeStamped;
use crate::sensors::lidar::Lidar2DSensed;

verus! {

/// `dashmap::DashMap`, taken as a value of which nothing is known but what
/// the functions below say.
#[verifier::external_type_specification]
#[verifier::external_body]
#[verifier::reject_recursive_types(K)]
#[verifier::reject_recursive_types(V)]
#[verifier::reject_recursive_types(S)]
pub struct ExDashMap<K, V, S>(DashMap<K, V, S>);

/// `rustc_hash::FxBuildHasher`, the hasher of the node store.
#[verifier::external_type_specification]
#[verifier::external_body]
pub struct ExFxBuildHasher(FxBuildHasher);

/// A node's children, kept in a `smallvec::SmallVec` with room for two ids
/// inline.
#[verifier::external_body]
#[derive(Debug)]
pub struct ChildList {
    inner: SmallVec<[BVHNodeId; 2]>,
}

/// A leaf's segment indices, kept in a `smallvec::SmallVec` with room for
/// sixteen indices inline.
#[verifier::external_body]
#[derive(Debug)]
pub struct ElementList {
    inner: SmallVec<[usize; 16]>,
}

/// The node store.
pub type NodeStore = DashMap<u64, BVHNode, FxBuildHasher>;

/// The ids a child list holds, in order.
pub uninterp spec fn child_ids(l: ChildList) -> Seq<BVHNodeId>;

/// The indices an element list holds, in order.
pub uninterp spec fn element_indices(l: ElementList) -> Seq<usize>;

/// The entries of a node store.
pub uninterp spec fn store_nodes(m: DashMap<u64, BVHNode, FxBuildHasher>) -> Map<u64, BVHNode>;

/// `DashMap::default`: a map without entries.
#[verifier::external_body]
pub(crate) fn store_new() -> (m: DashMap<u64, BVHNode, FxBuildHasher>)
    ensures
        store_nodes(m) == (Map::<u64, BVHNode>::empty()),
{
    DashMap::default()
}

/// `DashMap::insert`: the entry for `k` is set to `v`, replacing an earlier
/// one; the other entries stay.
#[verifier::external_body]
pub(crate) fn store_insert(m: &mut DashMap<u64, BVHNode, FxBuildHasher>, k: u64, v: BVHNode)
    ensures
        store_nodes(*final(m)) == store_nodes(*old(m)).insert(k, v),
{
    m.insert(k, v);
}

/// `DashMap::get`, handing out a copy of the node: the entry for `k` if there
/// is one.
#[verifier::external_body]
pub(crate) fn store_get(m: &DashMap<u64, BVHNode, FxBuildHasher>, k: u64) -> (r: Option<BVHNode>)
    ensures
        r == (if store_nodes(*m).dom().contains(k) {
            Some(store_nodes(*m)[k])
        } else {
            None
        }),
{
    match m.get(&k) {
        Some(entry) => Some(entry.value().clone()),
        None => None,
    }
}

impl Clone for ChildList {
    /// `SmallVec::clone`: a list with the same contents.
    #[verifier::external_body]
    fn clone(&self) -> (l: Self)
        ensures
            l == *self,
    {
        ChildList { inner: self.inner.clone() }
    }
}

impl Clone for ElementList {
    /// `SmallVec::clone`: a list with the same contents.
    #[verifier::external_body]
    fn clone(&self) -> (l: Self)
        ensures
            l == *self,
    {
        ElementList { inner: self.inner.clone() }
    }
}

impl ChildList {
    /// `SmallVec::from_vec`: the same ids in the same order.
    #[verifier::external_body]
    pub(crate) fn from_vec(v: Vec<BVHNodeId>) -> (l: ChildList)
        ensures
            child_ids(l) == v@,
    {
        ChildList { inner: SmallVec::from_vec(v) }
    }

    /// `SmallVec::as_slice`: the ids in order.
    #[verifier::external_body]
    pub(crate) fn as_slice(&self) -> (s: &[BVHNodeId])
        ensures
            s@ == child_ids(*self),
    {
        self.inner.as_slice()
    }
}

impl ElementList {
    /// `SmallVec::from_vec`: the same indices in the same order.
    #[verifier::external_body]
    pub(crate) fn from_vec(v: Vec<usize>) -> (l: ElementList)
        ensures
            element_indices(l) == v@,
    {
        ElementList { inner: SmallVec::from_vec(v) }
    }

    /// `SmallVec::as_slice`: the indices in order.
    #[verifier::external_body]
    pub(crate) fn as_slice(&self) -> (s: &[usize])
        ensures
            s@ == element_indices(*self),
    {
        self.inner.as_slice()
    }
}

/// The keys do not decrease along the sequence.
pub open spec fn sorted_by_code(s: Seq<(u64, usize)>) -> bool {
    forall|i: int, j: int| 0 <= i <= j < s.len() ==> s[i].0 <= s[j].0
}

/// `rayon`'s `par_sort_unstable_by_key` on the first component: the same
/// entries, rearranged so that the keys do not decrease. Nothing is said of
/// the order among equal keys.
#[verifier::external_body]
pub(crate) fn sort_by_code(v: &mut Vec<(u64, usize)>)
    ensures
        sorted_by_code(final(v)@),
        final(v)@.to_multiset() == old(v)@.to_multiset(),
{
    v.par_sort_unstable_by_key(|e| e.0);
}

/// The worker store.
pub type WorkerStore = DashMap<u64, AgentWorker, RandomState>;

/// The entries of a worker store.
pub uninterp spec fn store_workers(m: DashMap<u64, AgentWorker, RandomState>) -> Map<
    u64,
    AgentWorker,
>;

/// `DashMap::default`: a map without entries.
#[verifier::external_body]
pub(crate) fn workers_new() -> (m: DashMap<u64, AgentWorker, RandomState>)
    ensures
        store_workers(m) == (Map::<u64, AgentWorker>::empty()),
{
    DashMap::default()
}

/// `DashMap::contains_key`: whether there is an entry for `k`.
#[verifier::external_body]
pub(crate) fn workers_contains(m: &DashMap<u64, AgentWorker, RandomState>, k: u64) -> (r: bool)
    ensures
        r == store_workers(*m).dom().contains(k),
{
    m.contains_key(&k)
}

/// `DashMap::insert`: the entry for `k` is set to `v`, replacing an earlier
/// one; the other entries stay.
#[verifier::external_body]
pub(crate) fn workers_insert(m: &mut DashMap<u64, AgentWorker, RandomState>, k: u64, v: AgentWorker)
    ensures
        store_workers(*final(m)) == store_workers(*old(m)).insert(k, v),
{
    m.insert(k, v);
}

/// `DashMap::remove`: the entry for `k` leaves the map and is handed out, if
/// there was one; the other entries stay.
#[verifier::external_body]
pub(crate) fn workers_remove(m: &mut DashMap<u64, AgentWorker, RandomState>, k: u64) -> (r: Option<
    AgentWorker,
>)
    ensures
        store_workers(*final(m)) == store_workers(*old(m)).remove(k),
        r == (if store_workers(*old(m)).dom().contains(k) {
            Some(store_workers(*old(m))[k])
        } else {
            None
        }),
{
    match m.remove(&k) {
        Some(entry) => Some(entry.1),
        None => None,
    }
}

/// `DashMap::get`, handing out a copy of the latest lidar reading of the
/// entry for `k`, if there is an entry.
#[verifier::external_body]
pub(crate) fn workers_reading(m: &DashMap<u64, AgentWorker, RandomState>, k: u64) -> (r: Option<
    Option<TimeStamped<Lidar2DSensed>>,
>)
    ensures
        r == (if store_workers(*m).dom().contains(k) {
            Some(store_workers(*m)[k].lidar.last_measurement)
        } else {
            None
        }),
{
    match m.get(&k) {
        Some(entry) => Some(entry.value().lidar.last_measurement.clone()),
        None => None,
    }
}

/// `Arc::clone`: another handle to the same value.
#[verifier::external_body]
pub(crate) fn share<T>(handle: &Arc<T>) -> (r: Arc<T>)
    ensures
        r == *handle,
{
    Arc::clone(handle)
}

} // verus!
