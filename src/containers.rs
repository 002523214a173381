//! The concurrent containers the queue is built on, as this library uses them.
//!
//! Each container is described by what it holds: the ring of fingerprints by
//! a sequence and a capacity, the maps by a `Map`, the fingerprint set by a
//! `Set`. The queue owns every container exclusively (`&mut`), so each call
//! below acts on those contents as a sequential operation.
use crate::transaction::{AcceptedTransaction, Fingerprint};
use crossbeam_queue::ArrayQueue;
use dashmap::DashMap;
use indexmap::IndexSet;
use vstd::prelude::*;

verus! {

/// Ring of fingerprints in admission order.
pub type Ring = ArrayQueue<Fingerprint>;

/// Map from fingerprint to the accepted transaction.
pub type BodyMap = DashMap<Fingerprint, AcceptedTransaction>;

/// Map from account identifier to its number of resident transactions.
pub type CounterMap = DashMap<String, usize>;

/// Set of fingerprints.
pub type FingerprintSet = IndexSet<Fingerprint>;

/// An entry of the body map.
pub type BodyEntry = (Fingerprint, AcceptedTransaction);

#[verifier::external_type_specification]
#[verifier::external_body]
#[verifier::reject_recursive_types(T)]
pub struct ExArrayQueue<T>(ArrayQueue<T>);

#[verifier::external_type_specification]
#[verifier::external_body]
#[verifier::reject_recursive_types(K)]
#[verifier::reject_recursive_types(V)]
#[verifier::reject_recursive_types(S)]
pub struct ExDashMap<K, V, S>(DashMap<K, V, S>);

#[verifier::external_type_specification]
#[verifier::external_body]
#[verifier::reject_recursive_types(T)]
#[verifier::reject_recursive_types(S)]
pub struct ExIndexSet<T, S>(IndexSet<T, S>);

/// The fingerprints held by a ring, oldest first.
pub uninterp spec fn ring_contents(q: Ring) -> Seq<Fingerprint>;

/// The capacity a ring was created with.
pub uninterp spec fn ring_capacity(q: Ring) -> nat;

/// The entries of the body map.
pub uninterp spec fn body_contents(m: BodyMap) -> Map<Fingerprint, AcceptedTransaction>;

/// The entries of the per-account counter map, keyed by account identifier.
pub uninterp spec fn counter_contents(m: CounterMap) -> Map<Seq<char>, usize>;

/// The fingerprints held by a set.
pub uninterp spec fn set_contents(s: FingerprintSet) -> Set<Fingerprint>;

/// Relies on `ArrayQueue::new`: an empty ring of capacity `cap`. It panics on
/// a zero capacity, on one whose lap size overflows, and where the buffer of
/// `cap` slots (a 64-bit stamp and a fingerprint each, 40 bytes) would exceed
/// `isize::MAX` bytes; the last bound implies the second.
#[verifier::external_body]
pub(crate) fn ring_new(cap: usize) -> (q: Ring)
    requires
        0 < cap,
        cap * 40 <= isize::MAX,
    ensures
        ring_contents(q) == Seq::<Fingerprint>::empty(),
        ring_capacity(q) == cap,
{
    ArrayQueue::new(cap)
}

/// Relies on `ArrayQueue::push`: appends at the tail unless the ring holds
/// `capacity` items, in which case the value is handed back (here as `Some`).
#[verifier::external_body]
pub(crate) fn ring_push(q: &mut Ring, h: Fingerprint) -> (r: Option<Fingerprint>)
    ensures
        ring_capacity(*final(q)) == ring_capacity(*old(q)),
        ring_contents(*old(q)).len() < ring_capacity(*old(q)) ==> r is None
            && ring_contents(*final(q)) == ring_contents(*old(q)).push(h),
        ring_contents(*old(q)).len() >= ring_capacity(*old(q)) ==> r == Some(h)
            && ring_contents(*final(q)) == ring_contents(*old(q)),
{
    q.push(h).err()
}

/// Relies on `ArrayQueue::pop`: removes and returns the head, or `None` on an
/// empty ring.
#[verifier::external_body]
pub(crate) fn ring_pop(q: &mut Ring) -> (r: Option<Fingerprint>)
    ensures
        ring_capacity(*final(q)) == ring_capacity(*old(q)),
        ring_contents(*old(q)).len() == 0 ==> r is None && ring_contents(*final(q))
            == ring_contents(*old(q)),
        ring_contents(*old(q)).len() > 0 ==> r == Some(ring_contents(*old(q))[0]) && ring_contents(
            *final(q),
        ) == ring_contents(*old(q)).drop_first(),
{
    q.pop()
}

/// Relies on `DashMap::new`: an empty map.
#[verifier::external_body]
pub(crate) fn body_new() -> (m: BodyMap)
    ensures
        body_contents(m).dom() == Set::<Fingerprint>::empty(),
{
    DashMap::new()
}

/// Relies on `DashMap::len`: the number of entries, summed over the shards.
#[verifier::external_body]
pub(crate) fn body_len(m: &BodyMap) -> (r: usize)
    ensures
        r == body_contents(*m).len(),
{
    m.len()
}

/// Relies on `DashMap::get`: the entry under `h`, handed out as a clone (the
/// derived clone of a transaction equals it).
#[verifier::external_body]
pub(crate) fn body_get(m: &BodyMap, h: &Fingerprint) -> (r:
    Option<AcceptedTransaction>)
    ensures
        r == (if body_contents(*m).contains_key(*h) {
            Some(body_contents(*m)[*h])
        } else {
            None
        }),
{
    m.get(h).map(|e| e.value().clone())
}

/// Relies on `DashMap::contains_key`: whether an entry is under `h`.
#[verifier::external_body]
pub(crate) fn body_contains(m: &BodyMap, h: &Fingerprint) -> (r:
    bool)
    ensures
        r == body_contents(*m).contains_key(*h),
{
    m.contains_key(h)
}

/// Relies on `DashMap::insert`: puts `tx` under `h`, replacing any entry there.
#[verifier::external_body]
pub(crate) fn body_insert(
    m: &mut BodyMap,
    h: Fingerprint,
    tx: AcceptedTransaction,
)
    ensures
        body_contents(*final(m)) == body_contents(*old(m)).insert(h, tx),
{
    m.insert(h, tx);
}

/// Relies on `DashMap::remove`: takes out the entry under `h` and returns its value.
#[verifier::external_body]
pub(crate) fn body_remove(m: &mut BodyMap, h: &Fingerprint) -> (r:
    Option<AcceptedTransaction>)
    ensures
        body_contents(*final(m)) == body_contents(*old(m)).remove(*h),
        r == (if body_contents(*old(m)).contains_key(*h) {
            Some(body_contents(*old(m))[*h])
        } else {
            None
        }),
{
    m.remove(h).map(|(_, tx)| tx)
}

/// Relies on `DashMap::iter`: visits every entry once, in an order of the
/// map's choosing; each value is handed out as a clone (the derived clone of
/// a transaction equals it).
#[verifier::external_body]
pub(crate) fn body_entries(m: &BodyMap) -> (r: Vec<BodyEntry>)
    ensures
        r@.len() == body_contents(*m).len(),
        forall|i: int|
            0 <= i < r@.len() ==> body_contents(*m).contains_key(#[trigger] r@[i].0)
                && body_contents(*m)[r@[i].0] == r@[i].1,
        forall|i: int, j: int| 0 <= i < j < r@.len() ==> r@[i].0 != r@[j].0,
        forall|h: Fingerprint|
            #[trigger] body_contents(*m).contains_key(h) ==> exists|i: int| 0 <= i < r@.len() && r@[i].0 == h,
{
    m.iter().map(|e| (*e.key(), e.value().clone())).collect()
}

/// Relies on `DashMap::new`: an empty map.
#[verifier::external_body]
pub(crate) fn counter_new() -> (m: CounterMap)
    ensures
        counter_contents(m).dom() == Set::<Seq<char>>::empty(),
{
    DashMap::new()
}

/// Relies on `DashMap::get`: the count under `id`, if any.
#[verifier::external_body]
pub(crate) fn counter_get(m: &CounterMap, id: &String) -> (r: Option<usize>)
    ensures
        r == (if counter_contents(*m).contains_key(id@) {
            Some(counter_contents(*m)[id@])
        } else {
            None
        }),
{
    m.get(id).map(|e| *e.value())
}

/// Relies on `DashMap::insert`: sets the count under `id`.
#[verifier::external_body]
pub(crate) fn counter_insert(m: &mut CounterMap, id: &String, n: usize)
    ensures
        counter_contents(*final(m)) == counter_contents(*old(m)).insert(id@, n),
{
    m.insert(id.clone(), n);
}

/// Relies on `DashMap::remove`: drops the count under `id`.
#[verifier::external_body]
pub(crate) fn counter_remove(m: &mut CounterMap, id: &String)
    ensures
        counter_contents(*final(m)) == counter_contents(*old(m)).remove(id@),
{
    m.remove(id);
}

/// Relies on `IndexSet::new`: an empty set.
#[verifier::external_body]
pub(crate) fn set_new() -> (s: FingerprintSet)
    ensures
        set_contents(s) == Set::<Fingerprint>::empty(),
{
    IndexSet::new()
}

/// Relies on `IndexSet::insert`: adds `h` (a present value stays as it is).
#[verifier::external_body]
pub(crate) fn set_insert(s: &mut FingerprintSet, h: Fingerprint)
    ensures
        set_contents(*final(s)) == set_contents(*old(s)).insert(h),
{
    s.insert(h);
}

/// Relies on `IndexSet::contains`: membership of `h`.
#[verifier::external_body]
pub(crate) fn set_contains(s: &FingerprintSet, h: &Fingerprint) -> (r: bool)
    ensures
        r == set_contents(*s).contains(*h),
{
    s.contains(h)
}

} // verus!
