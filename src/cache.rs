//! A bounded write-back cache: `lru::LruCache` keeps the recency order of
//! the keys, a map keeps each key's value and dirty flag, and an eviction
//! hands the evicted entry back to the caller to write back.
use vstd::prelude::*;
use std::collections::HashMap;
use std::num::NonZeroUsize;
use lru::LruCache;

verus! {

broadcast use vstd::std_specs::hash::group_hash_axioms;

/// `lru::LruCache`, declared so that it can stand in fields; Verus sees
/// it through `lru_keys` and `lru_cap` alone.
#[verifier::external_type_specification]
#[verifier::external_body]
#[verifier::reject_recursive_types(K)]
#[verifier::reject_recursive_types(V)]
#[verifier::reject_recursive_types(S)]
pub struct ExLruCache<K, V, S>(LruCache<K, V, S>);

/// The hasher that `lru::LruCache` uses by default, declared because it
/// stands in that type's signature.
#[verifier::external_type_specification]
#[verifier::external_body]
pub struct ExDefaultHasher(lru::DefaultHasher);

/// The keys that an LRU order holds.
pub uninterp spec fn lru_keys(c: LruCache<u64, ()>) -> Set<u64>;

/// The keys of an LRU order, most recently used first.
pub uninterp spec fn lru_order(c: LruCache<u64, ()>) -> Seq<u64>;

/// The order lists each key once, and exactly the keys.
pub open spec fn order_matches(c: LruCache<u64, ()>) -> bool {
    &&& lru_order(c).no_duplicates()
    &&& forall|x: u64| #[trigger] lru_order(c).contains(x) <==> lru_keys(c).contains(x)
}

/// The capacity that an LRU order was made with.
pub uninterp spec fn lru_cap(c: LruCache<u64, ()>) -> nat;

/// Relies on `LruCache::new`: an empty cache of capacity `cap`.
#[verifier::external_body]
fn lru_new(cap: usize) -> (r: LruCache<u64, ()>)
    requires
        cap > 0,
    ensures
        lru_keys(r) == Set::<u64>::empty(),
        lru_order(r) == Seq::<u64>::empty(),
        lru_cap(r) == cap,
{
    LruCache::new(NonZeroUsize::new(cap).unwrap())
}

/// Relies on `LruCache::push`: a present key is refreshed and handed back;
/// a new key goes in, and when the cache was full the least recently used
/// key (the back of the order) leaves and is handed back. The pushed key
/// goes to the front of the order.
#[verifier::external_body]
fn lru_push(c: &mut LruCache<u64, ()>, k: u64) -> (r: Option<u64>)
    ensures
        lru_cap(*final(c)) == lru_cap(*old(c)),
        lru_keys(*final(c)).finite(),
        order_matches(*final(c)),
        lru_order(*final(c)).len() > 0,
        lru_order(*final(c))[0] == k,
        match r {
            Some(e) => if e == k {
                &&& lru_keys(*old(c)).contains(k)
                &&& lru_keys(*final(c)) == lru_keys(*old(c))
            } else {
                &&& !lru_keys(*old(c)).contains(k)
                &&& lru_keys(*old(c)).contains(e)
                &&& lru_keys(*old(c)).len() == lru_cap(*old(c))
                &&& lru_order(*old(c)).len() == lru_cap(*old(c))
                &&& e == lru_order(*old(c)).last()
                &&& lru_keys(*final(c)) == lru_keys(*old(c)).remove(e).insert(k)
            },
            None => {
                &&& !lru_keys(*old(c)).contains(k)
                &&& lru_keys(*old(c)).len() < lru_cap(*old(c))
                &&& lru_keys(*final(c)) == lru_keys(*old(c)).insert(k)
            },
        },
{
    c.push(k, ()).map(|e| e.0)
}

/// Relies on `LruCache::promote`: moves a present key to the front of the
/// order.
#[verifier::external_body]
fn lru_promote(c: &mut LruCache<u64, ()>, k: u64)
    ensures
        lru_cap(*final(c)) == lru_cap(*old(c)),
        lru_keys(*final(c)) == lru_keys(*old(c)),
        order_matches(*final(c)),
        lru_keys(*old(c)).contains(k) ==> lru_order(*final(c)).len() > 0 && lru_order(*final(c))[0] == k,
{
    c.promote(&k);
}

/// Relies on `LruCache::pop`: removes a key.
#[verifier::external_body]
fn lru_pop(c: &mut LruCache<u64, ()>, k: u64)
    ensures
        lru_cap(*final(c)) == lru_cap(*old(c)),
        lru_keys(*final(c)) == lru_keys(*old(c)).remove(k),
        order_matches(*final(c)),
{
    c.pop(&k);
}

/// Relies on `LruCache::pop_lru`: removes the least recently used key.
#[verifier::external_body]
fn lru_pop_lru(c: &mut LruCache<u64, ()>) -> (r: Option<u64>)
    ensures
        lru_cap(*final(c)) == lru_cap(*old(c)),
        order_matches(*final(c)),
        match r {
            Some(k) => lru_keys(*old(c)).contains(k) && lru_keys(*final(c)) == lru_keys(*old(c)).remove(k),
            None => lru_keys(*old(c)) == Set::<u64>::empty() && lru_keys(*final(c)) == lru_keys(*old(c)),
        },
{
    c.pop_lru().map(|e| e.0)
}

/// The block cache: block id to block content.
pub type BlockCache = CacheTable<Vec<u8>>;

/// The inode cache: inode number to inode record.
pub type InodeCache = CacheTable<crate::inode::Attrs>;

/// A bounded cache from `u64` keys to values with a dirty flag.
pub struct CacheTable<V> {
    order: LruCache<u64, ()>,
    slots: HashMap<u64, (V, bool)>,
}

impl<V> CacheTable<V> {
    /// Each key's value and dirty flag.
    pub closed spec fn view(&self) -> Map<u64, (V, bool)> {
        self.slots@
    }

    /// How many entries the cache holds at most.
    pub closed spec fn capacity(&self) -> nat {
        lru_cap(self.order)
    }

    /// The most recently used key.
    pub closed spec fn recent(&self) -> u64 {
        lru_order(self.order)[0]
    }

    pub closed spec fn wf(&self) -> bool {
        &&& order_matches(self.order)
        &&& lru_keys(self.order) == self.slots@.dom()
        &&& self.slots@.dom().finite()
        &&& self.slots@.len() <= lru_cap(self.order)
        &&& lru_cap(self.order) > 0
    }

    /// A well-formed cache holds finitely many entries, at most its capacity.
    pub proof fn lemma_bounded(&self)
        requires
            self.wf(),
        ensures
            self@.dom().finite(),
            self@.len() <= self.capacity(),
    {
    }

    pub fn new(cap: usize) -> (r: CacheTable<V>)
        requires
            cap > 0,
        ensures
            r.wf(),
            r@ == Map::<u64, (V, bool)>::empty(),
            r.capacity() == cap,
    {
        let order = lru_new(cap);
        let slots: HashMap<u64, (V, bool)> = HashMap::new();
        let r = CacheTable { order, slots };
        assert(r.slots@.dom() =~= Set::<u64>::empty());
        r
    }

    /// Whether the cache holds any entry.
    pub fn contains_any(&self) -> (r: bool)
        requires
            self.wf(),
        ensures
            r == (self@.len() > 0),
    {
        proof {
            if self.slots@.len() == 0 {
                assert(self.slots@.dom() =~= Set::<u64>::empty());
            }
        }
        self.slots.len() > 0
    }

    pub fn contains(&self, k: u64) -> (r: bool)
        ensures
            r == self@.contains_key(k),
    {
        self.slots.contains_key(&k)
    }

    /// The value held for `k`, without touching the recency order.
    pub fn peek(&self, k: u64) -> (r: Option<&V>)
        ensures
            match r {
                Some(v) => self@.contains_key(k) && *v == self@[k].0,
                None => !self@.contains_key(k),
            },
    {
        match self.slots.get(&k) {
            Some(p) => Some(&p.0),
            None => None,
        }
    }

    /// Marks `k` most recently used.
    pub fn touch(&mut self, k: u64)
        requires
            old(self).wf(),
        ensures
            final(self).wf(),
            final(self)@ == old(self)@,
            final(self).capacity() == old(self).capacity(),
            old(self)@.contains_key(k) ==> final(self).recent() == k,
    {
        lru_promote(&mut self.order, k);
    }

    /// Stores `v` under `k`, replacing what `k` held. When the cache was full
    /// and `k` new, the least recently used entry leaves and is returned.
    pub fn put(&mut self, k: u64, v: V, dirty: bool) -> (r: Option<(u64, V, bool)>)
        requires
            old(self).wf(),
        ensures
            final(self).wf(),
            final(self).capacity() == old(self).capacity(),
            old(self)@.len() < old(self).capacity() ==> r is None,
            final(self).recent() == k,
            old(self).capacity() >= 2 && old(self)@.contains_key(old(self).recent()) && r is Some
                ==> r->Some_0.0 != old(self).recent(),
            match r {
                Some((ek, ev, ed)) => {
                    &&& ek != k
                    &&& !old(self)@.contains_key(k)
                    &&& old(self)@.contains_key(ek)
                    &&& old(self)@[ek] == (ev, ed)
                    &&& final(self)@ == old(self)@.remove(ek).insert(k, (v, dirty))
                },
                None => final(self)@ == old(self)@.insert(k, (v, dirty)),
            },
    {
        match lru_push(&mut self.order, k) {
            Some(ek) => {
                if ek == k {
                    self.slots.insert(k, (v, dirty));
                    proof {
                        assert(self.slots@.dom() =~= old(self).slots@.dom());
                    }
                    None
                } else {
                    let gone = self.slots.remove(&ek);
                    self.slots.insert(k, (v, dirty));
                    proof {
                        assert(self.slots@.dom() =~= old(self).slots@.dom().remove(ek).insert(k));
                        assert(lru_keys(self.order) =~= self.slots@.dom());
                    }
                    match gone {
                        Some(e) => Some((ek, e.0, e.1)),
                        None => None,
                    }
                }
            },
            None => {
                self.slots.insert(k, (v, dirty));
                proof {
                    assert(self.slots@.dom() =~= old(self).slots@.dom().insert(k));
                }
                None
            },
        }
    }

    /// Removes `k` and returns what it held.
    pub fn take(&mut self, k: u64) -> (r: Option<(V, bool)>)
        requires
            old(self).wf(),
        ensures
            final(self).wf(),
            final(self).capacity() == old(self).capacity(),
            final(self)@ == old(self)@.remove(k),
            match r {
                Some(e) => old(self)@.contains_key(k) && old(self)@[k] == e,
                None => !old(self)@.contains_key(k),
            },
    {
        lru_pop(&mut self.order, k);
        let r = self.slots.remove(&k);
        proof {
            assert(self.slots@.dom() =~= old(self).slots@.dom().remove(k));
        }
        r
    }

    /// Removes the least recently used entry and returns it; `None` when the
    /// cache is empty.
    pub fn pop_lru(&mut self) -> (r: Option<(u64, V, bool)>)
        requires
            old(self).wf(),
        ensures
            final(self).wf(),
            final(self).capacity() == old(self).capacity(),
            match r {
                Some((k, v, d)) => {
                    &&& old(self)@.contains_key(k)
                    &&& old(self)@[k] == (v, d)
                    &&& final(self)@ == old(self)@.remove(k)
                },
                None => old(self)@ == Map::<u64, (V, bool)>::empty() && final(self)@ == old(self)@,
            },
    {
        match lru_pop_lru(&mut self.order) {
            Some(k) => {
                let gone = self.slots.remove(&k);
                proof {
                    assert(self.slots@.dom() =~= old(self).slots@.dom().remove(k));
                }
                match gone {
                    Some(e) => Some((k, e.0, e.1)),
                    None => None,
                }
            },
            None => {
                assert(old(self)@ =~= Map::<u64, (V, bool)>::empty());
                None
            },
        }
    }
}

} // verus!
