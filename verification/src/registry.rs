//! In-memory registry: the subscription relation, the sorted deduplicated
//! event pool, and the eagerly invalidated lookup cache.

use vstd::prelude::*;

verus! {

/// The subscription relation, viewed mathematically: one entry per registrant,
/// pairing its name with the list of events it subscribes to.
pub type RelView = Seq<(Seq<char>, Seq<u64>)>;

/// The lookup cache, viewed mathematically: event keys paired with the
/// registrant list memoized for each of them.
pub type CacheView = Seq<(u64, Seq<Seq<char>>)>;

/// A sequence of events is strictly ascending: sorted and free of duplicates.
pub open spec fn sorted_strict(s: Seq<u64>) -> bool {
    forall|i: int, j: int| 0 <= i < j < s.len() ==> s[i] < s[j]
}

/// The registrants subscribed to `e`, in relation order.
pub open spec fn scan(rel: RelView, e: u64) -> Seq<Seq<char>>
    decreases rel.len(),
{
    if rel.len() == 0 {
        Seq::empty()
    } else if rel.last().1.contains(e) {
        scan(rel.drop_last(), e).push(rel.last().0)
    } else {
        scan(rel.drop_last(), e)
    }
}

/// Some registrant of `rel` subscribes to `e`.
pub open spec fn rel_has_event(rel: RelView, e: u64) -> bool {
    exists|i: int| 0 <= i < rel.len() && (#[trigger] rel[i]).1.contains(e)
}

/// No two entries share a registrant name.
pub open spec fn names_distinct(rel: RelView) -> bool {
    forall|i: int, j: int| 0 <= i < j < rel.len() ==> rel[i].0 != rel[j].0
}

/// Every entry subscribes to at least one event: empty subscriptions are
/// never represented.
pub open spec fn entries_nonempty(rel: RelView) -> bool {
    forall|i: int| 0 <= i < rel.len() ==> (#[trigger] rel[i]).1.len() > 0
}

/// `rel` has an entry for the registrant named `who`.
pub open spec fn has_name(rel: RelView, who: Seq<char>) -> bool {
    exists|i: int| 0 <= i < rel.len() && (#[trigger] rel[i]).0 == who
}

/// The index of the entry for `who`; meaningful only when `has_name` holds
/// and names are distinct.
pub open spec fn name_index(rel: RelView, who: Seq<char>) -> int {
    choose|i: int| 0 <= i < rel.len() && (#[trigger] rel[i]).0 == who
}

/// What registration does to the relation: extend the registrant's list in
/// place, or append a fresh entry; an empty event batch changes nothing.
pub open spec fn spec_register(rel: RelView, who: Seq<char>, evs: Seq<u64>) -> RelView {
    if evs.len() == 0 {
        rel
    } else if has_name(rel, who) {
        let i = name_index(rel, who);
        rel.update(i, (who, rel[i].1 + evs))
    } else {
        rel.push((who, evs))
    }
}

/// The cache after evicting every key that occurs in `evs`, keeping the
/// remaining entries in order.
pub open spec fn evict(cache: CacheView, evs: Seq<u64>) -> CacheView
    decreases cache.len(),
{
    if cache.len() == 0 {
        Seq::empty()
    } else if evs.contains(cache.last().0) {
        evict(cache.drop_last(), evs)
    } else {
        evict(cache.drop_last(), evs).push(cache.last())
    }
}

/// The entries of `rel` whose event list is nonempty, in order.
pub open spec fn keep_nonempty(rel: RelView) -> RelView
    decreases rel.len(),
{
    if rel.len() == 0 {
        Seq::empty()
    } else if rel.last().1.len() == 0 {
        keep_nonempty(rel.drop_last())
    } else {
        keep_nonempty(rel.drop_last()).push(rel.last())
    }
}

/// Every cached entry agrees exactly with a fresh scan of the relation, cache
/// keys are unique, and only nonempty results are memoized.
pub open spec fn cache_coherent(cache: CacheView, rel: RelView) -> bool {
    &&& forall|k: int, l: int| 0 <= k < l < cache.len() ==> cache[k].0 != cache[l].0
    &&& forall|k: int| 0 <= k < cache.len() ==> (#[trigger] cache[k]).1 == scan(rel, cache[k].0)
    &&& forall|k: int| 0 <= k < cache.len() ==> (#[trigger] cache[k]).1.len() > 0
}

/// The cache holds an entry for event `e`.
pub open spec fn cache_has(cache: CacheView, e: u64) -> bool {
    exists|k: int| 0 <= k < cache.len() && (#[trigger] cache[k]).0 == e
}

/// The pool holds exactly the events that occur somewhere in the relation.
pub open spec fn pool_matches(pool: Seq<u64>, rel: RelView) -> bool {
    &&& forall|e: u64| #[trigger] pool.contains(e) ==> rel_has_event(rel, e)
    &&& forall|e: u64| #[trigger] rel_has_event(rel, e) ==> pool.contains(e)
}

/// Whether `v` holds `x`.
fn vec_contains(v: &Vec<u64>, x: u64) -> (r: bool)
    ensures
        r == v@.contains(x),
{
    let mut i: usize = 0;
    while i < v.len()
        invariant
            i <= v@.len(),
            forall|j: int| 0 <= j < i ==> v@[j] != x,
        decreases v@.len() - i,
    {
        if v[i] == x {
            assert(v@.contains(x)) by {
                assert(v@[i as int] == x);
            }
            return true;
        }
        i += 1;
    }
    false
}

/// A copy of an event list.
fn copy_events(v: &Vec<u64>) -> (r: Vec<u64>)
    ensures
        r@ == v@,
{
    let mut r: Vec<u64> = Vec::new();
    let mut i: usize = 0;
    while i < v.len()
        invariant
            i <= v@.len(),
            r@ == v@.take(i as int),
        decreases v@.len() - i,
    {
        r.push(v[i]);
        proof {
            assert(v@.take(i + 1 as int) =~= v@.take(i as int).push(v@[i as int]));
        }
        i += 1;
    }
    proof {
        assert(v@.take(v@.len() as int) =~= v@);
    }
    r
}

/// A copy of a registrant list, equal entry by entry.
fn clone_names(v: &Vec<String>) -> (r: Vec<String>)
    ensures
        r@ == v@,
{
    let mut r: Vec<String> = Vec::new();
    let mut i: usize = 0;
    while i < v.len()
        invariant
            i <= v@.len(),
            r@ == v@.take(i as int),
        decreases v@.len() - i,
    {
        let s = v[i].clone();
        r.push(s);
        proof {
            assert(r@ =~= v@.take(i + 1 as int));
        }
        i += 1;
    }
    proof {
        assert(v@.take(v@.len() as int) =~= v@);
    }
    r
}

/// Insert `e` into a strictly sorted pool, keeping it sorted and duplicate
/// free; a present event leaves the pool unchanged.
fn pool_insert(pool: &mut Vec<u64>, e: u64)
    requires
        sorted_strict(old(pool)@),
    ensures
        sorted_strict(final(pool)@),
        forall|x: u64|
            #![trigger final(pool)@.contains(x)]
            #![trigger old(pool)@.contains(x)]
            final(pool)@.contains(x) <==> old(pool)@.contains(x) || x == e,
{
    let mut i: usize = 0;
    while i < pool.len() && pool[i] < e
        invariant
            i <= pool@.len(),
            pool@ == old(pool)@,
            forall|j: int| 0 <= j < i ==> pool@[j] < e,
        decreases pool@.len() - i,
    {
        i += 1;
    }
    if i < pool.len() {
        if pool[i] == e {
            proof {
                assert(pool@.contains(e)) by {
                    assert(pool@[i as int] == e);
                }
            }
            return ;
        }
    }
    pool.insert(i, e);
    proof {
        old(pool)@.insert_ensures(i as int, e);
        assert forall|a: int, b: int| 0 <= a < b < pool@.len() implies pool@[a] < pool@[b] by {
            let n = old(pool)@.len();
            if b < i {
            } else if a < i && b == i {
            } else if a < i && b > i {
                assert(pool@[b] == old(pool)@[b - 1]);
                if i < b - 1 {
                    assert(old(pool)@[i as int] < old(pool)@[b - 1]);
                }
            } else if a == i {
                assert(pool@[b] == old(pool)@[b - 1]);
                if i < b - 1 {
                    assert(old(pool)@[i as int] < old(pool)@[b - 1]);
                }
            } else {
                assert(pool@[a] == old(pool)@[a - 1]);
                assert(pool@[b] == old(pool)@[b - 1]);
            }
        }
        assert forall|x: u64| #[trigger] pool@.contains(x) implies old(pool)@.contains(x) || x == e by {
            let k = choose|k: int| 0 <= k < pool@.len() && pool@[k] == x;
            if k < i {
                assert(old(pool)@[k] == x);
                assert(old(pool)@.contains(x));
            } else if k > i {
                assert(old(pool)@[k - 1] == x);
                assert(old(pool)@.contains(x));
            }
        }
        assert forall|x: u64| old(pool)@.contains(x) || x == e implies #[trigger] pool@.contains(x) by {
            if x == e {
                assert(pool@[i as int] == x);
            } else {
                let k = choose|k: int| 0 <= k < old(pool)@.len() && old(pool)@[k] == x;
                if k < i {
                    assert(pool@[k] == x);
                } else {
                    assert(pool@[k + 1] == x);
                }
            }
        }
    }
}

/// Appending an entry to the relation adds exactly that entry's events.
proof fn lemma_rel_has_event_push(rel: RelView, entry: (Seq<char>, Seq<u64>), e: u64)
    ensures
        rel_has_event(rel.push(entry), e) <==> rel_has_event(rel, e) || entry.1.contains(e),
{
    let r2 = rel.push(entry);
    if rel_has_event(r2, e) {
        let i = choose|i: int| 0 <= i < r2.len() && (#[trigger] r2[i]).1.contains(e);
        if i < rel.len() {
            assert(rel[i] == r2[i]);
            assert(rel_has_event(rel, e));
        } else {
            assert(r2[i] == entry);
        }
    }
    if rel_has_event(rel, e) {
        let i = choose|i: int| 0 <= i < rel.len() && (#[trigger] rel[i]).1.contains(e);
        assert(r2[i] == rel[i]);
        assert(rel_has_event(r2, e));
    }
    if entry.1.contains(e) {
        assert(r2[rel.len() as int] == entry);
        assert(rel_has_event(r2, e));
    }
}

/// Unfolding `keep_nonempty` over an appended entry.
proof fn lemma_keep_nonempty_push(rel: RelView, entry: (Seq<char>, Seq<u64>))
    ensures
        keep_nonempty(rel.push(entry)) == if entry.1.len() == 0 {
            keep_nonempty(rel)
        } else {
            keep_nonempty(rel).push(entry)
        },
{
    assert(rel.push(entry).drop_last() =~= rel);
    assert(rel.push(entry).last() == entry);
}

/// Dropped empty entries carry no events: filtering them keeps the event set.
proof fn lemma_keep_nonempty_has_event(rel: RelView, e: u64)
    ensures
        rel_has_event(keep_nonempty(rel), e) <==> rel_has_event(rel, e),
    decreases rel.len(),
{
    if rel.len() == 0 {
    } else {
        let d = rel.drop_last();
        lemma_keep_nonempty_has_event(d, e);
        assert(rel =~= d.push(rel.last()));
        lemma_rel_has_event_push(d, rel.last(), e);
        if rel.last().1.len() == 0 {
        } else {
            lemma_rel_has_event_push(keep_nonempty(d), rel.last(), e);
        }
    }
}

/// Every name present after filtering was present before.
proof fn lemma_keep_nonempty_names(rel: RelView, who: Seq<char>)
    ensures
        has_name(keep_nonempty(rel), who) ==> has_name(rel, who),
    decreases rel.len(),
{
    if rel.len() == 0 {
    } else {
        let d = rel.drop_last();
        lemma_keep_nonempty_names(d, who);
        if has_name(keep_nonempty(rel), who) {
            let kn = keep_nonempty(rel);
            let k = choose|k: int| 0 <= k < kn.len() && (#[trigger] kn[k]).0 == who;
            if rel.last().1.len() == 0 {
                assert(has_name(keep_nonempty(d), who));
            } else {
                let knd = keep_nonempty(d);
                if k < knd.len() {
                    assert(knd[k] == kn[k]);
                    assert(has_name(knd, who));
                } else {
                    assert(kn[k] == rel.last());
                    assert(rel[rel.len() - 1].0 == who);
                    assert(has_name(rel, who));
                }
            }
            if has_name(d, who) {
                let i = choose|i: int| 0 <= i < d.len() && (#[trigger] d[i]).0 == who;
                assert(rel[i] == d[i]);
                assert(has_name(rel, who));
            }
        }
    }
}

/// Filtering the relation preserves distinctness of names.
proof fn lemma_keep_nonempty_distinct(rel: RelView)
    requires
        names_distinct(rel),
    ensures
        names_distinct(keep_nonempty(rel)),
    decreases rel.len(),
{
    if rel.len() == 0 {
    } else {
        let d = rel.drop_last();
        assert forall|i: int, j: int| 0 <= i < j < d.len() implies d[i].0 != d[j].0 by {
            assert(rel[i] == d[i]);
            assert(rel[j] == d[j]);
        }
        lemma_keep_nonempty_distinct(d);
        if rel.last().1.len() == 0 {
        } else {
            let knd = keep_nonempty(d);
            let kn = keep_nonempty(rel);
            assert forall|k: int, l: int| 0 <= k < l < kn.len() implies kn[k].0 != kn[l].0 by {
                if l < knd.len() {
                    assert(kn[k] == knd[k]);
                    assert(kn[l] == knd[l]);
                } else {
                    assert(kn[l] == rel.last());
                    assert(kn[k] == knd[k]);
                    assert(has_name(knd, knd[k].0)) by {
                        assert((knd[k]).0 == knd[k].0);
                    }
                    lemma_keep_nonempty_names(d, knd[k].0);
                    let i = choose|i: int| 0 <= i < d.len() && (#[trigger] d[i]).0 == knd[k].0;
                    assert(rel[i] == d[i]);
                    assert(rel[i].0 != rel[rel.len() - 1].0);
                }
            }
        }
    }
}

/// Filtering the relation keeps every remaining entry nonempty.
proof fn lemma_keep_nonempty_entries(rel: RelView)
    ensures
        entries_nonempty(keep_nonempty(rel)),
    decreases rel.len(),
{
    if rel.len() == 0 {
    } else {
        let d = rel.drop_last();
        lemma_keep_nonempty_entries(d);
        if rel.last().1.len() == 0 {
        } else {
            let knd = keep_nonempty(d);
            let kn = keep_nonempty(rel);
            assert forall|i: int| 0 <= i < kn.len() implies (#[trigger] kn[i]).1.len() > 0 by {
                if i < knd.len() {
                    assert(kn[i] == knd[i]);
                } else {
                    assert(kn[i] == rel.last());
                }
            }
        }
    }
}

/// The in-memory registry: the subscription relation, the sorted and
/// deduplicated event pool, and the memoized event-to-registrants cache.
///
/// Mutable state is owned by a single caller; concurrent mutation requires
/// external synchronization.
pub struct Registry {
    relation: Vec<(String, Vec<u64>)>,
    pool: Vec<u64>,
    cache: Vec<(u64, Vec<String>)>,
}

impl Registry {
    /// The subscription relation of this registry.
    pub closed spec fn rel(self) -> RelView {
        self.relation.deep_view()
    }

    /// The event pool of this registry.
    pub closed spec fn pool_view(self) -> Seq<u64> {
        self.pool@
    }

    /// The lookup cache of this registry.
    pub closed spec fn cache_view(self) -> CacheView {
        self.cache.deep_view()
    }

    /// Well-formedness: distinct registrants, no empty subscription lists, a
    /// strictly sorted pool holding exactly the relation's events, and a
    /// coherent cache.
    pub closed spec fn wf(self) -> bool {
        &&& names_distinct(self.rel())
        &&& entries_nonempty(self.rel())
        &&& sorted_strict(self.pool_view())
        &&& pool_matches(self.pool_view(), self.rel())
        &&& cache_coherent(self.cache_view(), self.rel())
    }

    /// Build a registry from an initial registrant-to-events map. Entries
    /// with an empty event list are not represented; the pool starts as the
    /// sorted deduplicated union of all given events; the cache starts empty.
    pub fn new(initial: Vec<(String, Vec<u64>)>) -> (r: Registry)
        requires
            names_distinct(initial.deep_view()),
        ensures
            r.wf(),
            r.rel() == keep_nonempty(initial.deep_view()),
            sorted_strict(r.pool_view()),
            pool_matches(r.pool_view(), initial.deep_view()),
            r.cache_view() == Seq::<(u64, Seq<Seq<char>>)>::empty(),
    {
        let ghost init_v = initial.deep_view();
        let mut relation: Vec<(String, Vec<u64>)> = Vec::new();
        let mut pool: Vec<u64> = Vec::new();
        let mut idx: usize = 0;
        while idx < initial.len()
            invariant
                idx <= initial@.len(),
                init_v == initial.deep_view(),
                init_v.len() == initial@.len(),
                relation.deep_view() == keep_nonempty(init_v.take(idx as int)),
                sorted_strict(pool@),
                pool_matches(pool@, init_v.take(idx as int)),
            decreases initial@.len() - idx,
        {
            proof {
                assert(init_v[idx as int] == initial@[idx as int].deep_view());
                assert(init_v[idx as int].1 =~= initial@[idx as int].1@);
                assert(init_v.take(idx + 1 as int) =~= init_v.take(idx as int).push(
                    init_v[idx as int],
                ));
                assert(init_v.take(idx + 1 as int)[idx as int] == init_v[idx as int]);
                lemma_keep_nonempty_push(init_v.take(idx as int), init_v[idx as int]);
                lemma_rel_has_event_push_all(init_v.take(idx as int), init_v[idx as int]);
            }
            let evs = copy_events(&initial[idx].1);
            if evs.len() > 0 {
                let name = initial[idx].0.clone();
                let ghost pool0 = pool@;
                let mut j: usize = 0;
                while j < evs.len()
                    invariant
                        j <= evs@.len(),
                        sorted_strict(pool@),
                        forall|x: u64|
                            #![trigger pool@.contains(x)]
                            pool@.contains(x) <==> pool0.contains(x) || evs@.take(j as int).contains(
                                x,
                            ),
                    decreases evs@.len() - j,
                {
                    let e = evs[j];
                    pool_insert(&mut pool, e);
                    proof {
                        assert(evs@.take(j + 1 as int) =~= evs@.take(j as int).push(e));
                        assert forall|x: u64| #[trigger] pool@.contains(x) implies pool0.contains(x)
                            || evs@.take(j + 1 as int).contains(x) by {
                            if x != e && !pool0.contains(x) {
                                assert(evs@.take(j as int).contains(x));
                                let k = choose|k: int|
                                    0 <= k < j && (#[trigger] evs@.take(j as int)[k]) == x;
                                assert(evs@.take(j + 1 as int)[k] == x);
                            } else if x == e {
                                assert(evs@.take(j + 1 as int)[j as int] == e);
                            }
                        }
                        assert forall|x: u64|
                            pool0.contains(x) || evs@.take(j + 1 as int).contains(x) implies #[trigger] pool@.contains(
                            x,
                        ) by {
                            if evs@.take(j + 1 as int).contains(x) {
                                let k = choose|k: int|
                                    0 <= k < j + 1 && (#[trigger] evs@.take(j + 1 as int)[k]) == x;
                                if k < j {
                                    assert(evs@.take(j as int)[k] == x);
                                    assert(evs@.take(j as int).contains(x));
                                }
                            }
                        }
                    }
                    j += 1;
                }
                relation.push((name, evs));
                proof {
                    assert(evs@.take(evs@.len() as int) =~= evs@);
                    assert(relation.deep_view() =~= keep_nonempty(init_v.take(idx as int)).push(
                        init_v[idx as int],
                    ));
                    assert(relation.deep_view() == keep_nonempty(init_v.take(idx + 1 as int)));
                    assert forall|e: u64| #[trigger] pool@.contains(e) implies rel_has_event(
                        init_v.take(idx + 1 as int),
                        e,
                    ) by {
                        if pool0.contains(e) {
                            assert(rel_has_event(init_v.take(idx as int), e));
                            let i = choose|i: int|
                                0 <= i < init_v.take(idx as int).len() && (#[trigger] init_v.take(
                                    idx as int,
                                )[i]).1.contains(e);
                            assert(init_v.take(idx + 1 as int)[i] == init_v.take(idx as int)[i]);
                            assert(rel_has_event(init_v.take(idx + 1 as int), e));
                        } else {
                            assert(evs@.contains(e));
                            assert(init_v.take(idx + 1 as int)[idx as int].1.contains(e));
                            assert(rel_has_event(init_v.take(idx + 1 as int), e));
                        }
                    }
                    assert forall|e: u64| #[trigger] rel_has_event(init_v.take(idx + 1 as int), e)
                        implies pool@.contains(e) by {
                        let i = choose|i: int|
                            0 <= i < init_v.take(idx + 1 as int).len() && (#[trigger] init_v.take(
                                idx + 1 as int,
                            )[i]).1.contains(e);
                        if i < idx {
                            assert(init_v.take(idx as int)[i] == init_v.take(idx + 1 as int)[i]);
                            assert(rel_has_event(init_v.take(idx as int), e));
                        } else {
                            assert(evs@.contains(e));
                        }
                    }
                }
            } else {
                proof {
                    assert(init_v[idx as int].1.len() == 0);
                    assert(relation.deep_view() == keep_nonempty(init_v.take(idx + 1 as int)));
                    assert forall|e: u64| #[trigger] rel_has_event(init_v.take(idx + 1 as int), e)
                        implies pool@.contains(e) by {
                        assert(rel_has_event(init_v.take(idx as int), e) || init_v[idx as int].1.contains(
                            e,
                        ));
                    }
                    assert forall|e: u64| #[trigger] pool@.contains(e) implies rel_has_event(
                        init_v.take(idx + 1 as int),
                        e,
                    ) by {
                        assert(rel_has_event(init_v.take(idx as int), e));
                        let i = choose|i: int|
                            0 <= i < init_v.take(idx as int).len() && (#[trigger] init_v.take(
                                idx as int,
                            )[i]).1.contains(e);
                        assert(init_v.take(idx + 1 as int)[i] == init_v.take(idx as int)[i]);
                    }
                }
            }
            idx += 1;
        }
        proof {
            assert(init_v.take(init_v.len() as int) =~= init_v);
            lemma_keep_nonempty_distinct(init_v);
            lemma_keep_nonempty_entries(init_v);
            assert forall|e: u64| #[trigger] pool@.contains(e) implies rel_has_event(
                keep_nonempty(init_v),
                e,
            ) by {
                lemma_keep_nonempty_has_event(init_v, e);
            }
            assert forall|e: u64| #[trigger] rel_has_event(keep_nonempty(init_v), e) implies pool@.contains(
                e,
            ) by {
                lemma_keep_nonempty_has_event(init_v, e);
            }
        }
        let r = Registry { relation, pool, cache: Vec::new() };
        proof {
            assert(r.cache_view() =~= Seq::<(u64, Seq<Seq<char>>)>::empty());
        }
        r
    }

    /// The deduplicated, sorted event pool; a pure read, so repeated calls
    /// with no intervening mutation return identical results.
    pub fn pool(&self) -> (r: Vec<u64>)
        ensures
            r@ == self.pool_view(),
    {
        copy_events(&self.pool)
    }

    /// How many entries the lookup cache currently holds.
    pub fn cache_len(&self) -> (n: usize)
        ensures
            n == self.cache_view().len(),
    {
        self.cache.len()
    }

    /// The registrants subscribed to `event`, in registration order. A cached
    /// entry is returned as is; otherwise the relation is scanned and, when at
    /// least one registrant matches, the result is memoized. The relation and
    /// the pool never change under a lookup.
    pub fn find_registrants_by_event(&mut self, event: u64) -> (r: Vec<String>)
        requires
            old(self).wf(),
        ensures
            final(self).wf(),
            r.deep_view() == scan(old(self).rel(), event),
            final(self).rel() == old(self).rel(),
            final(self).pool_view() == old(self).pool_view(),
            final(self).cache_view() == (if cache_has(old(self).cache_view(), event) || scan(
                old(self).rel(),
                event,
            ).len() == 0 {
                old(self).cache_view()
            } else {
                old(self).cache_view().push((event, scan(old(self).rel(), event)))
            }),
    {
        let mut k: usize = 0;
        while k < self.cache.len()
            invariant
                k <= self.cache@.len(),
                *self == *old(self),
                old(self).wf(),
                forall|l: int| 0 <= l < k ==> (#[trigger] self.cache_view()[l]).0 != event,
            decreases self.cache@.len() - k,
        {
            proof {
                assert(self.cache_view()[k as int] == self.cache@[k as int].deep_view());
            }
            if self.cache[k].0 == event {
                let r = clone_names(&self.cache[k].1);
                proof {
                    assert(cache_has(self.cache_view(), event)) by {
                        assert(self.cache_view()[k as int].0 == event);
                    }
                    assert(self.cache_view()[k as int].1 == scan(self.rel(), event));
                    assert(r.deep_view() =~= self.cache_view()[k as int].1);
                }
                return r;
            }
            k += 1;
        }
        proof {
            if cache_has(self.cache_view(), event) {
                let l = choose|l: int|
                    0 <= l < self.cache_view().len() && (#[trigger] self.cache_view()[l]).0
                        == event;
                assert(false);
            }
        }
        let ghost rel_v = self.rel();
        let mut r: Vec<String> = Vec::new();
        let mut i: usize = 0;
        while i < self.relation.len()
            invariant
                i <= self.relation@.len(),
                *self == *old(self),
                old(self).wf(),
                rel_v == self.rel(),
                rel_v.len() == self.relation@.len(),
                r.deep_view() == scan(rel_v.take(i as int), event),
            decreases self.relation@.len() - i,
        {
            proof {
                assert(rel_v[i as int] == self.relation@[i as int].deep_view());
                assert(rel_v[i as int].1 =~= self.relation@[i as int].1@);
                assert(rel_v.take(i + 1 as int) =~= rel_v.take(i as int).push(rel_v[i as int]));
                lemma_scan_push(rel_v.take(i as int), rel_v[i as int], event);
            }
            if vec_contains(&self.relation[i].1, event) {
                let s = self.relation[i].0.clone();
                r.push(s);
                proof {
                    assert(r.deep_view() =~= scan(rel_v.take(i + 1 as int), event));
                }
            }
            i += 1;
        }
        proof {
            assert(rel_v.take(rel_v.len() as int) =~= rel_v);
        }
        if r.len() > 0 {
            let names = clone_names(&r);
            let ghost cache0 = self.cache_view();
            self.cache.push((event, names));
            proof {
                assert(names.deep_view() =~= r.deep_view());
                assert(self.cache_view() =~= cache0.push((event, scan(rel_v, event))));
                assert(scan(rel_v, event).len() > 0);
                let c2 = self.cache_view();
                assert forall|a: int, b: int| 0 <= a < b < c2.len() implies c2[a].0 != c2[b].0 by {
                    if b < cache0.len() {
                        assert(c2[a] == cache0[a]);
                        assert(c2[b] == cache0[b]);
                    } else {
                        assert(c2[a] == cache0[a]);
                    }
                }
                assert forall|a: int| 0 <= a < c2.len() implies (#[trigger] c2[a]).1 == scan(
                    self.rel(),
                    c2[a].0,
                ) && c2[a].1.len() > 0 by {
                    if a < cache0.len() {
                        assert(c2[a] == cache0[a]);
                    }
                }
            }
        }
        r
    }

    /// Append `events` to `registrant`'s subscriptions (creating the entry if
    /// absent and the batch is nonempty), merge the events into the pool, and
    /// evict every cache key that occurs in `events`.
    pub fn register(&mut self, registrant: String, events: Vec<u64>)
        requires
            old(self).wf(),
        ensures
            final(self).wf(),
            final(self).rel() == spec_register(old(self).rel(), registrant@, events@),
            sorted_strict(final(self).pool_view()),
            forall|x: u64|
                #![trigger final(self).pool_view().contains(x)]
                #![trigger old(self).pool_view().contains(x)]
                final(self).pool_view().contains(x) <==> old(self).pool_view().contains(x)
                    || events@.contains(x),
            final(self).cache_view() == evict(old(self).cache_view(), events@),
    {
        let ghost rel0 = old(self).rel();
        let ghost cache0 = old(self).cache_view();
        if events.len() == 0 {
            proof {
                lemma_evict_none(cache0, events@);
            }
            return ;
        }
        let idx_opt = find_name_index(&self.relation, &registrant);
        let ghost relseq0 = self.relation@;
        match idx_opt {
            Some(i) => {
                let (name, mut list) = self.relation.remove(i);
                let ghost list0 = list@;
                let mut j: usize = 0;
                while j < events.len()
                    invariant
                        j <= events@.len(),
                        list@ == list0 + events@.take(j as int),
                    decreases events@.len() - j,
                {
                    list.push(events[j]);
                    proof {
                        assert(list0 + events@.take(j + 1 as int) =~= (list0 + events@.take(
                            j as int,
                        )).push(events@[j as int]));
                    }
                    j += 1;
                }
                self.relation.insert(i, (name, list));
                proof {
                    assert(events@.take(events@.len() as int) =~= events@);
                    assert(self.relation@ =~= relseq0.update(i as int, (name, list)));
                    assert(rel0[i as int] == relseq0[i as int].deep_view());
                    assert(has_name(rel0, registrant@)) by {
                        assert(rel0[i as int].0 == registrant@);
                    }
                    let i2 = name_index(rel0, registrant@);
                    assert(0 <= i2 < rel0.len() && rel0[i2].0 == registrant@);
                    assert(i2 == i) by {
                        if i2 != i {
                            assert(rel0[i2].0 != rel0[i as int].0);
                        }
                    }
                    assert(rel0[i as int].1 =~= list0);
                    assert(self.rel() =~= rel0.update(
                        i as int,
                        (registrant@, rel0[i as int].1 + events@),
                    )) by {
                        assert forall|l: int| 0 <= l < self.rel().len() implies self.rel()[l]
                            == rel0.update(i as int, (registrant@, rel0[i as int].1 + events@))[l] by {
                            assert(self.rel()[l] == self.relation@[l].deep_view());
                            if l == i {
                                assert(self.relation@[l] == (name, list));
                                assert(name@ == registrant@);
                                assert(list.deep_view() =~= rel0[i as int].1 + events@);
                            } else {
                                assert(self.relation@[l] == relseq0[l]);
                                assert(rel0[l] == relseq0[l].deep_view());
                            }
                        }
                    }
                    assert(self.rel() == spec_register(rel0, registrant@, events@));
                }
            },
            None => {
                let evs2 = copy_events(&events);
                self.relation.push((registrant, evs2));
                proof {
                    assert(self.rel() =~= rel0.push((registrant@, events@))) by {
                        assert forall|l: int| 0 <= l < self.rel().len() implies self.rel()[l]
                            == rel0.push((registrant@, events@))[l] by {
                            assert(self.rel()[l] == self.relation@[l].deep_view());
                            if l < relseq0.len() {
                                assert(self.relation@[l] == relseq0[l]);
                                assert(rel0[l] == relseq0[l].deep_view());
                            } else {
                                assert(evs2.deep_view() =~= events@);
                            }
                        }
                    }
                    assert(self.rel() == spec_register(rel0, registrant@, events@));
                }
            },
        }
        let ghost rel2 = self.rel();
        let ghost pool0 = self.pool@;
        let mut j: usize = 0;
        while j < events.len()
            invariant
                j <= events@.len(),
                rel2 == self.rel(),
                self.cache@ == old(self).cache@,
                sorted_strict(self.pool@),
                forall|x: u64|
                    #![trigger self.pool@.contains(x)]
                    self.pool@.contains(x) <==> pool0.contains(x) || events@.take(
                        j as int,
                    ).contains(x),
            decreases events@.len() - j,
        {
            let e = events[j];
            pool_insert(&mut self.pool, e);
            proof {
                assert(events@.take(j + 1 as int) =~= events@.take(j as int).push(e));
                assert forall|x: u64| #[trigger] self.pool@.contains(x) implies pool0.contains(x)
                    || events@.take(j + 1 as int).contains(x) by {
                    if x != e && !pool0.contains(x) {
                        assert(events@.take(j as int).contains(x));
                        let k = choose|k: int|
                            0 <= k < j && (#[trigger] events@.take(j as int)[k]) == x;
                        assert(events@.take(j + 1 as int)[k] == x);
                    } else if x == e {
                        assert(events@.take(j + 1 as int)[j as int] == e);
                    }
                }
                assert forall|x: u64|
                    pool0.contains(x) || events@.take(j + 1 as int).contains(
                        x,
                    ) implies #[trigger] self.pool@.contains(x) by {
                    if events@.take(j + 1 as int).contains(x) {
                        let k = choose|k: int|
                            0 <= k < j + 1 && (#[trigger] events@.take(j + 1 as int)[k]) == x;
                        if k < j {
                            assert(events@.take(j as int)[k] == x);
                            assert(events@.take(j as int).contains(x));
                        }
                    }
                }
            }
            j += 1;
        }
        proof {
            assert(events@.take(events@.len() as int) =~= events@);
        }
        let mut kept: Vec<(u64, Vec<String>)> = Vec::new();
        let mut k: usize = 0;
        while k < self.cache.len()
            invariant
                k <= self.cache@.len(),
                self.cache@ == old(self).cache@,
                cache0 == self.cache_view(),
                cache0.len() == self.cache@.len(),
                kept.deep_view() == evict(cache0.take(k as int), events@),
            decreases self.cache@.len() - k,
        {
            proof {
                assert(cache0[k as int] == self.cache@[k as int].deep_view());
                assert(cache0.take(k + 1 as int) =~= cache0.take(k as int).push(cache0[k as int]));
                lemma_evict_push(cache0.take(k as int), cache0[k as int], events@);
            }
            let key = self.cache[k].0;
            if !vec_contains(&events, key) {
                let names = clone_names(&self.cache[k].1);
                kept.push((key, names));
                proof {
                    assert(names.deep_view() =~= cache0[k as int].1);
                    assert(kept.deep_view() =~= evict(cache0.take(k + 1 as int), events@));
                }
            }
            k += 1;
        }
        self.cache = kept;
        proof {
            assert(cache0.take(cache0.len() as int) =~= cache0);
            lemma_register_has_event_all(rel0, registrant@, events@);
            // Well-formedness of the updated registry.
            assert(names_distinct(rel2)) by {
                if has_name(rel0, registrant@) {
                    let i = name_index(rel0, registrant@);
                    assert forall|a: int, b: int| 0 <= a < b < rel2.len() implies rel2[a].0
                        != rel2[b].0 by {
                        assert(rel2[a].0 == rel0[a].0);
                        assert(rel2[b].0 == rel0[b].0);
                    }
                } else {
                    assert forall|a: int, b: int| 0 <= a < b < rel2.len() implies rel2[a].0
                        != rel2[b].0 by {
                        if b < rel0.len() {
                            assert(rel2[a] == rel0[a]);
                            assert(rel2[b] == rel0[b]);
                        } else {
                            assert(rel2[a] == rel0[a]);
                            assert(rel2[b].0 == registrant@);
                            if rel0[a].0 == registrant@ {
                                assert(has_name(rel0, registrant@));
                            }
                        }
                    }
                }
            }
            assert(entries_nonempty(rel2)) by {
                assert forall|a: int| 0 <= a < rel2.len() implies (#[trigger] rel2[a]).1.len()
                    > 0 by {
                    if has_name(rel0, registrant@) {
                        let i = name_index(rel0, registrant@);
                        if a != i {
                            assert(rel2[a] == rel0[a]);
                        }
                    } else {
                        if a < rel0.len() {
                            assert(rel2[a] == rel0[a]);
                        }
                    }
                }
            }
            assert(pool_matches(self.pool@, rel2)) by {
                assert forall|e: u64| #[trigger] self.pool@.contains(e) implies rel_has_event(
                    rel2,
                    e,
                ) by {
                    assert(pool0.contains(e) || events@.contains(e));
                }
                assert forall|e: u64| #[trigger] rel_has_event(rel2, e) implies self.pool@.contains(
                    e,
                ) by {
                    assert(rel_has_event(rel0, e) || events@.contains(e));
                }
            }
            assert(cache_coherent(self.cache_view(), rel2)) by {
                let c2 = self.cache_view();
                assert forall|a: int, b: int| 0 <= a < b < c2.len() implies c2[a].0 != c2[b].0 by {
                    lemma_evict_distinct(cache0, events@);
                }
                assert forall|a: int| 0 <= a < c2.len() implies (#[trigger] c2[a]).1 == scan(
                    rel2,
                    c2[a].0,
                ) && c2[a].1.len() > 0 by {
                    lemma_evict_entry(cache0, events@, a);
                    let i = choose|i: int| 0 <= i < cache0.len() && (#[trigger] cache0[i]) == c2[a];
                    lemma_scan_after_register(rel0, registrant@, events@, c2[a].0);
                }
            }
        }
    }
}

/// Look up the entry index for a registrant name.
fn find_name_index(rel: &Vec<(String, Vec<u64>)>, who: &String) -> (r: Option<usize>)
    ensures
        match r {
            Some(i) => 0 <= i < rel.deep_view().len() && rel.deep_view()[i as int].0 == who@,
            None => !has_name(rel.deep_view(), who@),
        },
{
    let mut i: usize = 0;
    while i < rel.len()
        invariant
            i <= rel@.len(),
            forall|j: int| 0 <= j < i ==> (#[trigger] rel.deep_view()[j]).0 != who@,
        decreases rel@.len() - i,
    {
        proof {
            assert(rel.deep_view()[i as int] == rel@[i as int].deep_view());
        }
        if rel[i].0 == *who {
            return Some(i);
        }
        i += 1;
    }
    proof {
        if has_name(rel.deep_view(), who@) {
            let j = choose|j: int|
                0 <= j < rel.deep_view().len() && (#[trigger] rel.deep_view()[j]).0 == who@;
            assert(false);
        }
    }
    None
}

/// Unfolding `scan` over an appended entry.
proof fn lemma_scan_push(rel: RelView, entry: (Seq<char>, Seq<u64>), e: u64)
    ensures
        scan(rel.push(entry), e) == if entry.1.contains(e) {
            scan(rel, e).push(entry.0)
        } else {
            scan(rel, e)
        },
{
    assert(rel.push(entry).drop_last() =~= rel);
    assert(rel.push(entry).last() == entry);
}

/// Unfolding `evict` over an appended entry.
proof fn lemma_evict_push(cache: CacheView, entry: (u64, Seq<Seq<char>>), evs: Seq<u64>)
    ensures
        evict(cache.push(entry), evs) == if evs.contains(entry.0) {
            evict(cache, evs)
        } else {
            evict(cache, evs).push(entry)
        },
{
    assert(cache.push(entry).drop_last() =~= cache);
    assert(cache.push(entry).last() == entry);
}

/// An empty eviction batch leaves the cache unchanged.
proof fn lemma_evict_none(cache: CacheView, evs: Seq<u64>)
    requires
        evs.len() == 0,
    ensures
        evict(cache, evs) == cache,
    decreases cache.len(),
{
    if cache.len() == 0 {
        assert(evict(cache, evs) =~= cache);
    } else {
        lemma_evict_none(cache.drop_last(), evs);
        assert(!evs.contains(cache.last().0));
        assert(evict(cache, evs) =~= cache);
    }
}

/// Every surviving cache entry was present before the eviction and its key is
/// not among the evicted events.
proof fn lemma_evict_entry(cache: CacheView, evs: Seq<u64>, k: int)
    requires
        0 <= k < evict(cache, evs).len(),
    ensures
        !evs.contains(evict(cache, evs)[k].0),
        exists|i: int| 0 <= i < cache.len() && (#[trigger] cache[i]) == evict(cache, evs)[k],
    decreases cache.len(),
{
    if cache.len() == 0 {
    } else {
        let d = cache.drop_last();
        if evs.contains(cache.last().0) {
            lemma_evict_entry(d, evs, k);
            let i = choose|i: int| 0 <= i < d.len() && (#[trigger] d[i]) == evict(d, evs)[k];
            assert(cache[i] == d[i]);
        } else {
            if k < evict(d, evs).len() {
                lemma_evict_entry(d, evs, k);
                let i = choose|i: int| 0 <= i < d.len() && (#[trigger] d[i]) == evict(d, evs)[k];
                assert(cache[i] == d[i]);
                assert(evict(cache, evs)[k] == evict(d, evs)[k]);
            } else {
                assert(evict(cache, evs)[k] == cache.last());
                assert(cache[cache.len() - 1] == cache.last());
            }
        }
    }
}

/// Eviction preserves distinctness of cache keys.
proof fn lemma_evict_distinct(cache: CacheView, evs: Seq<u64>)
    requires
        forall|k: int, l: int| 0 <= k < l < cache.len() ==> cache[k].0 != cache[l].0,
    ensures
        forall|k: int, l: int|
            0 <= k < l < evict(cache, evs).len() ==> evict(cache, evs)[k].0 != evict(
                cache,
                evs,
            )[l].0,
    decreases cache.len(),
{
    if cache.len() == 0 {
    } else {
        let d = cache.drop_last();
        assert forall|a: int, b: int| 0 <= a < b < d.len() implies d[a].0 != d[b].0 by {
            assert(cache[a] == d[a]);
            assert(cache[b] == d[b]);
        }
        lemma_evict_distinct(d, evs);
        if !evs.contains(cache.last().0) {
            let ev = evict(cache, evs);
            assert forall|k: int, l: int| 0 <= k < l < ev.len() implies ev[k].0 != ev[l].0 by {
                if l < evict(d, evs).len() {
                    assert(ev[k] == evict(d, evs)[k]);
                    assert(ev[l] == evict(d, evs)[l]);
                } else {
                    assert(ev[l] == cache.last());
                    assert(ev[k] == evict(d, evs)[k]);
                    lemma_evict_entry(d, evs, k);
                    let i = choose|i: int|
                        0 <= i < d.len() && (#[trigger] d[i]) == evict(d, evs)[k];
                    assert(cache[i] == d[i]);
                    assert(cache[i].0 != cache[cache.len() - 1].0);
                }
            }
        }
    }
}

/// Scanning is unchanged when one entry's list and name are replaced by an
/// equivalent pair: same name, and membership of `e` preserved.
proof fn lemma_scan_update(rel: RelView, i: int, entry: (Seq<char>, Seq<u64>), e: u64)
    requires
        0 <= i < rel.len(),
        entry.0 == rel[i].0,
        entry.1.contains(e) <==> rel[i].1.contains(e),
    ensures
        scan(rel.update(i, entry), e) == scan(rel, e),
    decreases rel.len(),
{
    let r2 = rel.update(i, entry);
    if i == rel.len() - 1 {
        assert(r2.drop_last() =~= rel.drop_last());
        assert(r2.last() == entry);
    } else {
        assert(r2.last() == rel.last());
        assert(r2.drop_last() =~= rel.drop_last().update(i, entry));
        assert(rel.drop_last()[i] == rel[i]);
        lemma_scan_update(rel.drop_last(), i, entry, e);
    }
}

/// Scanning for an event outside the registered batch is unchanged by the
/// registration.
proof fn lemma_scan_after_register(rel: RelView, who: Seq<char>, evs: Seq<u64>, e: u64)
    requires
        !evs.contains(e),
    ensures
        scan(spec_register(rel, who, evs), e) == scan(rel, e),
{
    if evs.len() == 0 {
    } else if has_name(rel, who) {
        let i = name_index(rel, who);
        assert(0 <= i < rel.len() && rel[i].0 == who);
        let entry = (who, rel[i].1 + evs);
        assert(entry.1.contains(e) <==> rel[i].1.contains(e)) by {
            if entry.1.contains(e) {
                let k = choose|k: int| 0 <= k < entry.1.len() && entry.1[k] == e;
                if k < rel[i].1.len() {
                    assert(rel[i].1[k] == e);
                } else {
                    assert(evs[k - rel[i].1.len()] == e);
                    assert(evs.contains(e));
                }
            }
            if rel[i].1.contains(e) {
                let k = choose|k: int| 0 <= k < rel[i].1.len() && rel[i].1[k] == e;
                assert(entry.1[k] == e);
            }
        }
        lemma_scan_update(rel, i, entry, e);
    } else {
        lemma_scan_push(rel, (who, evs), e);
    }
}

/// Registration adds exactly the batch's events to the relation's event set.
proof fn lemma_register_has_event(rel: RelView, who: Seq<char>, evs: Seq<u64>, e: u64)
    requires
        evs.len() > 0,
    ensures
        rel_has_event(spec_register(rel, who, evs), e) <==> rel_has_event(rel, e) || evs.contains(
            e,
        ),
{
    if has_name(rel, who) {
        let i = name_index(rel, who);
        assert(0 <= i < rel.len() && rel[i].0 == who);
        let entry = (who, rel[i].1 + evs);
        let r2 = rel.update(i, entry);
        if rel_has_event(r2, e) {
            let a = choose|a: int| 0 <= a < r2.len() && (#[trigger] r2[a]).1.contains(e);
            if a != i {
                assert(rel[a] == r2[a]);
                assert(rel_has_event(rel, e));
            } else {
                let k = choose|k: int| 0 <= k < entry.1.len() && entry.1[k] == e;
                if k < rel[i].1.len() {
                    assert(rel[i].1[k] == e);
                    assert(rel[i].1.contains(e));
                    assert(rel_has_event(rel, e));
                } else {
                    assert(evs[k - rel[i].1.len()] == e);
                    assert(evs.contains(e));
                }
            }
        }
        if rel_has_event(rel, e) {
            let a = choose|a: int| 0 <= a < rel.len() && (#[trigger] rel[a]).1.contains(e);
            if a != i {
                assert(r2[a] == rel[a]);
                assert(rel_has_event(r2, e));
            } else {
                let k = choose|k: int| 0 <= k < rel[i].1.len() && rel[i].1[k] == e;
                assert(entry.1[k] == e);
                assert(r2[i].1.contains(e));
                assert(rel_has_event(r2, e));
            }
        }
        if evs.contains(e) {
            let k = choose|k: int| 0 <= k < evs.len() && evs[k] == e;
            assert(entry.1[rel[i].1.len() + k] == e);
            assert(r2[i].1.contains(e));
            assert(rel_has_event(r2, e));
        }
    } else {
        lemma_rel_has_event_push(rel, (who, evs), e);
    }
}

/// A strictly sorted sequence drops exactly its last (greatest) element.
proof fn lemma_sorted_drop_last(a: Seq<u64>)
    requires
        sorted_strict(a),
        a.len() > 0,
    ensures
        sorted_strict(a.drop_last()),
        forall|x: u64|
            #[trigger] a.drop_last().contains(x) <==> a.contains(x) && x != a.last(),
{
    let d = a.drop_last();
    assert forall|x: u64| #[trigger] d.contains(x) implies a.contains(x) && x != a.last() by {
        let k = choose|k: int| 0 <= k < d.len() && d[k] == x;
        assert(a[k] == x);
        assert(a.contains(x));
        assert(a[k] < a[a.len() - 1]);
    }
    assert forall|x: u64| a.contains(x) && x != a.last() implies #[trigger] d.contains(x) by {
        let k = choose|k: int| 0 <= k < a.len() && a[k] == x;
        assert(k < a.len() - 1);
        assert(d[k] == x);
    }
}

/// The sorted deduplicated form of an event set is unique: two strictly
/// sorted sequences holding the same events are equal. Together with the
/// pool's contract this pins the pool to sorted(dedup(E)).
pub proof fn lemma_sorted_dedup_unique(a: Seq<u64>, b: Seq<u64>)
    requires
        sorted_strict(a),
        sorted_strict(b),
        forall|x: u64|
            #![trigger a.contains(x)]
            #![trigger b.contains(x)]
            a.contains(x) <==> b.contains(x),
    ensures
        a == b,
    decreases a.len(),
{
    if a.len() == 0 {
        if b.len() > 0 {
            assert(b.contains(b[0]));
            assert(a.contains(b[0]));
            let k = choose|k: int| 0 <= k < a.len() && a[k] == b[0];
            assert(false);
        }
        assert(a =~= b);
    } else {
        assert(a.contains(a.last())) by {
            assert(a[a.len() - 1] == a.last());
        }
        if b.len() == 0 {
            assert(b.contains(a.last()));
            let k = choose|k: int| 0 <= k < b.len() && b[k] == a.last();
            assert(false);
        }
        assert(b.contains(b.last())) by {
            assert(b[b.len() - 1] == b.last());
        }
        assert(b.contains(a.last()));
        assert(a.contains(b.last()));
        let i = choose|i: int| 0 <= i < b.len() && b[i] == a.last();
        let j = choose|j: int| 0 <= j < a.len() && a[j] == b.last();
        assert(b[i] <= b.last()) by {
            if i < b.len() - 1 {
                assert(b[i] < b[b.len() - 1]);
            }
        }
        assert(a[j] <= a.last()) by {
            if j < a.len() - 1 {
                assert(a[j] < a[a.len() - 1]);
            }
        }
        assert(a.last() == b.last());
        lemma_sorted_drop_last(a);
        lemma_sorted_drop_last(b);
        lemma_sorted_dedup_unique(a.drop_last(), b.drop_last());
        assert(a =~= b) by {
            assert(a == a.drop_last().push(a.last())) by {
                assert(a =~= a.drop_last().push(a.last()));
            }
            assert(b =~= b.drop_last().push(b.last()));
        }
    }
}

/// An event no registrant subscribes to scans to the empty result: a lookup
/// before any registration including the event returns empty.
pub proof fn lemma_unsubscribed_scans_empty(rel: RelView, e: u64)
    requires
        !rel_has_event(rel, e),
    ensures
        scan(rel, e).len() == 0,
    decreases rel.len(),
{
    if rel.len() == 0 {
    } else {
        let d = rel.drop_last();
        assert(!rel_has_event(d, e)) by {
            if rel_has_event(d, e) {
                let i = choose|i: int| 0 <= i < d.len() && (#[trigger] d[i]).1.contains(e);
                assert(rel[i] == d[i]);
                assert(rel_has_event(rel, e));
            }
        }
        assert(!rel.last().1.contains(e)) by {
            if rel.last().1.contains(e) {
                assert((#[trigger] rel[rel.len() - 1]).1.contains(e));
                assert(rel_has_event(rel, e));
            }
        }
        lemma_unsubscribed_scans_empty(d, e);
    }
}

/// A registrant whose list holds `e` appears in the scan for `e`.
proof fn lemma_scan_contains_name(rel: RelView, i: int, e: u64)
    requires
        0 <= i < rel.len(),
        rel[i].1.contains(e),
    ensures
        scan(rel, e).contains(rel[i].0),
    decreases rel.len(),
{
    if i == rel.len() - 1 {
        assert(rel.last() == rel[i]);
        let s = scan(rel, e);
        assert(s[s.len() - 1] == rel[i].0);
        assert(s.contains(rel[i].0));
    } else {
        assert(rel.drop_last()[i] == rel[i]);
        lemma_scan_contains_name(rel.drop_last(), i, e);
        let s = scan(rel.drop_last(), e);
        let k = choose|k: int| 0 <= k < s.len() && s[k] == rel[i].0;
        assert(scan(rel, e)[k] == rel[i].0);
        assert(scan(rel, e).contains(rel[i].0));
    }
}

/// After registering a batch holding event `e` for registrant `who`, a scan
/// for `e` lists `who`, and `e` belongs to the relation's event set (hence,
/// by the registry's contracts, to the pool).
pub proof fn lemma_register_subscribes(rel: RelView, who: Seq<char>, evs: Seq<u64>, e: u64)
    requires
        evs.contains(e),
    ensures
        scan(spec_register(rel, who, evs), e).contains(who),
        rel_has_event(spec_register(rel, who, evs), e),
{
    let k = choose|k: int| 0 <= k < evs.len() && evs[k] == e;
    assert(evs.len() > 0);
    lemma_register_has_event(rel, who, evs, e);
    let r2 = spec_register(rel, who, evs);
    if has_name(rel, who) {
        let i = name_index(rel, who);
        assert(0 <= i < rel.len() && rel[i].0 == who);
        assert(r2[i] == (who, rel[i].1 + evs));
        assert(r2[i].1[rel[i].1.len() + k] == e);
        assert(r2[i].1.contains(e));
        lemma_scan_contains_name(r2, i, e);
    } else {
        assert(r2[rel.len() as int] == (who, evs));
        assert(r2[rel.len() as int].1.contains(e));
        lemma_scan_contains_name(r2, rel.len() as int, e);
    }
}

/// Cache coherence: in a well-formed registry every cached entry equals what
/// a fresh scan of the relation produces for its key — never a stale value.
pub proof fn lemma_cache_entry_current(r: Registry, k: int)
    requires
        r.wf(),
        0 <= k < r.cache_view().len(),
    ensures
        r.cache_view()[k].1 == scan(r.rel(), r.cache_view()[k].0),
        r.cache_view()[k].1.len() > 0,
{
    assert((#[trigger] r.cache_view()[k]).1 == scan(r.rel(), r.cache_view()[k].0));
}

/// `lemma_register_has_event`, stated for all events.
proof fn lemma_register_has_event_all(rel: RelView, who: Seq<char>, evs: Seq<u64>)
    requires
        evs.len() > 0,
    ensures
        forall|e: u64|
            #[trigger] rel_has_event(spec_register(rel, who, evs), e) <==> rel_has_event(rel, e)
                || evs.contains(e),
{
    assert forall|e: u64|
        #[trigger] rel_has_event(spec_register(rel, who, evs), e) <==> rel_has_event(rel, e)
            || evs.contains(e) by {
        lemma_register_has_event(rel, who, evs, e);
    }
}

/// Both directions of `lemma_rel_has_event_push`, stated for all events.
proof fn lemma_rel_has_event_push_all(rel: RelView, entry: (Seq<char>, Seq<u64>))
    ensures
        forall|e: u64|
            #[trigger] rel_has_event(rel.push(entry), e) <==> rel_has_event(rel, e)
                || entry.1.contains(e),
{
    assert forall|e: u64|
        #[trigger] rel_has_event(rel.push(entry), e) <==> rel_has_event(rel, e)
            || entry.1.contains(e) by {
        lemma_rel_has_event_push(rel, entry, e);
    }
}

} // verus!
