//! Which route a conversation used last, and which conversations are being compacted.
use std::collections::VecDeque;
use crate::json::string_view;
use crate::local_router::errors::{Failure, FailureV, fail};
use crate::text::{has_prefix, list_has, listed, starts_with, texts, texts_push};
use crate::textmap::{
    TextMap, distinct, distinct_after_remove, distinct_after_set, lookup, lookup_at, lookup_place,
    remove_then_look, set_then_look, with_key, without_key,
};
use vstd::prelude::*;

verus! {

/// How many conversations are remembered.
pub const MAX_ROUTE_BINDINGS: usize = 4096;

/// The route that a conversation used last.
#[derive(Debug)]
pub struct RouteBinding {
    pub provider_id: String,
    pub generation: u64,
}

impl View for RouteBinding {
    type V = (Seq<char>, u64);

    open spec fn view(&self) -> (Seq<char>, u64) {
        (self.provider_id@, self.generation)
    }
}

/// The bindings of a router.
pub struct RouteBindings {
    pub compacting: Vec<String>,
    pub routes: TextMap<RouteBinding>,
    pub order: VecDeque<(String, u64)>,
    pub next_generation: u64,
}

/// The bindings by key, when each was made, and the number of the last one.
#[verifier::ext_equal]
pub struct BindingsV {
    pub routes: Seq<(Seq<char>, (Seq<char>, u64))>,
    pub order: Seq<(Seq<char>, u64)>,
    pub generation: u64,
}

pub open spec fn order_view(order: Seq<(String, u64)>) -> Seq<(Seq<char>, u64)> {
    Seq::new(order.len(), |i: int| (order[i].0@, order[i].1))
}

/// The route of the first key that is bound.
pub open spec fn first_bound(
    routes: Seq<(Seq<char>, (Seq<char>, u64))>,
    keys: Seq<Seq<char>>,
) -> Option<Seq<char>>
    decreases keys.len(),
{
    if keys.len() == 0 {
        None
    } else {
        match lookup(routes, keys[0]) {
            Some((provider_id, _)) => Some(provider_id),
            None => first_bound(routes, keys.subrange(1, keys.len() as int)),
        }
    }
}

/// A session's binding stays unless it is to be refreshed.
pub open spec fn stays(
    routes: Seq<(Seq<char>, (Seq<char>, u64))>,
    key: Seq<char>,
    refresh_session_binding: bool,
) -> bool {
    starts_with(key, "session-id:"@) && lookup(routes, key) is Some && !refresh_session_binding
}

/// One more key is bound.
pub open spec fn bind_one(
    b: BindingsV,
    key: Seq<char>,
    provider_id: Seq<char>,
    refresh_session_binding: bool,
) -> BindingsV {
    if stays(b.routes, key, refresh_session_binding) {
        b
    } else {
        let g = wrapped_next(b.generation);
        BindingsV {
            routes: with_key(b.routes, key, (provider_id, g)),
            order: b.order.push((key, g)),
            generation: g,
        }
    }
}

/// The next number; after the largest comes zero.
pub open spec fn wrapped_next(n: u64) -> u64 {
    if n == u64::MAX {
        0
    } else {
        (n + 1) as u64
    }
}

/// The first keys of a list are bound.
pub open spec fn bind_keys(
    b: BindingsV,
    keys: Seq<Seq<char>>,
    provider_id: Seq<char>,
    refresh_session_binding: bool,
    n: int,
) -> BindingsV
    decreases n,
{
    if n <= 0 {
        b
    } else {
        bind_one(
            bind_keys(b, keys, provider_id, refresh_session_binding, n - 1),
            keys[n - 1],
            provider_id,
            refresh_session_binding,
        )
    }
}

/// The entry of the order is that of the key's present binding.
pub open spec fn is_live(routes: Seq<(Seq<char>, (Seq<char>, u64))>, entry: (Seq<char>, u64)) -> bool {
    lookup(routes, entry.0) matches Some((_, g)) && g == entry.1
}

/// The oldest bindings are given up until few enough are left.
pub open spec fn evicted(
    routes: Seq<(Seq<char>, (Seq<char>, u64))>,
    order: Seq<(Seq<char>, u64)>,
) -> (Seq<(Seq<char>, (Seq<char>, u64))>, Seq<(Seq<char>, u64)>)
    decreases order.len(),
{
    if routes.len() <= MAX_ROUTE_BINDINGS || order.len() == 0 {
        (routes, order)
    } else if is_live(routes, order[0]) {
        evicted(without_key(routes, order[0].0), order.subrange(1, order.len() as int))
    } else {
        evicted(routes, order.subrange(1, order.len() as int))
    }
}

/// The entries of the order that are those of present bindings.
pub open spec fn live_only(
    routes: Seq<(Seq<char>, (Seq<char>, u64))>,
    order: Seq<(Seq<char>, u64)>,
) -> Seq<(Seq<char>, u64)>
    decreases order.len(),
{
    if order.len() == 0 {
        order
    } else {
        let rest = live_only(routes, order.drop_last());
        if is_live(routes, order.last()) {
            rest.push(order.last())
        } else {
            rest
        }
    }
}

/// The bindings after a request. Entries that no longer count are dropped from the order once it
/// has grown long.
pub open spec fn remembered(
    b: BindingsV,
    keys: Seq<Seq<char>>,
    provider_id: Seq<char>,
    refresh_session_binding: bool,
) -> BindingsV {
    let bound = bind_keys(b, keys, provider_id, refresh_session_binding, keys.len() as int);
    let (routes, order) = evicted(bound.routes, bound.order);
    BindingsV {
        routes,
        order: if order.len() > MAX_ROUTE_BINDINGS * 4 {
            live_only(routes, order)
        } else {
            order
        },
        generation: bound.generation,
    }
}

/// Every binding has its entry in the order.
pub open spec fn covered(b: BindingsV) -> bool {
    forall|i: int|
        0 <= i < b.routes.len() ==> b.order.contains(
            ((#[trigger] b.routes[i]).0, b.routes[i].1.1),
        )
}

impl RouteBindings {
    pub open spec fn state(&self) -> BindingsV {
        BindingsV {
            routes: self.routes@,
            order: order_view(self.order@),
            generation: self.next_generation,
        }
    }

    pub open spec fn inv(&self) -> bool {
        self.routes.inv()
    }

    pub fn new() -> (r: RouteBindings)
        ensures
            r.inv(),
            r.state() == (BindingsV { routes: Seq::empty(), order: Seq::empty(), generation: 0 }),
            texts(r.compacting@) == Seq::<Seq<char>>::empty(),
            covered(r.state()),
    {
        let r = RouteBindings {
            compacting: Vec::new(),
            routes: TextMap::new(),
            order: VecDeque::new(),
            next_generation: 0,
        };
        proof {
            assert(order_view(r.order@) =~= Seq::<(Seq<char>, u64)>::empty());
            assert(texts(r.compacting@) =~= Seq::<Seq<char>>::empty());
        }
        r
    }

    /// The route that a conversation is bound to: that of the first key that is bound.
    pub fn route_for_keys(&self, keys: &Vec<String>) -> (r: Option<String>)
        requires
            self.inv(),
        ensures
            string_view(r) == first_bound(self.routes@, texts(keys@)),
    {
        let ghost all = texts(keys@);
        let mut i: usize = 0;
        proof {
            assert(all.subrange(0, all.len() as int) =~= all);
        }
        while i < keys.len()
            invariant
                i <= keys.len(),
                self.inv(),
                all == texts(keys@),
                first_bound(self.routes@, all) == first_bound(
                    self.routes@,
                    all.subrange(i as int, all.len() as int),
                ),
            decreases keys.len() - i,
        {
            proof {
                let rest = all.subrange(i as int, all.len() as int);
                assert(rest[0] == keys@[i as int]@);
                assert(rest.subrange(1, rest.len() as int) =~= all.subrange(
                    i + 1,
                    all.len() as int,
                ));
            }
            if let Some(binding) = self.routes.get(keys[i].as_str()) {
                return Some(binding.provider_id.clone());
            }
            i = i + 1;
        }
        None
    }

    fn bind(&mut self, key: &str, provider_id: &str, refresh_session_binding: bool)
        requires
            old(self).inv(),
        ensures
            final(self).inv(),
            final(self).state() == bind_one(
                old(self).state(),
                key@,
                provider_id@,
                refresh_session_binding,
            ),
            final(self).compacting == old(self).compacting,
    {
        if has_prefix(key, "session-id:") && self.routes.has(key) && !refresh_session_binding {
            return ;
        }
        let generation: u64 = if self.next_generation == u64::MAX {
            0
        } else {
            self.next_generation + 1
        };
        self.next_generation = generation;
        self.routes.insert(
            key,
            RouteBinding { provider_id: provider_id.to_owned(), generation },
        );
        let ghost before = self.order@;
        self.order.push_back((key.to_owned(), generation));
        proof {
            assert(order_view(self.order@) =~= order_view(before).push((key@, generation)));
        }
    }

    fn is_present(&self, key: &str, generation: u64) -> (r: bool)
        requires
            self.inv(),
        ensures
            r == is_live(self.routes@, (key@, generation)),
    {
        match self.routes.get(key) {
            Some(binding) => binding.generation == generation,
            None => false,
        }
    }

    fn evict(&mut self)
        requires
            old(self).inv(),
        ensures
            final(self).inv(),
            (final(self).routes@, order_view(final(self).order@)) == evicted(
                old(self).routes@,
                order_view(old(self).order@),
            ),
            final(self).next_generation == old(self).next_generation,
            final(self).compacting == old(self).compacting,
    {
        while self.routes.len() > MAX_ROUTE_BINDINGS && self.order.len() > 0
            invariant
                self.inv(),
                evicted(self.routes@, order_view(self.order@)) == evicted(
                    old(self).routes@,
                    order_view(old(self).order@),
                ),
                self.next_generation == old(self).next_generation,
                self.compacting == old(self).compacting,
            decreases self.order.len(),
        {
            let ghost order = order_view(self.order@);
            if let Some((key, generation)) = self.order.pop_front() {
                proof {
                    assert(order[0] == (key@, generation));
                    assert(order_view(self.order@) =~= order.subrange(1, order.len() as int));
                }
                if self.is_present(key.as_str(), generation) {
                    let _ = self.routes.remove(key.as_str());
                }
            }
        }
    }

    fn drop_stale(&mut self)
        requires
            old(self).inv(),
        ensures
            final(self).inv(),
            final(self).routes@ == old(self).routes@,
            order_view(final(self).order@) == live_only(
                old(self).routes@,
                order_view(old(self).order@),
            ),
            final(self).next_generation == old(self).next_generation,
            final(self).compacting == old(self).compacting,
    {
        let ghost all = order_view(self.order@);
        let mut kept: VecDeque<(String, u64)> = VecDeque::new();
        let mut i: usize = 0;
        proof {
            assert(order_view(kept@) =~= live_only(self.routes@, all.subrange(0, 0)));
        }
        while i < self.order.len()
            invariant
                i <= all.len(),
                self.inv(),
                all == order_view(self.order@),
                order_view(kept@) == live_only(self.routes@, all.subrange(0, i as int)),
                self.routes@ == old(self).routes@,
                all == order_view(old(self).order@),
                self.next_generation == old(self).next_generation,
                self.compacting == old(self).compacting,
            decreases all.len() - i,
        {
            proof {
                assert(all.subrange(0, i + 1).drop_last() =~= all.subrange(0, i as int));
                assert(all.subrange(0, i + 1).last() == all[i as int]);
            }
            let entry = &self.order[i];
            if self.is_present(entry.0.as_str(), entry.1) {
                let ghost before = kept@;
                kept.push_back((entry.0.clone(), entry.1));
                proof {
                    assert(order_view(kept@) =~= order_view(before).push(all[i as int]));
                }
            }
            i = i + 1;
        }
        proof {
            assert(all.subrange(0, i as int) =~= all);
        }
        self.order = kept;
    }

    /// Remembers the route of a conversation under its keys.
    pub fn remember(
        &mut self,
        keys: &Vec<String>,
        provider_id: &str,
        refresh_session_binding: bool,
    )
        requires
            old(self).inv(),
        ensures
            final(self).inv(),
            final(self).state() == remembered(
                old(self).state(),
                texts(keys@),
                provider_id@,
                refresh_session_binding,
            ),
            final(self).compacting == old(self).compacting,
    {
        let ghost all = texts(keys@);
        let ghost start = self.state();
        let mut i: usize = 0;
        while i < keys.len()
            invariant
                i <= keys.len(),
                self.inv(),
                all == texts(keys@),
                self.state() == bind_keys(
                    start,
                    all,
                    provider_id@,
                    refresh_session_binding,
                    i as int,
                ),
                self.compacting == old(self).compacting,
            decreases keys.len() - i,
        {
            proof {
                assert(all[i as int] == keys@[i as int]@);
            }
            self.bind(keys[i].as_str(), provider_id, refresh_session_binding);
            i = i + 1;
        }
        self.evict();
        if self.order.len() > MAX_ROUTE_BINDINGS * 4 {
            self.drop_stale();
        }
    }
}

proof fn lemma_bind_covered(b: BindingsV, key: Seq<char>, provider_id: Seq<char>, refresh: bool)
    requires
        distinct(b.routes),
        covered(b),
    ensures
        distinct(bind_one(b, key, provider_id, refresh).routes),
        covered(bind_one(b, key, provider_id, refresh)),
{
    let after = bind_one(b, key, provider_id, refresh);
    if !stays(b.routes, key, refresh) {
        let value = (provider_id, after.generation);
        distinct_after_set(b.routes, key, value);
        assert forall|i: int| 0 <= i < after.routes.len() implies after.order.contains(
            ((#[trigger] after.routes[i]).0, after.routes[i].1.1),
        ) by {
            let (k, v) = after.routes[i];
            lookup_at(after.routes, i);
            set_then_look(b.routes, key, value, k);
            if k == key {
                assert(after.order[b.order.len() as int] == (key, after.generation));
            } else {
                lookup_place(b.routes, k);
                let j = choose|j: int| 0 <= j < b.routes.len() && (#[trigger] b.routes[j]).0 == k;
                lookup_at(b.routes, j);
                assert(b.order.contains((b.routes[j].0, b.routes[j].1.1)));
                let m = choose|m: int|
                    0 <= m < b.order.len() && b.order[m] == (b.routes[j].0, b.routes[j].1.1);
                assert(after.order[m] == b.order[m]);
            }
        }
    }
}

proof fn lemma_bind_keys_covered(
    b: BindingsV,
    keys: Seq<Seq<char>>,
    provider_id: Seq<char>,
    refresh: bool,
    n: int,
)
    requires
        distinct(b.routes),
        covered(b),
        0 <= n <= keys.len(),
    ensures
        distinct(bind_keys(b, keys, provider_id, refresh, n).routes),
        covered(bind_keys(b, keys, provider_id, refresh, n)),
    decreases n,
{
    if n > 0 {
        lemma_bind_keys_covered(b, keys, provider_id, refresh, n - 1);
        lemma_bind_covered(
            bind_keys(b, keys, provider_id, refresh, n - 1),
            keys[n - 1],
            provider_id,
            refresh,
        );
    }
}

proof fn lemma_evicted(b: BindingsV)
    requires
        distinct(b.routes),
        covered(b),
    ensures
        ({
            let (routes, order) = evicted(b.routes, b.order);
            &&& distinct(routes)
            &&& covered(BindingsV { routes, order, generation: b.generation })
            &&& routes.len() <= MAX_ROUTE_BINDINGS
        }),
    decreases b.order.len(),
{
    if b.routes.len() <= MAX_ROUTE_BINDINGS {
    } else if b.order.len() == 0 {
        assert(b.order.contains((b.routes[0].0, b.routes[0].1.1)));
    } else {
        let rest = b.order.subrange(1, b.order.len() as int);
        let entry = b.order[0];
        let routes = if is_live(b.routes, entry) {
            without_key(b.routes, entry.0)
        } else {
            b.routes
        };
        let next = BindingsV { routes, order: rest, generation: b.generation };
        distinct_after_remove(b.routes, entry.0);
        assert forall|i: int| 0 <= i < routes.len() implies rest.contains(
            ((#[trigger] routes[i]).0, routes[i].1.1),
        ) by {
            let (k, v) = routes[i];
            lookup_at(routes, i);
            remove_then_look(b.routes, entry.0, k);
            lookup_place(b.routes, k);
            let j = choose|j: int| 0 <= j < b.routes.len() && (#[trigger] b.routes[j]).0 == k;
            lookup_at(b.routes, j);
            assert(b.order.contains((b.routes[j].0, b.routes[j].1.1)));
            let m = choose|m: int|
                0 <= m < b.order.len() && b.order[m] == (b.routes[j].0, b.routes[j].1.1);
            assert(m > 0);
            assert(rest[m - 1] == b.order[m]);
        }
        lemma_evicted(next);
    }
}

proof fn lemma_live_only(
    routes: Seq<(Seq<char>, (Seq<char>, u64))>,
    order: Seq<(Seq<char>, u64)>,
    entry: (Seq<char>, u64),
)
    requires
        order.contains(entry),
        is_live(routes, entry),
    ensures
        live_only(routes, order).contains(entry),
    decreases order.len(),
{
    let m = choose|m: int| 0 <= m < order.len() && order[m] == entry;
    let rest = order.drop_last();
    let after = live_only(routes, order);
    if m < rest.len() {
        assert(rest[m] == entry);
        lemma_live_only(routes, rest, entry);
        let inner = live_only(routes, rest);
        let w = choose|w: int| 0 <= w < inner.len() && inner[w] == entry;
        assert(after[w] == entry);
    } else {
        assert(after.last() == entry);
        assert(after[after.len() - 1] == entry);
    }
}

/// However many conversations a router has seen, it remembers a bounded number of them, and each
/// of those can still be given up in its turn.
pub proof fn bindings_stay_bounded(
    b: BindingsV,
    keys: Seq<Seq<char>>,
    provider_id: Seq<char>,
    refresh_session_binding: bool,
)
    requires
        distinct(b.routes),
        covered(b),
    ensures
        ({
            let after = remembered(b, keys, provider_id, refresh_session_binding);
            &&& distinct(after.routes)
            &&& covered(after)
            &&& after.routes.len() <= MAX_ROUTE_BINDINGS
        }),
{
    let n = keys.len() as int;
    lemma_bind_keys_covered(b, keys, provider_id, refresh_session_binding, n);
    let bound = bind_keys(b, keys, provider_id, refresh_session_binding, n);
    lemma_evicted(bound);
    let (routes, order) = evicted(bound.routes, bound.order);
    let after = remembered(b, keys, provider_id, refresh_session_binding);
    if order.len() > MAX_ROUTE_BINDINGS * 4 {
        assert forall|i: int| 0 <= i < routes.len() implies after.order.contains(
            ((#[trigger] routes[i]).0, routes[i].1.1),
        ) by {
            lookup_at(routes, i);
            let left = BindingsV { routes, order, generation: bound.generation };
            assert(covered(left));
            assert(left.order.contains((left.routes[i].0, left.routes[i].1.1)));
            lemma_live_only(routes, order, (routes[i].0, routes[i].1.1));
        }
    }
}

/// A session's binding changes only where the request says so: a request without a route of its
/// own leaves it as it was, as long as nothing has to be given up.
pub proof fn a_session_keeps_its_route(
    b: BindingsV,
    session: Seq<char>,
    provider_id: Seq<char>,
)
    requires
        starts_with(session, "session-id:"@),
        lookup(b.routes, session) is Some,
        b.routes.len() <= MAX_ROUTE_BINDINGS,
    ensures
        lookup(remembered(b, seq![session], provider_id, false).routes, session) == lookup(
            b.routes,
            session,
        ),
{
    let keys = seq![session];
    assert(bind_keys(b, keys, provider_id, false, 0) == b);
    assert(bind_keys(b, keys, provider_id, false, 1) == b);
}

/// The keys that are being compacted, as a set.
pub open spec fn key_set(keys: Seq<String>) -> Set<Seq<char>> {
    texts(keys).to_set()
}

/// Holds the keys of a conversation while it is being compacted.
#[derive(Debug)]
pub struct CompactionGuard {
    pub keys: Vec<String>,
}

fn any_listed(list: &Vec<String>, keys: &Vec<String>) -> (r: bool)
    ensures
        r == exists|i: int| 0 <= i < keys.len() && key_set(list@).contains(#[trigger] keys@[i]@),
{
    let mut i: usize = 0;
    while i < keys.len()
        invariant
            i <= keys.len(),
            forall|j: int| 0 <= j < i ==> !key_set(list@).contains(#[trigger] keys@[j]@),
        decreases keys.len() - i,
    {
        if list_has(list, keys[i].as_str()) {
            proof {
                assert(texts(list@).contains(keys@[i as int]@));
                assert(key_set(list@).contains(keys@[i as int]@));
            }
            return true;
        }
        proof {
            assert(!texts(list@).contains(keys@[i as int]@));
        }
        i = i + 1;
    }
    false
}

impl CompactionGuard {
    /// Takes the keys of a conversation, unless one of them is taken.
    pub fn acquire(bindings: &mut RouteBindings, keys: Vec<String>) -> (r: Result<
        CompactionGuard,
        Failure,
    >)
        ensures
            final(bindings).routes == old(bindings).routes,
            final(bindings).order == old(bindings).order,
            final(bindings).next_generation == old(bindings).next_generation,
            ({
                let taken = key_set(old(bindings).compacting@);
                let wanted = key_set(keys@);
                if taken.disjoint(wanted) {
                    &&& r matches Ok(guard) && guard.keys == keys
                    &&& key_set(final(bindings).compacting@) == taken.union(wanted)
                } else {
                    &&& r matches Err(e) && e@ == FailureV::Text("同一会话已有压缩请求正在执行，请等待完成后重试"@)
                    &&& final(bindings).compacting == old(bindings).compacting
                }
            }),
    {
        let ghost taken = key_set(bindings.compacting@);
        let ghost wanted = key_set(keys@);
        if any_listed(&bindings.compacting, &keys) {
            proof {
                let i = choose|i: int|
                    0 <= i < keys.len() && taken.contains(#[trigger] keys@[i]@);
                assert(texts(keys@)[i] == keys@[i]@);
                assert(wanted.contains(keys@[i]@));
                assert(!taken.disjoint(wanted));
            }
            return Err(fail("同一会话已有压缩请求正在执行，请等待完成后重试"));
        }
        proof {
            assert forall|k: Seq<char>| taken.contains(k) implies !wanted.contains(k) by {
                if wanted.contains(k) {
                    let i = choose|i: int| 0 <= i < texts(keys@).len() && texts(keys@)[i] == k;
                    assert(taken.contains(keys@[i]@));
                }
            }
            assert(taken.disjoint(wanted));
        }
        let mut i: usize = 0;
        proof {
            assert(taken =~= taken.union(texts(keys@).subrange(0, 0).to_set()));
        }
        while i < keys.len()
            invariant
                i <= keys.len(),
                key_set(bindings.compacting@) == taken.union(
                    texts(keys@).subrange(0, i as int).to_set(),
                ),
                bindings.routes == old(bindings).routes,
                bindings.order == old(bindings).order,
                bindings.next_generation == old(bindings).next_generation,
            decreases keys.len() - i,
        {
            let key = keys[i].clone();
            let ghost before = bindings.compacting@;
            bindings.compacting.push(key);
            proof {
                texts_push(before, key);
                lemma_to_set_push(texts(before), key@);
                let all = texts(keys@);
                assert(all.subrange(0, i + 1) =~= all.subrange(0, i as int).push(key@));
                lemma_to_set_push(all.subrange(0, i as int), key@);
                assert(key_set(bindings.compacting@) =~= taken.union(
                    all.subrange(0, i + 1).to_set(),
                ));
            }
            i = i + 1;
        }
        proof {
            assert(texts(keys@).subrange(0, i as int) =~= texts(keys@));
        }
        Ok(CompactionGuard { keys })
    }

    /// Gives the keys back.
    pub fn release(self, bindings: &mut RouteBindings)
        ensures
            final(bindings).routes == old(bindings).routes,
            final(bindings).order == old(bindings).order,
            final(bindings).next_generation == old(bindings).next_generation,
            key_set(final(bindings).compacting@) == key_set(old(bindings).compacting@).difference(
                key_set(self.keys@),
            ),
    {
        let mut kept: Vec<String> = Vec::new();
        let ghost all = texts(bindings.compacting@);
        let ghost given = key_set(self.keys@);
        let mut i: usize = 0;
        proof {
            assert(texts(kept@).to_set() =~= all.subrange(0, 0).to_set().difference(given));
        }
        while i < bindings.compacting.len()
            invariant
                i <= bindings.compacting.len(),
                all == texts(bindings.compacting@),
                given == key_set(self.keys@),
                *bindings == *old(bindings),
                texts(kept@).to_set() == all.subrange(0, i as int).to_set().difference(given),
            decreases bindings.compacting.len() - i,
        {
            let key = bindings.compacting[i].clone();
            let listed = list_has(&self.keys, key.as_str());
            proof {
                assert(all.subrange(0, i + 1) =~= all.subrange(0, i as int).push(key@));
                lemma_to_set_push(all.subrange(0, i as int), key@);
                assert(given.contains(key@) == texts(self.keys@).contains(key@));
            }
            if !listed {
                let ghost before = kept@;
                kept.push(key);
                proof {
                    texts_push(before, key);
                    lemma_to_set_push(texts(before), key@);
                }
            }
            proof {
                assert(texts(kept@).to_set() =~= all.subrange(0, i + 1).to_set().difference(
                    given,
                ));
            }
            i = i + 1;
        }
        proof {
            assert(all.subrange(0, i as int) =~= all);
        }
        bindings.compacting = kept;
    }
}

proof fn lemma_to_set_push(s: Seq<Seq<char>>, x: Seq<char>)
    ensures
        s.push(x).to_set() == s.to_set().insert(x),
{
    assert forall|k: Seq<char>| s.push(x).to_set().contains(k) == s.to_set().insert(x).contains(
        k,
    ) by {
        if s.contains(k) {
            let i = choose|i: int| 0 <= i < s.len() && s[i] == k;
            assert(s.push(x)[i] == k);
        }
        if k == x {
            assert(s.push(x)[s.len() as int] == x);
        }
        if s.push(x).contains(k) {
            let i = choose|i: int| 0 <= i < s.push(x).len() && s.push(x)[i] == k;
            if i < s.len() {
                assert(s[i] == k);
            }
        }
    }
    assert(s.push(x).to_set() =~= s.to_set().insert(x));
}

/// Giving back what was taken leaves what was taken before: keys that were taken together were
/// free, so releasing them frees those and no others.
pub proof fn release_undoes_acquire(taken: Set<Seq<char>>, wanted: Set<Seq<char>>)
    requires
        taken.disjoint(wanted),
    ensures
        taken.union(wanted).difference(wanted) == taken,
{
    assert(taken.union(wanted).difference(wanted) =~= taken);
}

proof fn lemma_bound_keys(
    b: BindingsV,
    keys: Seq<Seq<char>>,
    provider_id: Seq<char>,
    refresh: bool,
    n: int,
    key: Seq<char>,
)
    requires
        0 <= n <= keys.len(),
    ensures
        ({
            let bound = bind_keys(b, keys, provider_id, refresh, n);
            let named = exists|i: int| 0 <= i < n && #[trigger] keys[i] == key;
            &&& bound.routes.len() <= b.routes.len() + n
            &&& !named ==> lookup(bound.routes, key) == lookup(b.routes, key)
            &&& named && stays(b.routes, key, refresh) ==> lookup(bound.routes, key) == lookup(
                b.routes,
                key,
            )
            &&& named && !stays(b.routes, key, refresh) ==> (lookup(bound.routes, key) matches Some(
                (id, _),
            ) && id == provider_id)
        }),
    decreases n,
{
    if n > 0 {
        lemma_bound_keys(b, keys, provider_id, refresh, n - 1, key);
        let before = bind_keys(b, keys, provider_id, refresh, n - 1);
        let after = bind_keys(b, keys, provider_id, refresh, n);
        let last = keys[n - 1];
        if !stays(before.routes, last, refresh) {
            let value = (provider_id, wrapped_next(before.generation));
            set_then_look(before.routes, last, value, key);
            lemma_set_adds_one(before.routes, last, value);
        }
        if exists|i: int| 0 <= i < n && #[trigger] keys[i] == key {
            let i = choose|i: int| 0 <= i < n && #[trigger] keys[i] == key;
            assert(i < n - 1 || last == key);
        }
        if exists|i: int| 0 <= i < n - 1 && #[trigger] keys[i] == key {
            let i = choose|i: int| 0 <= i < n - 1 && #[trigger] keys[i] == key;
            assert(0 <= i < n && keys[i] == key);
        }
    }
}

proof fn lemma_set_adds_one<K, V>(pairs: Seq<(K, V)>, key: K, value: V)
    ensures
        with_key(pairs, key, value).len() <= pairs.len() + 1,
    decreases pairs.len(),
{
    if pairs.len() > 0 && pairs.last().0 != key {
        lemma_set_adds_one(pairs.drop_last(), key, value);
    }
}

/// As long as nothing has to be given up, every key of a conversation is found bound to the route
/// that was remembered for it, a session that is bound already stays where it is unless it is to be
/// refreshed, and no other conversation is touched.
pub proof fn a_conversation_is_found_again(
    b: BindingsV,
    keys: Seq<Seq<char>>,
    provider_id: Seq<char>,
    refresh_session_binding: bool,
    key: Seq<char>,
)
    requires
        b.routes.len() + keys.len() <= MAX_ROUTE_BINDINGS,
    ensures
        ({
            let after = remembered(b, keys, provider_id, refresh_session_binding);
            let bound = lookup(b.routes, key) is Some;
            let session = starts_with(key, "session-id:"@);
            &&& !keys.contains(key) ==> lookup(after.routes, key) == lookup(b.routes, key)
            &&& keys.contains(key) && bound && session && !refresh_session_binding ==> lookup(
                after.routes,
                key,
            ) == lookup(b.routes, key)
            &&& keys.contains(key) && (!bound || !session || refresh_session_binding) ==> (lookup(
                after.routes,
                key,
            ) matches Some((id, _)) && id == provider_id)
        }),
{
    let n = keys.len() as int;
    lemma_bound_keys(b, keys, provider_id, refresh_session_binding, n, key);
    if keys.contains(key) {
        let i = choose|i: int| 0 <= i < keys.len() && keys[i] == key;
        assert(0 <= i < n && keys[i] == key);
    }
}

/// The route of a conversation is that of its first key which is bound.
pub proof fn the_first_bound_key_decides(
    routes: Seq<(Seq<char>, (Seq<char>, u64))>,
    keys: Seq<Seq<char>>,
    i: int,
)
    requires
        0 <= i < keys.len(),
        lookup(routes, keys[i]) is Some,
        forall|j: int| 0 <= j < i ==> lookup(routes, #[trigger] keys[j]) is None,
    ensures
        first_bound(routes, keys) == Some((lookup(routes, keys[i])->0).0),
    decreases i,
{
    if i > 0 {
        assert(lookup(routes, keys[0]) is None);
        let rest = keys.subrange(1, keys.len() as int);
        assert forall|j: int| 0 <= j < i - 1 implies lookup(routes, #[trigger] rest[j]) is None by {
            assert(rest[j] == keys[j + 1]);
        }
        assert(rest[i - 1] == keys[i]);
        the_first_bound_key_decides(routes, rest, i - 1);
    }
}

/// Without a key that is bound a conversation has no route.
pub proof fn an_unknown_conversation_has_no_route(
    routes: Seq<(Seq<char>, (Seq<char>, u64))>,
    keys: Seq<Seq<char>>,
)
    requires
        forall|j: int| 0 <= j < keys.len() ==> lookup(routes, #[trigger] keys[j]) is None,
    ensures
        first_bound(routes, keys) is None,
    decreases keys.len(),
{
    if keys.len() > 0 {
        assert(lookup(routes, keys[0]) is None);
        let rest = keys.subrange(1, keys.len() as int);
        assert forall|j: int| 0 <= j < rest.len() implies lookup(routes, #[trigger] rest[j]) is None by {
            assert(rest[j] == keys[j + 1]);
        }
        an_unknown_conversation_has_no_route(routes, rest);
    }
}

proof fn lemma_evicting_adds_none(
    routes: Seq<(Seq<char>, (Seq<char>, u64))>,
    order: Seq<(Seq<char>, u64)>,
    key: Seq<char>,
)
    requires
        distinct(routes),
        lookup(routes, key) is None,
    ensures
        lookup(evicted(routes, order).0, key) is None,
    decreases order.len(),
{
    if routes.len() <= MAX_ROUTE_BINDINGS || order.len() == 0 {
    } else {
        let rest = order.subrange(1, order.len() as int);
        if is_live(routes, order[0]) {
            distinct_after_remove(routes, order[0].0);
            remove_then_look(routes, order[0].0, key);
            lemma_evicting_adds_none(without_key(routes, order[0].0), rest, key);
        } else {
            lemma_evicting_adds_none(routes, rest, key);
        }
    }
}

/// What has to be given up is what was bound longest ago: where a binding stays, everything that was
/// bound after it stays as it was.
pub proof fn the_oldest_are_given_up(
    routes: Seq<(Seq<char>, (Seq<char>, u64))>,
    order: Seq<(Seq<char>, u64)>,
    i: int,
    j: int,
)
    requires
        distinct(routes),
        order.no_duplicates(),
        0 <= i <= j < order.len(),
        is_live(routes, order[i]),
        is_live(routes, order[j]),
        lookup(evicted(routes, order).0, order[i].0) is Some,
    ensures
        lookup(evicted(routes, order).0, order[j].0) == lookup(routes, order[j].0),
    decreases order.len(),
{
    if routes.len() <= MAX_ROUTE_BINDINGS {
    } else {
        let rest = order.subrange(1, order.len() as int);
        let first = order[0];
        assert forall|a: int, c: int| 0 <= a < rest.len() && 0 <= c < rest.len() && a
            != c implies rest[a] != rest[c] by {
            assert(rest[a] == order[a + 1] && rest[c] == order[c + 1]);
        }
        if is_live(routes, first) {
            let left = without_key(routes, first.0);
            distinct_after_remove(routes, first.0);
            remove_then_look(routes, first.0, order[i].0);
            remove_then_look(routes, first.0, order[j].0);
            if i == 0 {
                lemma_evicting_adds_none(left, rest, first.0);
                assert(false);
            } else {
                assert(order[i] != first && order[j] != first);
                assert(order[i].0 != first.0 && order[j].0 != first.0);
                assert(rest[i - 1] == order[i] && rest[j - 1] == order[j]);
                the_oldest_are_given_up(left, rest, i - 1, j - 1);
            }
        } else {
            assert(i > 0);
            assert(rest[i - 1] == order[i] && rest[j - 1] == order[j]);
            the_oldest_are_given_up(routes, rest, i - 1, j - 1);
        }
    }
}

} // verus!
