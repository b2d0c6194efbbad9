//! The routing matrix: the set of routes from inputs to outputs, each with a
//! unique identifier of the form `route_<n>`.
//!
//! The per-route mixing parameters (volume and effect settings) are opaque to
//! the matrix: it stores, copies and returns them but never reads them, so
//! they are a type parameter `M`.

use vstd::prelude::*;
use vstd::string::*;
use crate::text::{decimal, lemma_decimal_injective, lemma_prefix_cancel, push_decimal};

verus! {

/// One route from an input device to an output device.
pub struct Route<M> {
    pub id: String,
    pub input_id: String,
    pub output_id: String,
    pub muted: bool,
    pub mix: M,
}

impl<M: Copy> Clone for Route<M> {
    fn clone(&self) -> (r: Self)
        ensures
            r == *self,
    {
        Route {
            id: self.id.clone(),
            input_id: self.input_id.clone(),
            output_id: self.output_id.clone(),
            muted: self.muted,
            mix: self.mix,
        }
    }
}

impl<M: Default> Default for Route<M> {
    /// A route with empty identifiers, not muted, with the default mix.
    fn default() -> (r: Self)
        ensures
            r.id@ == Seq::<char>::empty(),
            r.input_id@ == Seq::<char>::empty(),
            r.output_id@ == Seq::<char>::empty(),
            !r.muted,
            call_ensures(M::default, (), r.mix),
    {
        Route {
            id: String::new(),
            input_id: String::new(),
            output_id: String::new(),
            muted: false,
            mix: M::default(),
        }
    }
}

/// The characters `route_`.
pub open spec fn route_prefix() -> Seq<char> {
    seq!['r', 'o', 'u', 't', 'e', '_']
}

/// The identifier that the matrix gives to its `n`-th route: `route_<n>`.
pub open spec fn route_label(n: nat) -> Seq<char> {
    route_prefix() + decimal(n)
}

/// Distinct route numbers give distinct identifiers.
pub proof fn lemma_route_label_injective(a: nat, b: nat)
    requires
        route_label(a) == route_label(b),
    ensures
        a == b,
{
    lemma_prefix_cancel(route_prefix(), decimal(a), decimal(b));
    lemma_decimal_injective(a, b);
}

/// Whether `id` is `route_<k>` for some `k` from one up to, but not
/// including, `next`.
pub open spec fn issued_label(id: Seq<char>, next: nat) -> bool {
    exists|k: nat| 1 <= k < next && id == route_label(k)
}

/// Whether `r` goes out of the input `input_id`.
pub open spec fn from_input<M>(r: Route<M>, input_id: Seq<char>) -> bool {
    r.input_id@ == input_id
}

/// Whether `r` goes into the output `output_id`.
pub open spec fn to_output<M>(r: Route<M>, output_id: Seq<char>) -> bool {
    r.output_id@ == output_id
}

/// The routes between inputs and outputs, keyed by identifier.
pub struct RoutingMatrix<M> {
    routes: Vec<Route<M>>,
    next_route_id: usize,
    default_mix: M,
}

impl<M> View for RoutingMatrix<M> {
    type V = Seq<Route<M>>;

    /// The routes, in the order in which they were added.
    closed spec fn view(&self) -> Seq<Route<M>> {
        self.routes@
    }
}

impl<M> RoutingMatrix<M> {
    /// The number that the next added route gets in its identifier.
    pub closed spec fn next_id(&self) -> nat {
        self.next_route_id as nat
    }

    /// The mix that every newly added route starts with.
    pub closed spec fn default_mix(&self) -> M {
        self.default_mix
    }

    /// Whether some route has the identifier `id`.
    pub open spec fn contains_id(&self, id: Seq<char>) -> bool {
        exists|i: int| 0 <= i < self@.len() && #[trigger] self@[i].id@ == id
    }

    /// The position of the route with identifier `id` (meaningful when
    /// `contains_id(id)`).
    pub open spec fn position_of(&self, id: Seq<char>) -> int {
        choose|i: int| 0 <= i < self@.len() && #[trigger] self@[i].id@ == id
    }

    /// The route with identifier `id`, if any.
    pub open spec fn lookup(&self, id: Seq<char>) -> Option<Route<M>> {
        if self.contains_id(id) {
            Some(self@[self.position_of(id)])
        } else {
            None
        }
    }

    /// Identifiers are unique, each is `route_<k>` for a number `k` below the
    /// next number to hand out, and that number can still be incremented.
    pub closed spec fn wf(&self) -> bool {
        &&& 1 <= self.next_route_id
        &&& forall|i: int, j: int|
            0 <= i < j < self.routes@.len() ==> #[trigger] self.routes@[i].id@
                != #[trigger] self.routes@[j].id@
        &&& forall|i: int|
            0 <= i < self.routes@.len() ==> issued_label(
                #[trigger] self.routes@[i].id@,
                self.next_route_id as nat,
            )
    }

    /// In a well-formed matrix the route found by identifier is the only one
    /// with that identifier.
    pub proof fn lemma_lookup_unique(&self, i: int)
        requires
            self.wf(),
            0 <= i < self@.len(),
        ensures
            self.contains_id(self@[i].id@),
            self.position_of(self@[i].id@) == i,
            self.lookup(self@[i].id@) == Some(self@[i]),
    {
        let id = self@[i].id@;
        assert(self@[i].id@ == id);
        let p = self.position_of(id);
        if p != i {
            if p < i {
                assert(self.routes@[p].id@ != self.routes@[i].id@);
            } else {
                assert(self.routes@[i].id@ != self.routes@[p].id@);
            }
        }
    }
}

impl<M: Copy> RoutingMatrix<M> {
    /// An empty matrix whose routes will start with `M::default()`.
    pub fn new() -> (m: Self)
        where M: Default
        ensures
            m.wf(),
            m@ == Seq::<Route<M>>::empty(),
            m.next_id() == 1,
            call_ensures(M::default, (), m.default_mix()),
    {
        RoutingMatrix { routes: Vec::new(), next_route_id: 1, default_mix: M::default() }
    }

    /// The number that the next added route gets in its identifier.
    pub fn next_route_number(&self) -> (n: usize)
        ensures
            n == self.next_id(),
    {
        self.next_route_id
    }

    fn position(&self, id: &String) -> (r: Option<usize>)
        requires
            self.wf(),
        ensures
            match r {
                Some(i) => i < self@.len() && self@[i as int].id@ == id@ && self.position_of(id@)
                    == i,
                None => !self.contains_id(id@),
            },
    {
        let mut i: usize = 0;
        while i < self.routes.len()
            invariant
                self.wf(),
                i <= self.routes@.len(),
                forall|j: int| 0 <= j < i ==> #[trigger] self.routes@[j].id@ != id@,
            decreases self.routes@.len() - i,
        {
            if self.routes[i].id == *id {
                proof {
                    self.lemma_lookup_unique(i as int);
                }
                return Some(i);
            }
            i = i + 1;
        }
        None
    }

    /// Adds a route from `input_id` to `output_id`, named `route_<n>` with the
    /// next number, unmuted and with the default mix; returns a copy of it.
    pub fn add_route(&mut self, input_id: String, output_id: String) -> (r: Route<M>)
        requires
            old(self).wf(),
            old(self).next_id() < usize::MAX,
        ensures
            final(self).wf(),
            r.id@ == route_label(old(self).next_id()),
            r.input_id == input_id,
            r.output_id == output_id,
            !r.muted,
            r.mix == old(self).default_mix(),
            final(self)@ == old(self)@.push(r),
            final(self).next_id() == old(self).next_id() + 1,
            final(self).default_mix() == old(self).default_mix(),
    {
        let n = self.next_route_id;
        let mut id = String::from_str("route_");
        proof {
            reveal_strlit("route_");
            assert(id@ =~= route_prefix());
        }
        push_decimal(&mut id, n as u64);
        let ghost old_routes = self.routes@;
        proof {
            assert forall|i: int| 0 <= i < old_routes.len() implies #[trigger] old_routes[i].id@
                != id@ by {
                assert(issued_label(old_routes[i].id@, n as nat));
                let k = choose|k: nat| 1 <= k < n && old_routes[i].id@ == route_label(k);
                if old_routes[i].id@ == id@ {
                    lemma_route_label_injective(k, n as nat);
                }
            }
        }
        self.next_route_id = n + 1;
        let route = Route {
            id,
            input_id,
            output_id,
            muted: false,
            mix: self.default_mix,
        };
        self.routes.push(route.clone());
        proof {
            assert(self.routes@ == old_routes.push(route));
            assert forall|a: int, b: int|
                0 <= a < b < self.routes@.len() implies #[trigger] self.routes@[a].id@
                != #[trigger] self.routes@[b].id@ by {
                if b == old_routes.len() {
                    assert(old_routes[a].id@ != id@);
                } else {
                    assert(old_routes[a].id@ != old_routes[b].id@);
                }
            }
            assert forall|i: int|
                0 <= i < self.routes@.len() implies issued_label(
                #[trigger] self.routes@[i].id@,
                self.next_route_id as nat,
            ) by {
                if i < old_routes.len() {
                    assert(issued_label(old_routes[i].id@, n as nat));
                    let k = choose|k: nat| 1 <= k < n && old_routes[i].id@ == route_label(k);
                    assert(self.routes@[i].id@ == route_label(k));
                } else {
                    assert(self.routes@[i].id@ == route_label(n as nat));
                }
            }
        }
        route
    }

    /// Removes the route with identifier `route_id`, returning it, or returns
    /// `None` and changes nothing when there is no such route.
    pub fn remove_route(&mut self, route_id: &str) -> (r: Option<Route<M>>)
        requires
            old(self).wf(),
        ensures
            final(self).wf(),
            final(self).next_id() == old(self).next_id(),
            final(self).default_mix() == old(self).default_mix(),
            r == old(self).lookup(route_id@),
            match r {
                Some(_) => final(self)@ == old(self)@.remove(old(self).position_of(route_id@)),
                None => final(self)@ == old(self)@,
            },
    {
        let key = String::from_str(route_id);
        match self.position(&key) {
            Some(i) => {
                let ghost old_routes = self.routes@;
                let removed = self.routes.remove(i);
                proof {
                    assert(self.routes@ == old_routes.remove(i as int));
                    assert forall|a: int, b: int|
                        0 <= a < b < self.routes@.len() implies #[trigger] self.routes@[a].id@
                        != #[trigger] self.routes@[b].id@ by {
                        let a2 = if a < i { a } else { a + 1 };
                        let b2 = if b < i { b } else { b + 1 };
                        assert(self.routes@[a] == old_routes[a2]);
                        assert(self.routes@[b] == old_routes[b2]);
                        assert(old_routes[a2].id@ != old_routes[b2].id@);
                    }
                    assert forall|a: int|
                        0 <= a < self.routes@.len() implies issued_label(
                        #[trigger] self.routes@[a].id@,
                        self.next_route_id as nat,
                    ) by {
                        let a2 = if a < i { a } else { a + 1 };
                        assert(self.routes@[a] == old_routes[a2]);
                        assert(issued_label(old_routes[a2].id@, self.next_route_id as nat));
                    }
                }
                Some(removed)
            },
            None => None,
        }
    }

    /// The route with identifier `route_id`, if any.
    pub fn get_route(&self, route_id: &str) -> (r: Option<&Route<M>>)
        requires
            self.wf(),
        ensures
            r is Some <==> self.contains_id(route_id@),
            r matches Some(route) ==> Some(*route) == self.lookup(route_id@),
    {
        let key = String::from_str(route_id);
        match self.position(&key) {
            Some(i) => Some(&self.routes[i]),
            None => None,
        }
    }

    /// Replaces the route that has `route.id` by `route`; fails with
    /// `Route not found`, changing nothing, when there is none.
    pub fn update_route(&mut self, route: Route<M>) -> (r: Result<(), String>)
        requires
            old(self).wf(),
        ensures
            final(self).wf(),
            final(self).next_id() == old(self).next_id(),
            final(self).default_mix() == old(self).default_mix(),
            r is Ok <==> old(self).contains_id(route.id@),
            r is Ok ==> final(self)@ == old(self)@.update(
                old(self).position_of(route.id@),
                route,
            ),
            r matches Err(e) ==> e@ == "Route not found"@ && final(self)@ == old(self)@,
    {
        match self.position(&route.id) {
            Some(i) => {
                let ghost old_routes = self.routes@;
                let ghost new_route = route;
                self.routes.set(i, route);
                proof {
                    assert(self.routes@ == old_routes.update(i as int, new_route));
                    assert forall|a: int, b: int|
                        0 <= a < b < self.routes@.len() implies #[trigger] self.routes@[a].id@
                        != #[trigger] self.routes@[b].id@ by {
                        assert(self.routes@[a].id@ == old_routes[a].id@);
                        assert(self.routes@[b].id@ == old_routes[b].id@);
                    }
                    assert forall|a: int|
                        0 <= a < self.routes@.len() implies issued_label(
                        #[trigger] self.routes@[a].id@,
                        self.next_route_id as nat,
                    ) by {
                        assert(self.routes@[a].id@ == old_routes[a].id@);
                        assert(issued_label(old_routes[a].id@, self.next_route_id as nat));
                    }
                }
                Ok(())
            },
            None => {
                let e = String::from_str("Route not found");
                Err(e)
            },
        }
    }
    /// Copies of the routes that leave the input `input_id`, in order.
    pub fn get_routes_for_input(&self, input_id: &str) -> (r: Vec<Route<M>>)
        ensures
            r@ == self@.filter(|x: Route<M>| from_input(x, input_id@)),
            forall|i: int|
                0 <= i < self@.len() && (#[trigger] self@[i]).input_id@ == input_id@ ==> r@.contains(
                    self@[i],
                ),
            forall|k: int|
                0 <= k < r@.len() ==> (#[trigger] r@[k]).input_id@ == input_id@ && self@.contains(
                    r@[k],
                ),
    {
        let key = String::from_str(input_id);
        let ghost pred = |x: Route<M>| from_input(x, input_id@);
        let mut out: Vec<Route<M>> = Vec::new();
        let mut i: usize = 0;
        while i < self.routes.len()
            invariant
                i <= self.routes@.len(),
                key@ == input_id@,
                pred == (|x: Route<M>| from_input(x, input_id@)),
                out@ == self.routes@.take(i as int).filter(pred),
            decreases self.routes@.len() - i,
        {
            proof {
                reveal_with_fuel(Seq::<_>::filter, 1);
                assert(self.routes@.take(i + 1).drop_last() =~= self.routes@.take(i as int));
            }
            if self.routes[i].input_id == key {
                out.push(self.routes[i].clone());
            }
            i = i + 1;
        }
        proof {
            assert(self.routes@.take(i as int) =~= self.routes@);
        }
        proof {
            lemma_routes_for_input(self@, input_id@, out@);
        }
        out
    }

    /// Copies of the routes that enter the output `output_id`, in order.
    pub fn get_routes_for_output(&self, output_id: &str) -> (r: Vec<Route<M>>)
        ensures
            r@ == self@.filter(|x: Route<M>| to_output(x, output_id@)),
            forall|i: int|
                0 <= i < self@.len() && (#[trigger] self@[i]).output_id@ == output_id@
                    ==> r@.contains(self@[i]),
            forall|k: int|
                0 <= k < r@.len() ==> (#[trigger] r@[k]).output_id@ == output_id@ && self@.contains(
                    r@[k],
                ),
    {
        let key = String::from_str(output_id);
        let ghost pred = |x: Route<M>| to_output(x, output_id@);
        let mut out: Vec<Route<M>> = Vec::new();
        let mut i: usize = 0;
        while i < self.routes.len()
            invariant
                i <= self.routes@.len(),
                key@ == output_id@,
                pred == (|x: Route<M>| to_output(x, output_id@)),
                out@ == self.routes@.take(i as int).filter(pred),
            decreases self.routes@.len() - i,
        {
            proof {
                reveal_with_fuel(Seq::<_>::filter, 1);
                assert(self.routes@.take(i + 1).drop_last() =~= self.routes@.take(i as int));
            }
            if self.routes[i].output_id == key {
                out.push(self.routes[i].clone());
            }
            i = i + 1;
        }
        proof {
            assert(self.routes@.take(i as int) =~= self.routes@);
        }
        proof {
            lemma_routes_for_output(self@, output_id@, out@);
        }
        out
    }

    /// Copies of all routes, in order.
    pub fn get_all_routes(&self) -> (r: Vec<Route<M>>)
        ensures
            r@ == self@,
    {
        let mut out: Vec<Route<M>> = Vec::new();
        let mut i: usize = 0;
        while i < self.routes.len()
            invariant
                i <= self.routes@.len(),
                out@ == self.routes@.take(i as int),
            decreases self.routes@.len() - i,
        {
            out.push(self.routes[i].clone());
            proof {
                assert(out@ =~= self.routes@.take(i + 1));
            }
            i = i + 1;
        }
        proof {
            assert(self.routes@.take(i as int) =~= self.routes@);
        }
        out
    }

    /// Removes every route and starts numbering again from one.
    pub fn clear(&mut self)
        ensures
            final(self).wf(),
            final(self)@ == Seq::<Route<M>>::empty(),
            final(self).next_id() == 1,
            final(self).default_mix() == old(self).default_mix(),
    {
        self.routes.clear();
        self.next_route_id = 1;
    }
}

impl<M: Copy + Default> Default for RoutingMatrix<M> {
    /// The same as `RoutingMatrix::new()`.
    fn default() -> (m: Self)
        ensures
            m.wf(),
            m@ == Seq::<Route<M>>::empty(),
            m.next_id() == 1,
            call_ensures(M::default, (), m.default_mix()),
    {
        Self::new()
    }
}

/// The identifier that `add_route` hands out is not already in use.
pub proof fn lemma_next_label_fresh<M>(m: RoutingMatrix<M>)
    requires
        m.wf(),
    ensures
        !m.contains_id(route_label(m.next_id())),
{
    if m.contains_id(route_label(m.next_id())) {
        let i = m.position_of(route_label(m.next_id()));
        assert(m@[i].id@ == route_label(m.next_id()));
        assert(issued_label(m.routes@[i].id@, m.next_route_id as nat));
        let k = choose|k: nat| 1 <= k < m.next_route_id && m.routes@[i].id@ == route_label(k);
        lemma_route_label_injective(k, m.next_id());
    }
}

/// A route that has just been appended is found again by its identifier, and
/// every identifier of the earlier matrix still finds the same route.
pub proof fn lemma_added_route_found<M>(
    before: RoutingMatrix<M>,
    after: RoutingMatrix<M>,
    r: Route<M>,
)
    requires
        before.wf(),
        after.wf(),
        after@ == before@.push(r),
    ensures
        after.lookup(r.id@) == Some(r),
        forall|id: Seq<char>| #[trigger]
            before.contains_id(id) ==> after.lookup(id) == before.lookup(id),
{
    after.lemma_lookup_unique(before@.len() as int);
    assert forall|id: Seq<char>| #[trigger] before.contains_id(id) implies after.lookup(id)
        == before.lookup(id) by {
        let p = before.position_of(id);
        before.lemma_lookup_unique(p);
        assert(after@[p] == before@[p]);
        after.lemma_lookup_unique(p);
    }
}

/// After a route is replaced, its identifier finds the new route, and every
/// other identifier finds what it found before.
pub proof fn lemma_updated_route_found<M>(
    before: RoutingMatrix<M>,
    after: RoutingMatrix<M>,
    route: Route<M>,
)
    requires
        before.wf(),
        after.wf(),
        before.contains_id(route.id@),
        after@ == before@.update(before.position_of(route.id@), route),
    ensures
        after.lookup(route.id@) == Some(route),
        forall|id: Seq<char>| id != route.id@ ==> #[trigger] after.lookup(id) == before.lookup(id),
{
    let p = before.position_of(route.id@);
    after.lemma_lookup_unique(p);
    assert forall|id: Seq<char>| id != route.id@ implies #[trigger] after.lookup(id)
        == before.lookup(id) by {
        if before.contains_id(id) {
            let q = before.position_of(id);
            before.lemma_lookup_unique(q);
            assert(q != p);
            assert(after@[q] == before@[q]);
            after.lemma_lookup_unique(q);
        } else if after.contains_id(id) {
            let q = after.position_of(id);
            if q == p {
                assert(after@[q].id@ == route.id@);
            } else {
                assert(after@[q] == before@[q]);
            }
        }
    }
}

/// After a route is removed, its identifier finds nothing, and every other
/// identifier finds what it found before.
pub proof fn lemma_removed_route_gone<M>(
    before: RoutingMatrix<M>,
    after: RoutingMatrix<M>,
    id: Seq<char>,
)
    requires
        before.wf(),
        after.wf(),
        before.contains_id(id),
        after@ == before@.remove(before.position_of(id)),
    ensures
        after.lookup(id) is None,
        forall|other: Seq<char>| other != id ==> #[trigger] after.lookup(other) == before.lookup(
            other,
        ),
{
    let p = before.position_of(id);
    before.lemma_lookup_unique(p);
    if after.contains_id(id) {
        let q = after.position_of(id);
        let q2 = if q < p { q } else { q + 1 };
        assert(after@[q] == before@[q2]);
        before.lemma_lookup_unique(q2);
    }
    assert forall|other: Seq<char>| other != id implies #[trigger] after.lookup(other)
        == before.lookup(other) by {
        if before.contains_id(other) {
            let q = before.position_of(other);
            before.lemma_lookup_unique(q);
            assert(q != p);
            let q2 = if q < p { q } else { q - 1 };
            assert(after@[q2] == before@[q]);
            after.lemma_lookup_unique(q2);
        } else if after.contains_id(other) {
            let q = after.position_of(other);
            let q2 = if q < p { q } else { q + 1 };
            assert(after@[q] == before@[q2]);
        }
    }
}

/// No two routes share an identifier, and every identifier is `route_<k>`
/// for a number `k` already handed out.
pub proof fn lemma_route_ids_unique<M>(m: RoutingMatrix<M>)
    requires
        m.wf(),
    ensures
        forall|i: int, j: int| 0 <= i < j < m@.len() ==> #[trigger] m@[i].id@ != #[trigger] m@[j].id@,
        forall|i: int| 0 <= i < m@.len() ==> issued_label(#[trigger] m@[i].id@, m.next_id()),
{
}

/// The routes listed for an input are exactly the routes of the matrix that
/// leave that input, muted or not: every such route is listed, and every
/// listed route is a route of the matrix leaving that input.
pub proof fn lemma_routes_for_input<M>(
    routes: Seq<Route<M>>,
    input_id: Seq<char>,
    listed: Seq<Route<M>>,
)
    requires
        listed == routes.filter(|x: Route<M>| from_input(x, input_id)),
    ensures
        forall|i: int|
            0 <= i < routes.len() && (#[trigger] routes[i]).input_id@ == input_id ==> listed.contains(
                routes[i],
            ),
        forall|k: int|
            0 <= k < listed.len() ==> (#[trigger] listed[k]).input_id@ == input_id
                && routes.contains(listed[k]),
{
    let pred = |x: Route<M>| from_input(x, input_id);
    assert forall|i: int|
        0 <= i < routes.len() && (#[trigger] routes[i]).input_id@ == input_id implies listed.contains(
        routes[i],
    ) by {
        routes.lemma_filter_contains(pred, i);
    }
    assert forall|k: int| 0 <= k < listed.len() implies (#[trigger] listed[k]).input_id@
        == input_id && routes.contains(listed[k]) by {
        routes.lemma_filter_pred(pred, k);
        assert(listed.contains(listed[k]));
        routes.lemma_filter_contains_rev(pred, listed[k]);
    }
}

/// The routes listed for an output are exactly the routes of the matrix that
/// enter that output, muted or not.
pub proof fn lemma_routes_for_output<M>(
    routes: Seq<Route<M>>,
    output_id: Seq<char>,
    listed: Seq<Route<M>>,
)
    requires
        listed == routes.filter(|x: Route<M>| to_output(x, output_id)),
    ensures
        forall|i: int|
            0 <= i < routes.len() && (#[trigger] routes[i]).output_id@ == output_id
                ==> listed.contains(routes[i]),
        forall|k: int|
            0 <= k < listed.len() ==> (#[trigger] listed[k]).output_id@ == output_id
                && routes.contains(listed[k]),
{
    let pred = |x: Route<M>| to_output(x, output_id);
    assert forall|i: int|
        0 <= i < routes.len() && (#[trigger] routes[i]).output_id@ == output_id implies listed.contains(
        routes[i],
    ) by {
        routes.lemma_filter_contains(pred, i);
    }
    assert forall|k: int| 0 <= k < listed.len() implies (#[trigger] listed[k]).output_id@
        == output_id && routes.contains(listed[k]) by {
        routes.lemma_filter_pred(pred, k);
        assert(listed.contains(listed[k]));
        routes.lemma_filter_contains_rev(pred, listed[k]);
    }
}

} // verus!
