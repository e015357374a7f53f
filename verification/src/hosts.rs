//! The set of accelerated host names and the table of routes.

use crate::text;
use vstd::prelude::*;

verus! {

/// `host` is `base` itself or one of its subdomains: `github.githubassets.com` is covered by
/// `githubassets.com`.
pub open spec fn covers(base: Seq<char>, host: Seq<char>) -> bool {
    ||| host == base
    ||| {
        &&& host.len() > base.len()
        &&& host.skip(host.len() - base.len()) == base
        &&& host[host.len() - base.len() - 1] == '.'
    }
}

/// Some host of `hosts` covers `host`.
pub open spec fn accelerated(hosts: Set<Seq<char>>, host: Seq<char>) -> bool {
    exists|base: Seq<char>| hosts.contains(base) && #[trigger] covers(base, host)
}

/// Whether `base` covers `host`.
fn is_covered(base: &[char], host: &[char]) -> (b: bool)
    ensures
        b == covers(base@, host@),
{
    if base.len() > host.len() {
        return false;
    }
    let start: usize = host.len() - base.len();
    let mut k: usize = 0;
    while k < base.len()
        invariant
            k <= base@.len(),
            start + base@.len() == host.len(),
            forall|j: int| 0 <= j < k ==> host@[start + j] == #[trigger] base@[j],
        decreases base@.len() - k,
    {
        if host[start + k] != base[k] {
            assert(host@.skip(start as int)[k as int] != base@[k as int]);
            assert(start == 0 ==> host@[k as int] != base@[k as int]);
            return false;
        }
        k += 1;
    }
    assert(host@.skip(start as int) =~= base@);
    if start == 0 {
        assert(host@ =~= base@);
        true
    } else {
        host[start - 1] == '.'
    }
}

/// A set of host names.
#[derive(Debug)]
pub struct HostSet {
    names: Vec<String>,
}

impl View for HostSet {
    type V = Set<Seq<char>>;

    closed spec fn view(&self) -> Set<Seq<char>> {
        text::views(self.names@).to_set()
    }
}

impl HostSet {
    /// No name is held twice.
    #[verifier::type_invariant]
    spec fn distinct(self) -> bool {
        text::views(self.names@).no_duplicates()
    }

    /// The set of the names in a list.
    pub fn from_list(list: &[String]) -> (r: HostSet)
        ensures
            r@ == text::views(list@).to_set(),
    {
        let mut names: Vec<String> = Vec::new();
        let mut k: usize = 0;
        while k < list.len()
            invariant
                k <= list@.len(),
                text::views(names@).no_duplicates(),
                text::views(names@).to_set() =~= text::views(list@).take(k as int).to_set(),
            decreases list@.len() - k,
        {
            let ghost seen = text::views(list@).take(k as int);
            let ghost held = text::views(names@);
            let known = holds(names.as_slice(), list[k].as_str());
            assert(held.contains(list@[k as int]@) == held.to_set().contains(list@[k as int]@));
            if !known {
                names.push(list[k].clone());
                assert(text::views(names@) =~= held.push(list@[k as int]@));
            }
            assert(text::views(list@).take(k + 1) =~= seen.push(list@[k as int]@));
            proof {
                lemma_push_to_set(seen, list@[k as int]@);
                lemma_push_to_set(held, list@[k as int]@);
            }
            k += 1;
        }
        assert(text::views(list@).take(k as int) =~= text::views(list@));
        HostSet { names }
    }

    /// How many names the set holds.
    pub fn len(&self) -> (n: usize)
        ensures
            n == self@.len(),
    {
        proof {
            use_type_invariant(self);
            text::views(self.names@).unique_seq_to_set();
        }
        self.names.len()
    }

    /// Whether the set holds `name`.
    pub fn contains(&self, name: &str) -> (b: bool)
        ensures
            b == self@.contains(name@),
    {
        holds(self.names.as_slice(), name)
    }

    /// Whether some host of the set covers `host`.
    pub fn covers_host(&self, host: &str) -> (b: bool)
        ensures
            b == accelerated(self@, host@),
    {
        let h = text::chars_of(host);
        let mut k: usize = 0;
        while k < self.names.len()
            invariant
                k <= self.names@.len(),
                h@ == host@,
                forall|i: int| 0 <= i < k ==> !covers(#[trigger] self.names@[i]@, host@),
            decreases self.names@.len() - k,
        {
            let base = text::chars_of(self.names[k].as_str());
            if is_covered(base.as_slice(), h.as_slice()) {
                assert(text::views(self.names@)[k as int] == base@);
                assert(self@.contains(base@) && covers(base@, host@));
                return true;
            }
            k += 1;
        }
        assert forall|base: Seq<char>| self@.contains(base) implies !#[trigger] covers(
            base,
            host@,
        ) by {
            let i = choose|i: int|
                0 <= i < self.names@.len() && text::views(self.names@)[i] == base;
            assert(self.names@[i]@ == base);
        }
        false
    }
}

impl Clone for HostSet {
    fn clone(&self) -> (r: HostSet)
        ensures
            r@ == self@,
    {
        HostSet::from_list(self.names.as_slice())
    }
}

/// Pushing a value onto a sequence adds it to the set of the sequence's values.
proof fn lemma_push_to_set(s: Seq<Seq<char>>, x: Seq<char>)
    ensures
        s.push(x).to_set() == s.to_set().insert(x),
{
    let t = s.push(x);
    assert forall|y: Seq<char>| t.to_set().contains(y) == s.to_set().insert(x).contains(y) by {
        if s.contains(y) {
            let i = choose|i: int| 0 <= i < s.len() && s[i] == y;
            assert(t[i] == y);
        }
        if y == x {
            assert(t[s.len() as int] == y);
        }
        if t.contains(y) {
            let i = choose|i: int| 0 <= i < t.len() && t[i] == y;
            if i < s.len() {
                assert(s[i] == y);
            }
        }
    }
    assert(t.to_set() =~= s.to_set().insert(x));
}

/// Whether `name` is in the list.
pub fn holds(list: &[String], name: &str) -> (b: bool)
    ensures
        b == text::views(list@).contains(name@),
{
    let wanted = name.to_owned();
    let mut k: usize = 0;
    while k < list.len()
        invariant
            k <= list@.len(),
            wanted@ == name@,
            forall|i: int| 0 <= i < k ==> #[trigger] list@[i]@ != name@,
        decreases list@.len() - k,
    {
        if list[k] == wanted {
            assert(text::views(list@)[k as int] == name@);
            return true;
        }
        k += 1;
    }
    assert forall|i: int| 0 <= i < text::views(list@).len() implies text::views(list@)[i]
        != name@ by {
        assert(list@[i]@ != name@);
    }
    false
}

/// One route: connections to `host` go to `target`, a `host:port`, instead.
#[derive(Debug)]
pub struct Route {
    pub host: String,
    pub target: String,
}

/// No two routes are for the same host.
pub open spec fn distinct_hosts(routes: Seq<Route>) -> bool {
    forall|i: int, j: int|
        0 <= i < j < routes.len() ==> (#[trigger] routes[i]).host@ != (#[trigger] routes[j]).host@
}

/// Where each host is routed to.
pub open spec fn routes_map(routes: Seq<Route>) -> Map<Seq<char>, Seq<char>>
    decreases routes.len(),
{
    if routes.len() == 0 {
        Map::empty()
    } else {
        routes_map(routes.drop_last()).insert(routes.last().host@, routes.last().target@)
    }
}

/// A host is in the map exactly when a route is for it, and maps to that route's target.
proof fn lemma_routes_map(routes: Seq<Route>)
    requires
        distinct_hosts(routes),
    ensures
        forall|i: int|
            0 <= i < routes.len() ==> routes_map(routes).contains_key(
                (#[trigger] routes[i]).host@,
            ) && routes_map(routes)[routes[i].host@] == routes[i].target@,
        forall|h: Seq<char>| #[trigger]
            routes_map(routes).contains_key(h) ==> exists|i: int|
                0 <= i < routes.len() && (#[trigger] routes[i]).host@ == h,
    decreases routes.len(),
{
    if routes.len() > 0 {
        let init = routes.drop_last();
        let n = routes.len() - 1;
        assert(distinct_hosts(init)) by {
            assert forall|i: int, j: int| 0 <= i < j < init.len() implies (
            #[trigger] init[i]).host@ != (#[trigger] init[j]).host@ by {
                assert(init[i] == routes[i] && init[j] == routes[j]);
            }
        }
        lemma_routes_map(init);
        assert forall|i: int| 0 <= i < routes.len() implies routes_map(routes).contains_key(
            (#[trigger] routes[i]).host@,
        ) && routes_map(routes)[routes[i].host@] == routes[i].target@ by {
            if i < n {
                assert(init[i] == routes[i]);
                assert(routes[i].host@ != routes[n].host@);
            }
        }
        assert forall|h: Seq<char>| #[trigger] routes_map(routes).contains_key(h) implies exists|
            i: int,
        | 0 <= i < routes.len() && (#[trigger] routes[i]).host@ == h by {
            if h == routes[n].host@ {
                assert(routes[n].host@ == h);
            } else {
                assert(routes_map(init).contains_key(h));
                let i = choose|i: int| 0 <= i < init.len() && (#[trigger] init[i]).host@ == h;
                assert(routes[i].host@ == h);
            }
        }
    }
}

/// A table of routes, at most one for each host.
#[derive(Debug)]
pub struct RouteTable {
    routes: Vec<Route>,
}

impl View for RouteTable {
    type V = Map<Seq<char>, Seq<char>>;

    closed spec fn view(&self) -> Map<Seq<char>, Seq<char>> {
        routes_map(self.routes@)
    }
}

impl RouteTable {
    /// No host has two routes.
    #[verifier::type_invariant]
    spec fn distinct(self) -> bool {
        distinct_hosts(self.routes@)
    }

    /// A table without routes.
    pub fn new() -> (r: RouteTable)
        ensures
            r@ == (Map::<Seq<char>, Seq<char>>::empty()),
    {
        RouteTable { routes: Vec::new() }
    }

    /// The index of the route for `host`.
    fn position(routes: &Vec<Route>, host: &str) -> (r: Option<usize>)
        ensures
            match r {
                Some(i) => i < routes@.len() && routes@[i as int].host@ == host@,
                None => forall|i: int|
                    0 <= i < routes@.len() ==> (#[trigger] routes@[i]).host@ != host@,
            },
    {
        let wanted = host.to_owned();
        let mut k: usize = 0;
        while k < routes.len()
            invariant
                k <= routes@.len(),
                wanted@ == host@,
                forall|i: int| 0 <= i < k ==> (#[trigger] routes@[i]).host@ != host@,
            decreases routes@.len() - k,
        {
            if routes[k].host == wanted {
                return Some(k);
            }
            k += 1;
        }
        None
    }

    /// Routes `host` to `target`; an earlier route for the host is dropped.
    pub fn insert(&mut self, host: String, target: String)
        ensures
            final(self)@ == old(self)@.insert(host@, target@),
    {
        proof {
            use_type_invariant(&*self);
        }
        let mut routes: Vec<Route> = Vec::new();
        std::mem::swap(&mut routes, &mut self.routes);
        let ghost before = routes@;
        if let Some(i) = RouteTable::position(&routes, host.as_str()) {
            let _dropped = routes.remove(i);
            assert forall|a: int, b: int| 0 <= a < b < routes@.len() implies (
            #[trigger] routes@[a]).host@ != (#[trigger] routes@[b]).host@ by {
                let a2 = if a < i { a } else { a + 1 };
                let b2 = if b < i { b } else { b + 1 };
                assert(routes@[a] == before[a2] && routes@[b] == before[b2]);
            }
            assert forall|a: int| 0 <= a < routes@.len() implies (#[trigger] routes@[a]).host@
                != host@ by {
                if a < i {
                    assert(routes@[a] == before[a]);
                } else {
                    assert(routes@[a] == before[a + 1]);
                }
            }
            assert(routes_map(routes@) =~= routes_map(before).remove(host@)) by {
                lemma_routes_map(before);
                lemma_routes_map(routes@);
                lemma_removed(before, routes@, i as int);
            }
        }
        let ghost rest = routes@;
        routes.push(Route { host, target });
        assert(routes@.drop_last() =~= rest);
        assert(routes_map(routes@) =~= routes_map(before).insert(host@, target@));
        self.routes = routes;
    }

    /// Where `host` is routed to.
    pub fn get(&self, host: &str) -> (r: Option<&String>)
        ensures
            match r {
                Some(target) => self@.contains_key(host@) && target@ == self@[host@],
                None => !self@.contains_key(host@),
            },
    {
        proof {
            use_type_invariant(self);
            lemma_routes_map(self.routes@);
        }
        match RouteTable::position(&self.routes, host) {
            Some(i) => Some(&self.routes[i].target),
            None => None,
        }
    }

    /// All routes, in no particular order.
    pub fn list(&self) -> (r: &[Route])
        ensures
            routes_map(r@) == self@,
            distinct_hosts(r@),
    {
        proof {
            use_type_invariant(self);
        }
        self.routes.as_slice()
    }
}

/// Dropping one of several routes for different hosts drops its host from the map.
proof fn lemma_removed(before: Seq<Route>, after: Seq<Route>, i: int)
    requires
        distinct_hosts(before),
        distinct_hosts(after),
        0 <= i < before.len(),
        after == before.remove(i),
    ensures
        routes_map(after) == routes_map(before).remove(before[i].host@),
{
    lemma_routes_map(before);
    lemma_routes_map(after);
    let gone = before[i].host@;
    let want = routes_map(before).remove(gone);
    assert forall|h: Seq<char>| routes_map(after).contains_key(h) implies want.contains_key(h)
        && want[h] == routes_map(after)[h] by {
        let a = choose|a: int| 0 <= a < after.len() && (#[trigger] after[a]).host@ == h;
        let b = if a < i { a } else { a + 1 };
        assert(after[a] == before[b]);
        assert(before[b].host@ != gone);
    }
    assert forall|h: Seq<char>| want.contains_key(h) implies routes_map(after).contains_key(h) by {
        let b = choose|b: int| 0 <= b < before.len() && (#[trigger] before[b]).host@ == h;
        let a = if b < i { b } else { b - 1 };
        assert(after[a] == before[b]);
    }
    assert(routes_map(after) =~= want);
}

impl Clone for RouteTable {
    fn clone(&self) -> (r: RouteTable)
        ensures
            r@ == self@,
    {
        proof {
            use_type_invariant(self);
        }
        let mut routes: Vec<Route> = Vec::new();
        let mut k: usize = 0;
        while k < self.routes.len()
            invariant
                k <= self.routes@.len(),
                routes@.len() == k,
                forall|i: int|
                    0 <= i < k ==> (#[trigger] routes@[i]).host@ == self.routes@[i].host@
                        && routes@[i].target@ == self.routes@[i].target@,
            decreases self.routes@.len() - k,
        {
            routes.push(
                Route {
                    host: self.routes[k].host.clone(),
                    target: self.routes[k].target.clone(),
                },
            );
            k += 1;
        }
        proof {
            lemma_same_routes(routes@, self.routes@);
        }
        assert forall|i: int, j: int| 0 <= i < j < routes@.len() implies (#[trigger] routes@[i]).host@
            != (#[trigger] routes@[j]).host@ by {
            assert(self.routes@[i].host@ != self.routes@[j].host@);
        }
        RouteTable { routes }
    }
}

/// Routes with the same hosts and targets make the same map.
proof fn lemma_same_routes(a: Seq<Route>, b: Seq<Route>)
    requires
        a.len() == b.len(),
        forall|i: int|
            0 <= i < a.len() ==> (#[trigger] a[i]).host@ == b[i].host@ && a[i].target@
                == b[i].target@,
    ensures
        routes_map(a) == routes_map(b),
    decreases a.len(),
{
    if a.len() > 0 {
        assert(a[a.len() - 1].host@ == b[a.len() - 1].host@);
        lemma_same_routes(a.drop_last(), b.drop_last());
    }
}

/// A subdomain of an accelerated host is accelerated.
pub proof fn law_subdomains_are_accelerated(
    hosts: Set<Seq<char>>,
    label: Seq<char>,
    host: Seq<char>,
)
    requires
        accelerated(hosts, host),
    ensures
        accelerated(hosts, label + seq!['.'] + host),
{
    let base = choose|base: Seq<char>| hosts.contains(base) && #[trigger] covers(base, host);
    let sub = label + seq!['.'] + host;
    let cut = sub.len() - base.len();
    assert(sub.skip(cut) =~= host.skip(host.len() - base.len()));
    assert(host.skip(0) =~= host);
    assert(covers(base, sub));
}

/// A host is accelerated by a single base exactly when it is that base, or ends in a dot and
/// that base: a host that only ends in the same letters is not.
pub proof fn law_only_whole_labels_match(base: Seq<char>, host: Seq<char>)
    ensures
        accelerated(set![base], host) <==> (host == base || exists|label: Seq<char>|
            host == #[trigger] (label + seq!['.'] + base)),
{
    if accelerated(set![base], host) {
        assert(covers(base, host));
        if host != base {
            let cut = host.len() - base.len();
            let label = host.take(cut - 1);
            assert(host =~= label + seq!['.'] + base) by {
                assert(host.skip(cut) == base);
                assert forall|i: int| 0 <= i < host.len() implies host[i] == (label + seq!['.']
                    + base)[i] by {
                    if i >= cut {
                        assert(host.skip(cut)[i - cut] == host[i]);
                    }
                }
            }
        }
    }
    if host == base {
        assert(set![base].contains(base) && covers(base, host));
    }
    if exists|label: Seq<char>| host == #[trigger] (label + seq!['.'] + base) {
        let label = choose|label: Seq<char>| host == #[trigger] (label + seq!['.'] + base);
        assert(host.skip(host.len() - base.len()) =~= base);
        assert(set![base].contains(base) && covers(base, host));
    }
}

} // verus!
