//! Dependency ordering of named nodes by depth-first traversal.
use vstd::prelude::*;

use crate::ordered_set::{add_unique, views, Element, OrderedSet};

verus! {

/// The dependencies of `n` in `g`; a name that is not a node has none.
pub open spec fn deps_of<V>(g: Map<V, Seq<V>>, n: V) -> Seq<V> {
    if g.contains_key(n) {
        g[n]
    } else {
        Seq::empty()
    }
}

/// `g` with `n` as a node, which has no dependencies if it is new.
pub open spec fn with_node<V>(g: Map<V, Seq<V>>, n: V) -> Map<V, Seq<V>> {
    if g.contains_key(n) {
        g
    } else {
        g.insert(n, Seq::empty())
    }
}

/// Visiting `name` with `results` accumulated so far and `path` the nodes
/// entered and not yet left. A name already on the path fails with the path;
/// otherwise each dependency is visited in order, and `name` is then
/// appended to the results unless they hold it already.
pub open spec fn visit<V>(g: Map<V, Seq<V>>, name: V, results: Seq<V>, path: Seq<V>) -> Result<
    Seq<V>,
    Seq<V>,
>
    decreases g.dom().len() - path.len(), 1int, 0int,
{
    if path.contains(name) {
        Err(path)
    } else {
        match visit_deps(g, deps_of(g, name), 0, results, path.push(name)) {
            Ok(r) => Ok(add_unique(r, name)),
            Err(p) => Err(p),
        }
    }
}

/// Visiting `deps[i..]` in order, stopping at the first failure.
pub open spec fn visit_deps<V>(
    g: Map<V, Seq<V>>,
    deps: Seq<V>,
    i: int,
    results: Seq<V>,
    path: Seq<V>,
) -> Result<Seq<V>, Seq<V>>
    decreases g.dom().len() - path.len() + 1, 0int, deps.len() - i,
{
    if i < 0 || i >= deps.len() || g.dom().len() < path.len() {
        Ok(results)
    } else {
        match visit(g, deps[i], results, path) {
            Ok(r) => visit_deps(g, deps, i + 1, r, path),
            Err(p) => Err(p),
        }
    }
}

/// The dependencies-first order of everything reachable from `start`, or
/// the path on which a cycle was entered.
pub open spec fn order<V>(g: Map<V, Seq<V>>, start: V) -> Result<Seq<V>, Seq<V>> {
    visit(g, start, Seq::empty(), Seq::empty())
}

/// A dependency cycle, reported with the path of nodes that led into it.
#[derive(Debug)]
pub struct CycleError<T> {
    pub path: Vec<T>,
}

/// The dependencies of one node, each held once, in declaration order.
pub struct Node<T> {
    deps: OrderedSet<T>,
}

impl<T: Element> View for Node<T> {
    type V = Seq<T::V>;

    closed spec fn view(&self) -> Seq<T::V> {
        self.deps@
    }
}

impl<T: Element> Node<T> {
    pub closed spec fn wf(&self) -> bool {
        self.deps.wf()
    }

    pub fn new() -> (r: Node<T>)
        ensures
            r.wf(),
            r@ == Seq::<T::V>::empty(),
    {
        Node { deps: OrderedSet::new() }
    }

    pub fn len(&self) -> (r: usize)
        ensures
            r == self@.len(),
    {
        self.deps.len()
    }

    pub fn get(&self, i: usize) -> (r: &T)
        requires
            i < self@.len(),
        ensures
            r@ == self@[i as int],
    {
        self.deps.get(i)
    }

    pub fn add_edge(&mut self, name: &T)
        requires
            old(self).wf(),
        ensures
            final(self).wf(),
            final(self)@ == add_unique(old(self)@, name@),
    {
        self.deps.add(name);
    }
}

/// A graph of named nodes, each with its dependencies.
pub struct Topology<T> {
    names: Vec<T>,
    nodes: Vec<Node<T>>,
}

impl<T: Element> View for Topology<T> {
    type V = Map<T::V, Seq<T::V>>;

    closed spec fn view(&self) -> Map<T::V, Seq<T::V>> {
        Map::new(
            |k: T::V| views(self.names@).contains(k),
            |k: T::V| self.nodes@[views(self.names@).index_of(k)]@,
        )
    }
}

impl<T: Element> Topology<T> {
    pub closed spec fn wf(&self) -> bool {
        &&& self.names.len() == self.nodes.len()
        &&& views(self.names@).no_duplicates()
        &&& forall|i: int| 0 <= i < self.nodes.len() ==> (#[trigger] self.nodes@[i]).wf()
    }

    proof fn lemma_entry(&self, i: int)
        requires
            self.wf(),
            0 <= i < self.names.len(),
        ensures
            self@.contains_key(self.names@[i]@),
            self@[self.names@[i]@] == self.nodes@[i]@,
    {
        let keys = views(self.names@);
        let k = self.names@[i]@;
        assert(keys[i] == k);
        assert(keys.contains(k));
        let j = keys.index_of(k);
        assert(keys[j] == k);
    }

    proof fn lemma_dom(&self)
        requires
            self.wf(),
        ensures
            self@.dom() == views(self.names@).to_set(),
            self@.dom().finite(),
            self@.dom().len() == self.names.len(),
    {
        assert(self@.dom() =~= views(self.names@).to_set());
        views(self.names@).unique_seq_to_set();
    }

    pub fn new() -> (r: Topology<T>)
        ensures
            r.wf(),
            r@ == Map::<T::V, Seq<T::V>>::empty(),
    {
        let r = Topology { names: Vec::new(), nodes: Vec::new() };
        assert(r@ =~= Map::<T::V, Seq<T::V>>::empty());
        r
    }

    fn find(&self, name: &T) -> (r: Option<usize>)
        requires
            self.wf(),
        ensures
            match r {
                Some(i) => i < self.names.len() && self.names@[i as int]@ == name@,
                None => !self@.contains_key(name@),
            },
    {
        let mut i: usize = 0;
        while i < self.names.len()
            invariant
                i <= self.names.len(),
                forall|j: int| 0 <= j < i ==> self.names@[j]@ != name@,
            decreases self.names.len() - i,
        {
            if self.names[i].same(name) {
                return Some(i);
            }
            i += 1;
        }
        assert(!views(self.names@).contains(name@));
        None
    }

    /// Makes `name` a node, with no dependencies, unless it is one already.
    pub fn add_node(&mut self, name: &T)
        requires
            old(self).wf(),
        ensures
            final(self).wf(),
            final(self)@ == with_node(old(self)@, name@),
    {
        let found = self.find(name);
        if let Some(i) = found {
            proof {
                self.lemma_entry(i as int);
            }
        } else {
            let ghost old_keys = views(self.names@);
            self.names.push(name.duplicate());
            self.nodes.push(Node::new());
            let ghost keys = views(self.names@);
            assert(keys =~= old_keys.push(name@));
            assert forall|k: T::V| #[trigger] self@.contains_key(k) implies self@[k]
                == old(self)@.insert(name@, Seq::empty())[k] by {
                let i = choose|i: int| 0 <= i < keys.len() && keys[i] == k;
                self.lemma_entry(i);
                if i < old_keys.len() {
                    old(self).lemma_entry(i);
                }
            }
            assert forall|k: T::V| #[trigger] old(self)@.insert(name@, Seq::empty()).contains_key(
                k,
            ) implies self@.contains_key(k) by {
                if k != name@ {
                    let i = choose|i: int| 0 <= i < old_keys.len() && old_keys[i] == k;
                    assert(keys[i] == k);
                } else {
                    assert(keys[keys.len() - 1] == k);
                }
            }
            assert(self@ =~= old(self)@.insert(name@, Seq::empty()));
        }
    }

    /// Records that `from` depends on `to`, making both nodes.
    pub fn add_edge(&mut self, from: &T, to: &T)
        requires
            old(self).wf(),
        ensures
            final(self).wf(),
            final(self)@ == ({
                let g = with_node(with_node(old(self)@, from@), to@);
                g.insert(from@, add_unique(g[from@], to@))
            }),
    {
        self.add_node(from);
        self.add_node(to);
        let ghost g = self@;
        let ghost before = *self;
        match self.find(from) {
            Some(i) => {
                proof {
                    self.lemma_entry(i as int);
                }
                self.nodes[i].add_edge(to);
                let ghost keys = views(self.names@);
                assert forall|k: T::V| #[trigger] self@.contains_key(k) implies self@[k]
                    == g.insert(from@, add_unique(g[from@], to@))[k] by {
                    let j = choose|j: int| 0 <= j < keys.len() && keys[j] == k;
                    self.lemma_entry(j);
                    before.lemma_entry(j);
                    assert(keys[i as int] == self.names@[i as int]@);
                    if j != i {
                        assert(self.nodes@[j] == before.nodes@[j]);
                        assert(k != from@);
                    } else {
                        assert(k == from@);
                    }
                }
                assert(self@ =~= g.insert(from@, add_unique(g[from@], to@)));
            },
            None => {},
        }
    }
}


/// A path of distinct nodes of a finite graph is no longer than the graph.
proof fn lemma_path_fits<V>(g: Map<V, Seq<V>>, path: Seq<V>)
    requires
        g.dom().finite(),
        path.no_duplicates(),
        forall|i: int| 0 <= i < path.len() ==> g.contains_key(#[trigger] path[i]),
    ensures
        path.len() <= g.dom().len(),
{
    path.unique_seq_to_set();
    vstd::set_lib::lemma_len_subset(path.to_set(), g.dom());
}

/// A failed visit reports a path that begins with the path it started on.
proof fn lemma_visit_extends_path<V>(g: Map<V, Seq<V>>, name: V, results: Seq<V>, path: Seq<V>)
    ensures
        visit(g, name, results, path) matches Err(p) ==> path.len() <= p.len() && forall|k: int|
            0 <= k < path.len() ==> p[k] == path[k],
    decreases g.dom().len() - path.len(), 1int, 0int,
{
    if !path.contains(name) {
        lemma_deps_extend_path(g, deps_of(g, name), 0, results, path.push(name));
    }
}

proof fn lemma_deps_extend_path<V>(
    g: Map<V, Seq<V>>,
    deps: Seq<V>,
    i: int,
    results: Seq<V>,
    path: Seq<V>,
)
    ensures
        visit_deps(g, deps, i, results, path) matches Err(p) ==> path.len() <= p.len() && forall|
            k: int,
        | 0 <= k < path.len() ==> p[k] == path[k],
    decreases g.dom().len() - path.len() + 1, 0int, deps.len() - i,
{
    if !(i < 0 || i >= deps.len() || g.dom().len() < path.len()) {
        lemma_visit_extends_path(g, deps[i], results, path);
        if let Ok(r) = visit(g, deps[i], results, path) {
            lemma_deps_extend_path(g, deps, i + 1, r, path);
        }
    }
}

/// Visiting dependencies fails when one of those still to visit is on the
/// path.
proof fn lemma_deps_meet_path<V>(
    g: Map<V, Seq<V>>,
    deps: Seq<V>,
    i: int,
    results: Seq<V>,
    path: Seq<V>,
    k: int,
)
    requires
        0 <= i <= k < deps.len(),
        path.contains(deps[k]),
        path.len() <= g.dom().len(),
    ensures
        visit_deps(g, deps, i, results, path) is Err,
    decreases deps.len() - i,
{
    if let Ok(r) = visit(g, deps[i], results, path) {
        if i < k {
            lemma_deps_meet_path(g, deps, i + 1, r, path, k);
        }
    }
}

/// Where `x` depends first of all on `y`, and `y` depends on `x`, ordering
/// from `x` fails, and the path it reports holds both `x` and `y`.
pub proof fn lemma_mutual_dependency_fails<V>(g: Map<V, Seq<V>>, x: V, y: V)
    requires
        g.dom().finite(),
        deps_of(g, x).len() > 0,
        deps_of(g, x)[0] == y,
        deps_of(g, y).contains(x),
    ensures
        order(g, x) matches Err(p) && p.contains(x) && p.contains(y),
{
    let px = seq![x];
    assert(px[0] == x);
    assert(px.contains(x));
    assert(!Seq::<V>::empty().contains(x));
    assert(Seq::<V>::empty().push(x) =~= px);
    lemma_path_fits(g, px);
    if x == y {
        assert(visit(g, y, Seq::empty(), px) == Err::<Seq<V>, Seq<V>>(px));
    } else {
        let pxy = seq![x, y];
        assert(!px.contains(y));
        assert(px.push(y) =~= pxy);
        assert(pxy[0] == x && pxy[1] == y);
        lemma_path_fits(g, pxy);
        let k = choose|k: int| 0 <= k < deps_of(g, y).len() && deps_of(g, y)[k] == x;
        assert(pxy.contains(deps_of(g, y)[k]));
        lemma_deps_meet_path(g, deps_of(g, y), 0, Seq::empty(), pxy, k);
        lemma_deps_extend_path(g, deps_of(g, y), 0, Seq::empty(), pxy);
        let p = visit_deps(g, deps_of(g, y), 0, Seq::empty(), pxy)->Err_0;
        assert(p[0] == x && p[1] == y);
        assert(visit(g, y, Seq::empty(), px) == Err::<Seq<V>, Seq<V>>(p));
        assert(p.contains(x) && p.contains(y));
    }
}

/// Every element of `s` comes after each of its dependencies in `g`.
pub open spec fn dependencies_first<V>(g: Map<V, Seq<V>>, s: Seq<V>) -> bool {
    forall|i: int, d: V|
        0 <= i < s.len() && #[trigger] deps_of(g, s[i]).contains(d) ==> s.take(i).contains(d)
}

/// `r` begins with `s`.
pub open spec fn extends<V>(r: Seq<V>, s: Seq<V>) -> bool {
    s.len() <= r.len() && forall|k: int| 0 <= k < s.len() ==> r[k] == s[k]
}

/// A path of distinct nodes of `g`.
pub open spec fn node_path<V>(g: Map<V, Seq<V>>, path: Seq<V>) -> bool {
    &&& path.no_duplicates()
    &&& forall|k: int| 0 <= k < path.len() ==> g.contains_key(#[trigger] path[k])
}

proof fn lemma_visit_order<V>(g: Map<V, Seq<V>>, n: V, res: Seq<V>, path: Seq<V>)
    requires
        g.dom().finite(),
        node_path(g, path),
        res.no_duplicates(),
        dependencies_first(g, res),
    ensures
        visit(g, n, res, path) matches Ok(r) ==> {
            &&& r.no_duplicates()
            &&& dependencies_first(g, r)
            &&& extends(r, res)
            &&& r.contains(n)
        },
    decreases g.dom().len() - path.len(), 1int, 0int,
{
    if !path.contains(n) {
        let deps = deps_of(g, n);
        let inner = path.push(n);
        if g.contains_key(n) {
            assert forall|k: int| 0 <= k < inner.len() implies g.contains_key(#[trigger] inner[k]) by {
                if k < path.len() {
                    assert(inner[k] == path[k]);
                }
            }
            lemma_deps_order(g, deps, 0, res, inner);
        } else {
            assert(visit_deps(g, deps, 0, res, inner) == Ok::<Seq<V>, Seq<V>>(res));
        }
        if let Ok(r1) = visit_deps(g, deps, 0, res, inner) {
            if r1.contains(n) {
            } else {
                let r = r1.push(n);
                assert(r[r1.len() as int] == n);
                assert(r.no_duplicates()) by {
                    assert forall|i: int, j: int|
                        0 <= i < r.len() && 0 <= j < r.len() && i != j implies r[i] != r[j] by {
                        if i < r1.len() && j == r1.len() {
                            assert(r1[i] != n);
                        }
                        if j < r1.len() && i == r1.len() {
                            assert(r1[j] != n);
                        }
                    }
                }
                assert forall|i: int, d: V|
                    0 <= i < r.len() && #[trigger] deps_of(g, r[i]).contains(d) implies r.take(
                    i,
                ).contains(d) by {
                    if i < r1.len() {
                        assert(r[i] == r1[i]);
                        assert(r1.take(i).contains(d));
                        assert(r.take(i) =~= r1.take(i));
                    } else {
                        let k = choose|k: int| 0 <= k < deps.len() && deps[k] == d;
                        assert(r1.contains(deps[k]));
                        assert(r.take(i) =~= r1);
                    }
                }
            }
        }
    }
}

proof fn lemma_deps_order<V>(g: Map<V, Seq<V>>, deps: Seq<V>, i: int, res: Seq<V>, path: Seq<V>)
    requires
        0 <= i,
        g.dom().finite(),
        node_path(g, path),
        res.no_duplicates(),
        dependencies_first(g, res),
    ensures
        visit_deps(g, deps, i, res, path) matches Ok(r) ==> {
            &&& r.no_duplicates()
            &&& dependencies_first(g, r)
            &&& extends(r, res)
            &&& forall|k: int| i <= k < deps.len() ==> r.contains(#[trigger] deps[k])
        },
    decreases g.dom().len() - path.len() + 1, 0int, deps.len() - i,
{
    lemma_path_fits(g, path);
    if i < deps.len() {
        lemma_visit_order(g, deps[i], res, path);
        if let Ok(r1) = visit(g, deps[i], res, path) {
            lemma_deps_order(g, deps, i + 1, r1, path);
            if let Ok(r) = visit_deps(g, deps, i + 1, r1, path) {
                let j = choose|j: int| 0 <= j < r1.len() && r1[j] == deps[i];
                assert(r[j] == deps[i]);
                assert forall|k: int| i <= k < deps.len() implies r.contains(#[trigger] deps[k]) by {
                    if k == i {
                        assert(r[j] == deps[k]);
                    }
                }
            }
        }
    }
}

/// `p` is a chain of dependencies that starts at `start`: each node of it
/// depends on the next.
pub open spec fn dependency_chain<V>(g: Map<V, Seq<V>>, start: V, p: Seq<V>) -> bool {
    &&& p.len() > 0
    &&& p[0] == start
    &&& forall|k: int| 0 <= k < p.len() - 1 ==> deps_of(g, #[trigger] p[k]).contains(p[k + 1])
}

/// `p` witnesses a cycle reachable from `start`: a chain of dependencies
/// from `start` whose last node depends on a node of the chain.
pub open spec fn cycle_path<V>(g: Map<V, Seq<V>>, start: V, p: Seq<V>) -> bool {
    &&& dependency_chain(g, start, p)
    &&& exists|k: int| 0 <= k < p.len() && deps_of(g, p.last()).contains(p[k])
}

/// Whether a chain from `path` may continue with `n`.
pub open spec fn continues<V>(g: Map<V, Seq<V>>, start: V, path: Seq<V>, n: V) -> bool {
    if path.len() == 0 {
        n == start
    } else {
        dependency_chain(g, start, path) && deps_of(g, path.last()).contains(n)
    }
}

proof fn lemma_visit_cycle<V>(g: Map<V, Seq<V>>, start: V, n: V, res: Seq<V>, path: Seq<V>)
    requires
        continues(g, start, path, n),
    ensures
        visit(g, n, res, path) matches Err(p) ==> cycle_path(g, start, p),
    decreases g.dom().len() - path.len(), 1int, 0int,
{
    if path.contains(n) {
        let k = choose|k: int| 0 <= k < path.len() && path[k] == n;
        assert(deps_of(g, path.last()).contains(path[k]));
    } else {
        let q = path.push(n);
        assert(dependency_chain(g, start, q)) by {
            assert(q[0] == start);
            assert forall|k: int| 0 <= k < q.len() - 1 implies deps_of(g, #[trigger] q[k]).contains(
                q[k + 1],
            ) by {
                assert(q[k] == path[k]);
                if k < path.len() - 1 {
                    assert(q[k + 1] == path[k + 1]);
                }
            }
        }
        lemma_deps_cycle(g, start, deps_of(g, n), 0, res, q);
    }
}

proof fn lemma_deps_cycle<V>(
    g: Map<V, Seq<V>>,
    start: V,
    deps: Seq<V>,
    i: int,
    res: Seq<V>,
    path: Seq<V>,
)
    requires
        dependency_chain(g, start, path),
        deps == deps_of(g, path.last()),
    ensures
        visit_deps(g, deps, i, res, path) matches Err(p) ==> cycle_path(g, start, p),
    decreases g.dom().len() - path.len() + 1, 0int, deps.len() - i,
{
    if !(i < 0 || i >= deps.len() || g.dom().len() < path.len()) {
        assert(deps.contains(deps[i]));
        lemma_visit_cycle(g, start, deps[i], res, path);
        if let Ok(r) = visit(g, deps[i], res, path) {
            lemma_deps_cycle(g, start, deps, i + 1, r, path);
        }
    }
}

/// Ordering from `start` fails only on a cycle: the path it reports is a
/// chain of dependencies from `start` whose last node depends on a node of
/// the chain. So where no cycle is reachable from `start`, ordering
/// succeeds.
pub proof fn lemma_order_fails_only_on_cycles<V>(g: Map<V, Seq<V>>, start: V)
    ensures
        order(g, start) matches Err(p) ==> cycle_path(g, start, p),
        (forall|p: Seq<V>| !cycle_path(g, start, p)) ==> order(g, start) is Ok,
{
    lemma_visit_cycle(g, start, start, Seq::empty(), Seq::empty());
}

/// `x` is reached from `start` by a chain of dependencies.
pub open spec fn reaches<V>(g: Map<V, Seq<V>>, start: V, x: V) -> bool {
    exists|p: Seq<V>| dependency_chain(g, start, p) && p.last() == x
}

proof fn lemma_chain_push<V>(g: Map<V, Seq<V>>, start: V, path: Seq<V>, n: V)
    requires
        continues(g, start, path, n),
    ensures
        dependency_chain(g, start, path.push(n)),
{
    let q = path.push(n);
    assert(q[0] == start);
    assert forall|k: int| 0 <= k < q.len() - 1 implies deps_of(g, #[trigger] q[k]).contains(
        q[k + 1],
    ) by {
        assert(q[k] == path[k]);
        if k < path.len() - 1 {
            assert(q[k + 1] == path[k + 1]);
        }
    }
}

proof fn lemma_visit_keeps_path_out<V>(
    g: Map<V, Seq<V>>,
    start: V,
    n: V,
    res: Seq<V>,
    path: Seq<V>,
)
    requires
        continues(g, start, path, n),
        forall|x: V| #[trigger] res.contains(x) ==> reaches(g, start, x),
    ensures
        visit(g, n, res, path) matches Ok(r) ==> {
            &&& forall|x: V| path.contains(x) ==> (r.contains(x) == res.contains(x))
            &&& forall|x: V| #[trigger] r.contains(x) ==> reaches(g, start, x)
        },
    decreases g.dom().len() - path.len(), 1int, 0int,
{
    if !path.contains(n) {
        let q = path.push(n);
        lemma_chain_push(g, start, path, n);
        assert(q.last() == n);
        lemma_deps_keep_path_out(g, start, deps_of(g, n), 0, res, q);
        if let Ok(r1) = visit_deps(g, deps_of(g, n), 0, res, q) {
            assert forall|x: V| path.contains(x) implies q.contains(x) by {
                let k = choose|k: int| 0 <= k < path.len() && path[k] == x;
                assert(q[k] == x);
            }
            if !r1.contains(n) {
                let r = r1.push(n);
                assert forall|x: V| #[trigger] r.contains(x) implies r1.contains(x) || x == n by {
                    let k = choose|k: int| 0 <= k < r.len() && r[k] == x;
                    if k < r1.len() {
                        assert(r1[k] == x);
                    }
                }
                assert forall|x: V| r1.contains(x) implies #[trigger] r.contains(x) by {
                    let k = choose|k: int| 0 <= k < r1.len() && r1[k] == x;
                    assert(r[k] == x);
                }
            }
        }
    }
}

proof fn lemma_deps_keep_path_out<V>(
    g: Map<V, Seq<V>>,
    start: V,
    deps: Seq<V>,
    i: int,
    res: Seq<V>,
    path: Seq<V>,
)
    requires
        dependency_chain(g, start, path),
        deps == deps_of(g, path.last()),
        forall|x: V| #[trigger] res.contains(x) ==> reaches(g, start, x),
    ensures
        visit_deps(g, deps, i, res, path) matches Ok(r) ==> {
            &&& forall|x: V| path.contains(x) ==> (r.contains(x) == res.contains(x))
            &&& forall|x: V| #[trigger] r.contains(x) ==> reaches(g, start, x)
        },
    decreases g.dom().len() - path.len() + 1, 0int, deps.len() - i,
{
    if !(i < 0 || i >= deps.len() || g.dom().len() < path.len()) {
        assert(deps.contains(deps[i]));
        lemma_visit_keeps_path_out(g, start, deps[i], res, path);
        if let Ok(r) = visit(g, deps[i], res, path) {
            lemma_deps_keep_path_out(g, start, deps, i + 1, r, path);
        }
    }
}

proof fn lemma_order_ends_with_start<V>(g: Map<V, Seq<V>>, start: V)
    ensures
        order(g, start) matches Ok(r) ==> r.len() > 0 && r.last() == start,
{
    let ps = seq![start];
    assert(ps[0] == start);
    assert(Seq::<V>::empty().push(start) =~= ps);
    assert(!Seq::<V>::empty().contains(start));
    lemma_deps_keep_path_out(g, start, deps_of(g, start), 0, Seq::empty(), ps);
    if let Ok(r1) = visit_deps(g, deps_of(g, start), 0, Seq::empty(), ps) {
        assert(ps.contains(start));
        assert(!r1.contains(start));
    }
}

/// A successful order from `start` ends with `start` and holds exactly the
/// nodes reached from `start`.
pub proof fn lemma_order_holds_reached<V>(g: Map<V, Seq<V>>, start: V)
    requires
        g.dom().finite(),
    ensures
        order(g, start) matches Ok(r) ==> {
            &&& r.len() > 0
            &&& r.last() == start
            &&& forall|x: V| r.contains(x) <==> reaches(g, start, x)
        },
{
    lemma_order_ends_with_start(g, start);
    lemma_visit_order(g, start, Seq::empty(), Seq::empty());
    lemma_visit_keeps_path_out(g, start, start, Seq::empty(), Seq::empty());
    if let Ok(r) = order(g, start) {
        assert forall|x: V| reaches(g, start, x) implies r.contains(x) by {
            let p = choose|p: Seq<V>| dependency_chain(g, start, p) && p.last() == x;
            lemma_chain_in_order(g, start, r, p, p.len() - 1);
            assert(p[p.len() - 1] == x);
        }
    }
}

/// Every node of a chain from `start` is in an order that holds `start`
/// and puts each node after its dependencies.
proof fn lemma_chain_in_order<V>(g: Map<V, Seq<V>>, start: V, r: Seq<V>, p: Seq<V>, k: int)
    requires
        dependency_chain(g, start, p),
        r.contains(start),
        dependencies_first(g, r),
        0 <= k < p.len(),
    ensures
        forall|j: int| 0 <= j <= k ==> r.contains(#[trigger] p[j]),
    decreases k,
{
    if k > 0 {
        lemma_chain_in_order(g, start, r, p, k - 1);
        let a = p[k - 1];
        assert(deps_of(g, p[k - 1]).contains(p[k]));
        let i = choose|i: int| 0 <= i < r.len() && r[i] == a;
        assert(deps_of(g, r[i]).contains(p[k]));
        assert(r.take(i).contains(p[k]));
        let t = choose|t: int| 0 <= t < r.take(i).len() && r.take(i)[t] == p[k];
        assert(r[t] == p[k]);
    }
}

/// Whether `v` holds an element with the view of `x`.
fn holds<T: Element>(v: &Vec<T>, x: &T) -> (r: bool)
    ensures
        r == views(v@).contains(x@),
{
    let mut i: usize = 0;
    while i < v.len()
        invariant
            i <= v.len(),
            forall|j: int| 0 <= j < i ==> v@[j]@ != x@,
        decreases v.len() - i,
    {
        if v[i].same(x) {
            assert(views(v@)[i as int] == x@);
            return true;
        }
        i += 1;
    }
    false
}

/// A copy of `v`, element by element.
fn copy_all<T: Element>(v: &Vec<T>) -> (r: Vec<T>)
    ensures
        views(r@) == views(v@),
{
    let mut r: Vec<T> = Vec::new();
    let mut i: usize = 0;
    while i < v.len()
        invariant
            i <= v.len(),
            views(r@) == views(v@).take(i as int),
        decreases v.len() - i,
    {
        let x = v[i].duplicate();
        assert(x@ == views(v@)[i as int]);
        let ghost before = r@;
        r.push(x);
        assert(views(r@) =~= views(before).push(x@));
        i += 1;
        assert(views(r@) =~= views(v@).take(i as int));
    }
    assert(views(v@).take(v.len() as int) =~= views(v@));
    r
}

impl<T: Element> Topology<T> {
    /// Visits `name`, appending to `results`, with `path` the stack of nodes
    /// entered and not yet left; the stack is as it was when this succeeds.
    fn visit(&self, name: &T, results: &mut OrderedSet<T>, path: &mut Vec<T>) -> (r: Result<
        (),
        Vec<T>,
    >)
        requires
            self.wf(),
            old(results).wf(),
            views(old(path)@).no_duplicates(),
            forall|i: int| 0 <= i < old(path).len() ==> self@.contains_key(#[trigger] old(path)@[i]@),
        ensures
            final(results).wf(),
            match r {
                Ok(()) => {
                    &&& final(path)@ == old(path)@
                    &&& visit(self@, name@, old(results)@, views(old(path)@)) == Ok::<
                        Seq<T::V>,
                        Seq<T::V>,
                    >(final(results)@)
                },
                Err(p) => visit(self@, name@, old(results)@, views(old(path)@)) == Err::<
                    Seq<T::V>,
                    Seq<T::V>,
                >(views(p@)),
            },
        decreases self@.dom().len() - old(path)@.len(),
    {
        let ghost g = self@;
        let ghost outer = views(path@);
        let ghost r0 = results@;
        proof {
            self.lemma_dom();
        }
        if holds(path, name) {
            return Err(copy_all(path));
        }
        match self.find(name) {
            None => {
                results.add(name);
                Ok(())
            },
            Some(idx) => {
                proof {
                    self.lemma_entry(idx as int);
                }
                path.push(name.duplicate());
                let ghost inner = views(path@);
                let ghost pv = path@;
                assert(inner =~= outer.push(name@));
                proof {
                    assert forall|i: int| 0 <= i < inner.len() implies g.contains_key(#[trigger] inner[i]) by {
                        if i < outer.len() {
                            assert(inner[i] == old(path)@[i]@);
                        }
                    }
                    lemma_path_fits(g, inner);
                }
                let node = &self.nodes[idx];
                let ghost deps = node@;
                let mut j: usize = 0;
                while j < node.len()
                    invariant
                        self.wf(),
                        g == self@,
                        results.wf(),
                        node == &self.nodes@[idx as int],
                        deps == node@,
                        deps == deps_of(g, name@),
                        j <= deps.len(),
                        path@ == pv,
                        inner == views(pv),
                        inner.no_duplicates(),
                        forall|i: int| 0 <= i < pv.len() ==> g.contains_key(#[trigger] pv[i]@),
                        pv.len() == inner.len(),
                        pv.len() == old(path)@.len() + 1,
                        inner == outer.push(name@),
                        outer == views(old(path)@),
                        r0 == old(results)@,
                        !outer.contains(name@),
                        pv.len() <= g.dom().len(),
                        visit_deps(g, deps, 0, r0, inner) == visit_deps(
                            g,
                            deps,
                            j as int,
                            results@,
                            inner,
                        ),
                    decreases deps.len() - j,
                {
                    let d = node.get(j);
                    proof {
                        assert forall|i: int| 0 <= i < pv.len() implies g.contains_key(
                            #[trigger] pv[i]@,
                        ) by {
                            assert(inner[i] == pv[i]@);
                        }
                    }
                    match self.visit(d, results, path) {
                        Ok(()) => {},
                        Err(p) => {
                            return Err(p);
                        },
                    }
                    j += 1;
                }
                path.pop();
                assert(path@ =~= old(path)@);
                results.add(name);
                Ok(())
            },
        }
    }

    /// Every node reachable from `name`, each after all of its
    /// dependencies; or, where a node depends on itself through others, the
    /// path of nodes that led back into it.
    pub fn sort(&self, name: &T) -> (r: Result<Vec<T>, CycleError<T>>)
        requires
            self.wf(),
        ensures
            match r {
                Ok(v) => {
                    &&& order(self@, name@) == Ok::<Seq<T::V>, Seq<T::V>>(views(v@))
                    &&& views(v@).no_duplicates()
                    &&& dependencies_first(self@, views(v@))
                    &&& views(v@).contains(name@)
                    &&& views(v@).last() == name@
                    &&& forall|x: T::V| views(v@).contains(x) <==> reaches(self@, name@, x)
                },
                Err(e) => {
                    &&& order(self@, name@) == Err::<Seq<T::V>, Seq<T::V>>(views(e.path@))
                    &&& cycle_path(self@, name@, views(e.path@))
                },
            },
    {
        proof {
            self.lemma_dom();
            lemma_visit_order(self@, name@, Seq::empty(), Seq::empty());
            lemma_order_fails_only_on_cycles(self@, name@);
            lemma_order_holds_reached(self@, name@);
        }
        let mut results: OrderedSet<T> = OrderedSet::new();
        let mut path: Vec<T> = Vec::new();
        assert(views(path@) =~= Seq::<T::V>::empty());
        match self.visit(name, &mut results, &mut path) {
            Ok(()) => Ok(results.into_vec()),
            Err(p) => Err(CycleError { path: p }),
        }
    }
}

} // verus!
