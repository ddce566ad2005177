use vstd::prelude::*;
use crate::error::Error;
use crate::paths::lemma_shorten;
use crate::relations::{image, preimage, IdxSet, Relation};
use crate::weight::{parse_weight, weight_of, DEFAULT_WEIGHT};

verus! {

/// The largest number of nodes the path search accepts, so that the weight
/// of any path it keeps fits in a `u64`.
pub const MAX_NODES: usize = 2_000_000;

/// The largest number of relation declarations the resolver accepts.
pub const MAX_RELATIONS: usize = 1_000_000;

/// An edge of the resolver's graph, between two node positions. Its forward
/// direction goes from `source` to `target`, its backward one the other way.
#[derive(Clone, Copy, Debug, PartialEq, Eq)]
pub struct Edge {
    pub source: usize,
    pub target: usize,
    pub weight: u64,
}

/// One step of a path: an edge, taken forward or backward.
#[derive(Clone, Copy, Debug, PartialEq, Eq)]
pub struct Step {
    pub edge: usize,
    pub forward: bool,
}

/// The best path found to a node so far: its weight and its steps.
pub type Best = Option<(u64, Vec<Step>)>;

pub open spec fn step_start(edges: Seq<Edge>, st: Step) -> usize {
    if st.forward {
        edges[st.edge as int].source
    } else {
        edges[st.edge as int].target
    }
}

pub open spec fn step_end(edges: Seq<Edge>, st: Step) -> usize {
    if st.forward {
        edges[st.edge as int].target
    } else {
        edges[st.edge as int].source
    }
}

/// `p` is a path of `edges` from node `a` to node `b`.
pub open spec fn is_walk(edges: Seq<Edge>, p: Seq<Step>, a: usize, b: usize) -> bool {
    &&& forall|i: int| 0 <= i < p.len() ==> (#[trigger] p[i]).edge < edges.len()
    &&& if p.len() == 0 {
        a == b
    } else {
        &&& step_start(edges, p[0]) == a
        &&& step_end(edges, p[p.len() - 1]) == b
        &&& forall|i: int| 0 <= i < p.len() - 1 ==> step_end(edges, #[trigger] p[i]) == step_start(edges, p[i + 1])
    }
}

/// The total weight of the edges of `p`.
pub open spec fn walk_weight(edges: Seq<Edge>, p: Seq<Step>) -> nat
    decreases p.len(),
{
    if p.len() == 0 {
        0
    } else {
        walk_weight(edges, p.drop_last()) + edges[p.last().edge as int].weight as nat
    }
}

/// The edges join nodes below `n` and have positive weights of at most
/// `MAX_WEIGHT`.
pub open spec fn graph_ok(edges: Seq<Edge>, n: nat) -> bool {
    forall|i: int| 0 <= i < edges.len() ==> {
        &&& (#[trigger] edges[i]).source < n
        &&& edges[i].target < n
        &&& 0 < edges[i].weight <= crate::weight::MAX_WEIGHT
    }
}

/// `e` is a path from `s` to `v` of at most `k` steps, with its weight.
pub open spec fn entry_ok(edges: Seq<Edge>, s: usize, v: usize, e: Best, k: nat) -> bool {
    match e {
        Some(entry) => {
            &&& is_walk(edges, entry.1@, s, v)
            &&& entry.1@.len() <= k
            &&& entry.0 == walk_weight(edges, entry.1@)
            &&& entry.0 <= k * crate::weight::MAX_WEIGHT
        },
        None => true,
    }
}

/// `e` is no heavier than any path from `s` to `v` of at most `k` steps.
pub open spec fn entry_best(edges: Seq<Edge>, s: usize, v: usize, e: Best, k: nat) -> bool {
    forall|q: Seq<Step>| #[trigger] is_walk(edges, q, s, v) && q.len() <= k ==> e is Some && e->Some_0.0 <= walk_weight(edges, q)
}

/// The entries of `best` are least-weight paths from `s` among those of at
/// most `k` steps, one per node, and `None` where there is none.
pub open spec fn layer_ok(edges: Seq<Edge>, s: usize, best: Seq<Best>, k: nat) -> bool {
    &&& forall|v: int| 0 <= v < best.len() ==> entry_ok(edges, s, v as usize, #[trigger] best[v], k)
    &&& forall|v: int| 0 <= v < best.len() ==> entry_best(edges, s, v as usize, #[trigger] best[v], k)
}

proof fn lemma_walk_push(edges: Seq<Edge>, p: Seq<Step>, a: usize, u: usize, st: Step)
    requires
        is_walk(edges, p, a, u),
        st.edge < edges.len(),
        step_start(edges, st) == u,
    ensures
        is_walk(edges, p.push(st), a, step_end(edges, st)),
        walk_weight(edges, p.push(st)) == walk_weight(edges, p) + edges[st.edge as int].weight,
{
    let q = p.push(st);
    assert(q.drop_last() =~= p);
    assert forall|i: int| 0 <= i < q.len() implies (#[trigger] q[i]).edge < edges.len() by {
        if i < p.len() {
            assert(q[i] == p[i]);
        }
    }
    if p.len() > 0 {
        assert forall|i: int| 0 <= i < q.len() - 1 implies step_end(edges, #[trigger] q[i]) == step_start(edges, q[i + 1]) by {
            assert(q[i] == p[i]);
            if i + 1 < p.len() {
                assert(q[i + 1] == p[i + 1]);
            }
        }
    }
}

proof fn lemma_walk_pop(edges: Seq<Edge>, q: Seq<Step>, a: usize, v: usize)
    requires
        is_walk(edges, q, a, v),
        q.len() > 0,
    ensures
        is_walk(edges, q.drop_last(), a, step_start(edges, q.last())),
        step_end(edges, q.last()) == v,
        q.last().edge < edges.len(),
{
    let p = q.drop_last();
    assert forall|i: int| 0 <= i < p.len() implies (#[trigger] p[i]).edge < edges.len() by {
        assert(p[i] == q[i]);
    }
    if p.len() > 0 {
        assert(p[0] == q[0]);
        assert(step_end(edges, q[p.len() - 1]) == step_start(edges, q[p.len() as int]));
        assert forall|i: int| 0 <= i < p.len() - 1 implies step_end(edges, #[trigger] p[i]) == step_start(edges, p[i + 1]) by {
            assert(p[i] == q[i]);
            assert(p[i + 1] == q[i + 1]);
        }
    }
}

/// A copy of `p`.
fn copy_steps(p: &Vec<Step>) -> (r: Vec<Step>)
    ensures
        r@ == p@,
{
    let mut r: Vec<Step> = Vec::new();
    for i in 0..p.len()
        invariant
            r@ == p@.take(i as int),
    {
        r.push(p[i]);
        assert(r@ =~= p@.take(i + 1));
    }
    assert(p@.take(p.len() as int) =~= p@);
    r
}

/// `cur`, or the path to `v` through the step `st` from the best path to
/// its start in `best`, whichever is lighter (`cur` on a tie).
fn relax_step(
    edges: &Vec<Edge>,
    s: usize,
    best: &Vec<Best>,
    v: usize,
    Ghost(k): Ghost<nat>,
    cur: Best,
    st: Step,
) -> (r: Best)
    requires
        v < best.len(),
        best.len() <= MAX_NODES,
        k < best.len(),
        st.edge < edges.len(),
        graph_ok(edges@, best.len() as nat),
        layer_ok(edges@, s, best@, k),
        entry_ok(edges@, s, v, cur, k + 1),
    ensures
        entry_ok(edges@, s, v, r, k + 1),
        cur is Some ==> r is Some && r->Some_0.0 <= cur->Some_0.0,
        step_end(edges@, st) == v && best@[step_start(edges@, st) as int] is Some ==> r is Some
            && r->Some_0.0 <= best@[step_start(edges@, st) as int]->Some_0.0 + edges@[st.edge as int].weight,
{
    let e = edges[st.edge];
    let (from, to) = if st.forward {
        (e.source, e.target)
    } else {
        (e.target, e.source)
    };
    if to != v {
        return cur;
    }
    match &best[from] {
        Some(entry) => {
            assert(entry_ok(edges@, s, from, best@[from as int], k));
            assert(entry.0 + e.weight <= (k + 1) * crate::weight::MAX_WEIGHT) by (nonlinear_arith)
                requires
                    entry.0 <= k * crate::weight::MAX_WEIGHT,
                    e.weight <= crate::weight::MAX_WEIGHT,
            ;
            assert((k + 1) * crate::weight::MAX_WEIGHT <= MAX_NODES * crate::weight::MAX_WEIGHT) by (nonlinear_arith)
                requires
                    k < MAX_NODES,
            ;
            let cand = entry.0 + e.weight;
            let better = match &cur {
                Some(c) => cand < c.0,
                None => true,
            };
            if better {
                let mut p = copy_steps(&entry.1);
                proof {
                    lemma_walk_push(edges@, p@, s, from, st);
                }
                p.push(st);
                Some((cand, p))
            } else {
                cur
            }
        },
        None => cur,
    }
}

/// The best path to `v` of at most `k + 1` steps, from the best paths of at
/// most `k` steps in `best`.
fn relax_node(edges: &Vec<Edge>, s: usize, best: &Vec<Best>, v: usize, Ghost(k): Ghost<nat>) -> (r: Best)
    requires
        v < best.len(),
        best.len() <= MAX_NODES,
        k < best.len(),
        graph_ok(edges@, best.len() as nat),
        layer_ok(edges@, s, best@, k),
    ensures
        entry_ok(edges@, s, v, r, k + 1),
        entry_best(edges@, s, v, r, k + 1),
{
    let mut cur: Best = match &best[v] {
        Some(entry) => Some((entry.0, copy_steps(&entry.1))),
        None => None,
    };
    assert(entry_ok(edges@, s, v, best@[v as int], k));
    assert((k + 1) * crate::weight::MAX_WEIGHT >= k * crate::weight::MAX_WEIGHT) by (nonlinear_arith);
    for i in 0..edges.len()
        invariant
            v < best.len(),
            best.len() <= MAX_NODES,
            k < best.len(),
            graph_ok(edges@, best.len() as nat),
            layer_ok(edges@, s, best@, k),
            entry_ok(edges@, s, v, cur, k + 1),
            best@[v as int] is Some ==> cur is Some && cur->Some_0.0 <= best@[v as int]->Some_0.0,
            forall|st: Step| st.edge < i && step_end(edges@, st) == v
                && #[trigger] best@[step_start(edges@, st) as int] is Some
                ==> cur is Some && cur->Some_0.0 <= best@[step_start(edges@, st) as int]->Some_0.0 + edges@[st.edge as int].weight,
    {
        let fwd = Step { edge: i, forward: true };
        let bwd = Step { edge: i, forward: false };
        cur = relax_step(edges, s, best, v, Ghost(k), cur, fwd);
        cur = relax_step(edges, s, best, v, Ghost(k), cur, bwd);
        assert forall|st: Step| st.edge < i + 1 && step_end(edges@, st) == v
            && #[trigger] best@[step_start(edges@, st) as int] is Some
            implies cur is Some && cur->Some_0.0 <= best@[step_start(edges@, st) as int]->Some_0.0 + edges@[st.edge as int].weight by {
            if st.edge == i {
                if st.forward {
                    assert(st == fwd);
                } else {
                    assert(st == bwd);
                }
            }
        }
    }
    proof {
        assert forall|q: Seq<Step>| #[trigger] is_walk(edges@, q, s, v) && q.len() <= k + 1 implies cur is Some
            && cur->Some_0.0 <= walk_weight(edges@, q) by {
            assert(entry_best(edges@, s, v, best@[v as int], k));
            if q.len() == k + 1 {
                lemma_walk_pop(edges@, q, s, v);
                let u = step_start(edges@, q.last());
                assert(q.drop_last().len() == k);
                assert(u < best.len());
                assert(entry_best(edges@, s, u, best@[u as int], k));
                assert(is_walk(edges@, q.drop_last(), s, u));
            }
        }
    }
    cur
}

/// Least-weight paths from `s` to every node, among paths of fewer than
/// `n` steps.
fn shortest_from(edges: &Vec<Edge>, n: usize, s: usize) -> (best: Vec<Best>)
    requires
        s < n <= MAX_NODES,
        graph_ok(edges@, n as nat),
    ensures
        best.len() == n,
        layer_ok(edges@, s, best@, (n - 1) as nat),
{
    let mut best: Vec<Best> = Vec::new();
    for v in 0..n
        invariant
            best.len() == v,
            forall|j: int| 0 <= j < v ==> entry_ok(edges@, s, j as usize, #[trigger] best@[j], 0),
            forall|j: int| 0 <= j < v ==> entry_best(edges@, s, j as usize, #[trigger] best@[j], 0),
    {
        if v == s {
            let start: Vec<Step> = Vec::new();
            best.push(Some((0, start)));
        } else {
            best.push(None);
        }
        assert(entry_best(edges@, s, v, best@[v as int], 0));
    }
    let mut k: usize = 0;
    while k + 1 < n
        invariant
            s < n <= MAX_NODES,
            k < n,
            best.len() == n,
            graph_ok(edges@, n as nat),
            layer_ok(edges@, s, best@, k as nat),
        decreases n - k,
    {
        let mut next: Vec<Best> = Vec::new();
        for v in 0..n
            invariant
                s < n <= MAX_NODES,
                k + 1 < n,
                best.len() == n,
                next.len() == v,
                graph_ok(edges@, n as nat),
                layer_ok(edges@, s, best@, k as nat),
                forall|j: int| 0 <= j < v ==> entry_ok(edges@, s, j as usize, #[trigger] next@[j], (k + 1) as nat),
                forall|j: int| 0 <= j < v ==> entry_best(edges@, s, j as usize, #[trigger] next@[j], (k + 1) as nat),
        {
            let e = relax_node(edges, s, &best, v, Ghost(k as nat));
            next.push(e);
        }
        best = next;
        k = k + 1;
    }
    best
}

/// The declaration of one elementary relation: its name, the types (as
/// numbers chosen by the caller) of its sources and of its targets, and the
/// weight text it was declared with, if any.
pub struct RelationDecl {
    pub name: String,
    pub source: usize,
    pub target: usize,
    pub weight: Option<String>,
}

/// The declaration `d` has `t` as its source or target type.
pub open spec fn mentions(d: RelationDecl, t: usize) -> bool {
    d.source == t || d.target == t
}

/// The weight of a declaration, in thousandths: `DEFAULT_WEIGHT` without a
/// weight text, `None` where the text is not a valid weight.
pub open spec fn decl_weight(d: RelationDecl) -> Option<nat> {
    match d.weight {
        None => Some(DEFAULT_WEIGHT as nat),
        Some(t) => weight_of(t@),
    }
}

/// `p` is a path from `a` to `b` of fewer than `n` steps, and no path from
/// `a` to `b` is lighter.
pub open spec fn least_path(edges: Seq<Edge>, n: nat, a: usize, b: usize, p: Seq<Step>) -> bool {
    &&& is_walk(edges, p, a, b)
    &&& p.len() < n
    &&& forall|q: Seq<Step>| #[trigger] is_walk(edges, q, a, b) ==> walk_weight(edges, p) <= walk_weight(edges, q)
}

/// Some path leads from `a` to `b`.
pub open spec fn reachable(edges: Seq<Edge>, a: usize, b: usize) -> bool {
    exists|q: Seq<Step>| #[trigger] is_walk(edges, q, a, b)
}

/// The position of `t` in `types`, if it is there.
fn position(types: &Vec<usize>, t: usize) -> (r: Option<usize>)
    ensures
        match r {
            Some(i) => i < types.len() && types@[i as int] == t,
            None => !types@.contains(t),
        },
{
    for i in 0..types.len()
        invariant
            forall|j: int| 0 <= j < i ==> types@[j] != t,
    {
        if types[i] == t {
            return Some(i);
        }
    }
    None
}

/// Computes, for every ordered pair of declared types, a least-weight path
/// of elementary relations between them.
pub struct Resolver {
    types: Vec<usize>,
    edges: Vec<Edge>,
    paths: Vec<Vec<Best>>,
}

impl Resolver {
    /// The declared types, each once, in order of first appearance.
    pub closed spec fn types_view(&self) -> Seq<usize> {
        self.types@
    }

    /// One edge per declaration, between positions in `types_view`.
    pub closed spec fn edges_view(&self) -> Seq<Edge> {
        self.edges@
    }

    /// The path kept from the type at position `a` to the one at `b`.
    pub closed spec fn kept(&self, a: int, b: int) -> Option<Seq<Step>> {
        match self.paths@[a]@[b] {
            Some(e) => Some(e.1@),
            None => None,
        }
    }

    pub open spec fn node_count(&self) -> nat {
        self.types_view().len()
    }

    /// The path offered from the type `from` to the type `to`: none for equal
    /// or undeclared types.
    pub open spec fn path_spec(&self, from: usize, to: usize) -> Option<Seq<Step>> {
        if from != to && self.types_view().contains(from) && self.types_view().contains(to) {
            let a = choose|a: int| 0 <= a < self.node_count() && self.types_view()[a] == from;
            let b = choose|b: int| 0 <= b < self.node_count() && self.types_view()[b] == to;
            self.kept(a, b)
        } else {
            None
        }
    }

    /// The kept paths are least-weight paths, present exactly where a path
    /// exists.
    pub open spec fn wf(&self) -> bool {
        &&& self.types_view().no_duplicates()
        &&& self.node_count() <= MAX_NODES
        &&& self.paths_ok()
        &&& graph_ok(self.edges_view(), self.node_count())
        &&& forall|a: int, b: int| 0 <= a < self.node_count() && 0 <= b < self.node_count() ==>
            match #[trigger] self.kept(a, b) {
                Some(p) => least_path(self.edges_view(), self.node_count(), a as usize, b as usize, p),
                None => !reachable(self.edges_view(), a as usize, b as usize),
            }
    }

    pub closed spec fn paths_ok(&self) -> bool {
        &&& self.paths.len() == self.types.len()
        &&& forall|a: int| 0 <= a < self.paths.len() ==> (#[trigger] self.paths@[a]).len() == self.types.len()
            && layer_ok(self.edges@, a as usize, self.paths@[a]@, (self.types.len() - 1) as nat)
    }

    proof fn lemma_paths_ok(&self)
        requires
            self.paths_ok(),
            self.types.len() > 0,
            graph_ok(self.edges_view(), self.node_count()),
        ensures
            forall|a: int, b: int| 0 <= a < self.node_count() && 0 <= b < self.node_count() ==>
                match #[trigger] self.kept(a, b) {
                    Some(p) => least_path(self.edges_view(), self.node_count(), a as usize, b as usize, p),
                    None => !reachable(self.edges_view(), a as usize, b as usize),
                },
    {
        let n = self.node_count();
        assert forall|a: int, b: int| 0 <= a < n && 0 <= b < n implies
            match #[trigger] self.kept(a, b) {
                Some(p) => least_path(self.edges_view(), n, a as usize, b as usize, p),
                None => !reachable(self.edges_view(), a as usize, b as usize),
            } by {
            let row = self.paths@[a]@;
            assert(entry_ok(self.edges@, a as usize, b as usize, row[b], (n - 1) as nat));
            assert(entry_best(self.edges@, a as usize, b as usize, row[b], (n - 1) as nat));
            if self.kept(a, b) is None {
                if reachable(self.edges_view(), a as usize, b as usize) {
                    let q = choose|q: Seq<Step>| #[trigger] is_walk(self.edges@, q, a as usize, b as usize);
                    lemma_shorten(self.edges@, n, q, a as usize, b as usize);
                    let q2 = choose|p: Seq<Step>| #[trigger] is_walk(self.edges@, p, a as usize, b as usize) && p.len() < n
                        && walk_weight(self.edges@, p) <= walk_weight(self.edges@, q);
                    assert(is_walk(self.edges@, q2, a as usize, b as usize) && q2.len() <= (n - 1) as nat);
                }
            } else {
                let p = self.kept(a, b)->Some_0;
                assert forall|q: Seq<Step>| #[trigger] is_walk(self.edges@, q, a as usize, b as usize) implies
                    walk_weight(self.edges@, p) <= walk_weight(self.edges@, q) by {
                    lemma_shorten(self.edges@, n, q, a as usize, b as usize);
                    let q2 = choose|p2: Seq<Step>| #[trigger] is_walk(self.edges@, p2, a as usize, b as usize) && p2.len() < n
                        && walk_weight(self.edges@, p2) <= walk_weight(self.edges@, q);
                    assert(is_walk(self.edges@, q2, a as usize, b as usize) && q2.len() <= (n - 1) as nat);
                }
            }
        }
    }

    /// Builds the graph of the declared relations (one edge per declaration,
    /// one node per declared type) and the least-weight path between every
    /// ordered pair of its nodes. Fails on the first declaration whose weight
    /// text is not a valid weight.
    pub fn new(decls: &Vec<RelationDecl>) -> (r: Result<Resolver, Error>)
        requires
            decls.len() <= MAX_RELATIONS,
        ensures
            match r {
                Ok(res) => {
                    &&& res.wf()
                    &&& forall|i: int| 0 <= i < decls.len() ==> decl_weight(#[trigger] decls@[i]) is Some
                    &&& res.edges_view().len() == decls.len()
                    &&& forall|i: int| 0 <= i < decls.len() ==> {
                        &&& res.types_view()[(#[trigger] res.edges_view()[i]).source as int] == decls@[i].source
                        &&& res.types_view()[res.edges_view()[i].target as int] == decls@[i].target
                        &&& res.edges_view()[i].weight == decl_weight(decls@[i])->Some_0
                    }
                    &&& forall|t: usize| res.types_view().contains(t) <==> exists|i: int|
                        0 <= i < decls.len() && #[trigger] mentions(decls@[i], t)
                },
                Err(e) => exists|i: int|
                    0 <= i < decls.len() && decl_weight(#[trigger] decls@[i]) is None && (forall|j: int|
                        0 <= j < i ==> decl_weight(#[trigger] decls@[j]) is Some) && match e {
                        Error::InvalidWeight(text, name) => decls@[i].weight matches Some(t) && text@ == t@
                            && name@ == decls@[i].name@,
                        _ => false,
                    },
            },
    {
        let mut weights: Vec<u64> = Vec::new();
        for i in 0..decls.len()
            invariant
                weights.len() == i,
                forall|j: int| 0 <= j < i ==> decl_weight(#[trigger] decls@[j]) == Some(weights@[j] as nat),
                forall|j: int| 0 <= j < i ==> 0 < #[trigger] weights@[j] <= crate::weight::MAX_WEIGHT,
        {
            let w = match &decls[i].weight {
                None => DEFAULT_WEIGHT,
                Some(text) => match parse_weight(text.as_str()) {
                    Some(w) => w,
                    None => {
                        return Err(Error::InvalidWeight(text.clone(), decls[i].name.clone()));
                    },
                },
            };
            weights.push(w);
        }
        let mut types: Vec<usize> = Vec::new();
        let mut edges: Vec<Edge> = Vec::new();
        for i in 0..decls.len()
            invariant
                decls.len() <= MAX_RELATIONS,
                weights.len() == decls.len(),
                forall|j: int| 0 <= j < decls.len() ==> decl_weight(#[trigger] decls@[j]) == Some(weights@[j] as nat),
                forall|j: int| 0 <= j < decls.len() ==> 0 < #[trigger] weights@[j] <= crate::weight::MAX_WEIGHT,
                edges.len() == i,
                types.len() <= 2 * i,
                types@.no_duplicates(),
                graph_ok(edges@, types.len() as nat),
                forall|j: int| 0 <= j < i ==> {
                    &&& types@[(#[trigger] edges@[j]).source as int] == decls@[j].source
                    &&& types@[edges@[j].target as int] == decls@[j].target
                    &&& edges@[j].weight == weights@[j]
                },
                forall|t: usize| types@.contains(t) <==> exists|j: int|
                    0 <= j < i && #[trigger] mentions(decls@[j], t),
        {
            let ghost types0 = types@;
            let ghost edges0 = edges@;
            let src = decls[i].source;
            let tgt = decls[i].target;
            let sp = match position(&types, src) {
                Some(p) => p,
                None => {
                    types.push(src);
                    types.len() - 1
                },
            };
            let tp = match position(&types, tgt) {
                Some(p) => p,
                None => {
                    types.push(tgt);
                    types.len() - 1
                },
            };
            edges.push(Edge { source: sp, target: tp, weight: weights[i] });
            proof {
                assert(types0.is_prefix_of(types@));
                assert forall|j: int| 0 <= j < i + 1 implies {
                    &&& types@[(#[trigger] edges@[j]).source as int] == decls@[j].source
                    &&& types@[edges@[j].target as int] == decls@[j].target
                    &&& edges@[j].weight == weights@[j]
                } by {
                    if j < i {
                        assert(edges@[j] == edges0[j]);
                        assert(types@[edges0[j].source as int] == types0[edges0[j].source as int]);
                        assert(types@[edges0[j].target as int] == types0[edges0[j].target as int]);
                    }
                }
                assert forall|t: usize| types@.contains(t) <==> exists|j: int|
                    0 <= j < i + 1 && #[trigger] mentions(decls@[j], t) by {
                    if types@.contains(t) {
                        let x = choose|x: int| 0 <= x < types@.len() && types@[x] == t;
                        if x < types0.len() {
                            assert(types0.contains(t));
                            let j = choose|j: int| 0 <= j < i && #[trigger] mentions(decls@[j], t);
                            assert(0 <= j < i + 1);
                        } else {
                            assert(mentions(decls@[i as int], t));
                        }
                    }
                    if exists|j: int| 0 <= j < i + 1 && #[trigger] mentions(decls@[j], t) {
                        let j = choose|j: int| 0 <= j < i + 1 && #[trigger] mentions(decls@[j], t);
                        if j < i {
                            assert(types0.contains(t));
                            let x = choose|x: int| 0 <= x < types0.len() && types0[x] == t;
                            assert(types@[x] == t);
                        } else if decls@[i as int].source == t {
                            assert(types@[sp as int] == t);
                        } else {
                            assert(types@[tp as int] == t);
                        }
                    }
                }
                assert forall|j: int| 0 <= j < edges@.len() implies {
                    &&& (#[trigger] edges@[j]).source < types.len()
                    &&& edges@[j].target < types.len()
                    &&& 0 < edges@[j].weight <= crate::weight::MAX_WEIGHT
                } by {
                    if j < i {
                        assert(edges@[j] == edges0[j]);
                    }
                }
            }
        }
        let n = types.len();
        let mut paths: Vec<Vec<Best>> = Vec::new();
        for a in 0..n
            invariant
                n == types.len(),
                n <= MAX_NODES,
                graph_ok(edges@, n as nat),
                paths.len() == a,
                forall|x: int| 0 <= x < a ==> (#[trigger] paths@[x]).len() == n
                    && layer_ok(edges@, x as usize, paths@[x]@, (n - 1) as nat),
        {
            let row = shortest_from(&edges, n, a);
            paths.push(row);
        }
        let res = Resolver { types, edges, paths };
        proof {
            if n > 0 {
                res.lemma_paths_ok();
            }
        }
        Ok(res)
    }

    /// The path offered from the type `from` to the type `to`, as steps over
    /// the declarations.
    pub fn path(&self, from: usize, to: usize) -> (r: Option<Vec<Step>>)
        requires
            self.wf(),
        ensures
            match r {
                Some(p) => self.path_spec(from, to) == Some(p@),
                None => self.path_spec(from, to) is None,
            },
    {
        if from == to {
            return None;
        }
        let a = match position(&self.types, from) {
            Some(a) => a,
            None => {
                return None;
            },
        };
        let b = match position(&self.types, to) {
            Some(b) => b,
            None => {
                return None;
            },
        };
        proof {
            let ca = choose|x: int| 0 <= x < self.node_count() && self.types_view()[x] == from;
            let cb = choose|x: int| 0 <= x < self.node_count() && self.types_view()[x] == to;
            assert(self.types_view()[a as int] == from);
            assert(ca == a);
            assert(cb == b);
        }
        match &self.paths[a][b] {
            Some(e) => Some(copy_steps(&e.1)),
            None => None,
        }
    }

    /// Looks up, from the single source record `idx` of the type
    /// `from_type`, the corresponding records of the type `to_type`.
    pub fn get_corresponding_from_idx<R: Relation>(
        &self,
        relations: &Vec<R>,
        from_type: usize,
        to_type: usize,
        idx: usize,
    ) -> (r: Option<IdxSet>)
        requires
            self.wf(),
            relations.len() == self.edges_view().len(),
            forall|i: int| 0 <= i < relations.len() ==> (#[trigger] relations@[i]).wf(),
        ensures
            match r {
                Some(out) => self.path_spec(from_type, to_type) is Some && out@ == follow(
                    views_of(relations@),
                    self.path_spec(from_type, to_type)->Some_0,
                    set![idx],
                ),
                None => self.path_spec(from_type, to_type) is None,
            },
    {
        let mut from: IdxSet = std::collections::BTreeSet::new();
        from.insert(idx);
        assert(from@ =~= set![idx]);
        self.get_corresponding(relations, from_type, to_type, &from)
    }

    /// Looks up, from the source records `from` of the type `from_type`, the
    /// corresponding records of the type `to_type`, along the offered path:
    /// `relations[i]` is the relation of the `i`-th declaration. `None` where
    /// no path is offered.
    pub fn get_corresponding<R: Relation>(
        &self,
        relations: &Vec<R>,
        from_type: usize,
        to_type: usize,
        from: &IdxSet,
    ) -> (r: Option<IdxSet>)
        requires
            self.wf(),
            relations.len() == self.edges_view().len(),
            forall|i: int| 0 <= i < relations.len() ==> (#[trigger] relations@[i]).wf(),
        ensures
            match r {
                Some(out) => self.path_spec(from_type, to_type) is Some && out@ == follow(
                    views_of(relations@),
                    self.path_spec(from_type, to_type)->Some_0,
                    from@,
                ),
                None => self.path_spec(from_type, to_type) is None,
            },
    {
        match self.path(from_type, to_type) {
            Some(p) => {
                proof {
                    let n = self.node_count();
                    let a = choose|a: int| 0 <= a < n && self.types_view()[a] == from_type;
                    let b = choose|b: int| 0 <= b < n && self.types_view()[b] == to_type;
                    assert(self.kept(a, b) == Some(p@));
                    assert(least_path(self.edges_view(), n, a as usize, b as usize, p@));
                    assert forall|i: int| 0 <= i < p@.len() implies (#[trigger] p@[i]).edge < relations.len() by {}
                }
                Some(apply_path(relations, &p, from))
            },
            None => None,
        }
    }
}


/// The type `from` reaches the type `to` through the declared relations.
pub open spec fn connected(res: &Resolver, from: usize, to: usize) -> bool {
    exists|a: int, b: int|
        0 <= a < res.node_count() && 0 <= b < res.node_count() && res.types_view()[a] == from
            && res.types_view()[b] == to && #[trigger] reachable(res.edges_view(), a as usize, b as usize)
}

/// Between two distinct declared types that are connected, a path is
/// offered.
pub proof fn lemma_resolver_complete(res: &Resolver, from: usize, to: usize)
    requires
        res.wf(),
        from != to,
        connected(res, from, to),
    ensures
        res.path_spec(from, to) is Some,
{
    let (a, b) = choose|a: int, b: int|
        0 <= a < res.node_count() && 0 <= b < res.node_count() && res.types_view()[a] == from
            && res.types_view()[b] == to && #[trigger] reachable(res.edges_view(), a as usize, b as usize);
    assert(res.types_view().contains(from));
    assert(res.types_view().contains(to));
    let ca = choose|x: int| 0 <= x < res.node_count() && res.types_view()[x] == from;
    let cb = choose|x: int| 0 <= x < res.node_count() && res.types_view()[x] == to;
    assert(ca == a);
    assert(cb == b);
    assert(res.kept(a, b) is Some);
}

/// Of two paths with the same number of steps between two types, the
/// strictly lighter one wins over the heavier one: the offered path weighs
/// no more than the lighter, so it is not the heavier.
pub proof fn lemma_weight_disambiguation(
    res: &Resolver,
    a: int,
    b: int,
    light: Seq<Step>,
    heavy: Seq<Step>,
)
    requires
        res.wf(),
        0 <= a < res.node_count(),
        0 <= b < res.node_count(),
        a != b,
        is_walk(res.edges_view(), light, a as usize, b as usize),
        is_walk(res.edges_view(), heavy, a as usize, b as usize),
        light.len() == heavy.len(),
        walk_weight(res.edges_view(), light) < walk_weight(res.edges_view(), heavy),
    ensures
        res.path_spec(res.types_view()[a], res.types_view()[b]) matches Some(p) && walk_weight(res.edges_view(), p)
            <= walk_weight(res.edges_view(), light) && p != heavy,
{
    let from = res.types_view()[a];
    let to = res.types_view()[b];
    assert(res.types_view().contains(from));
    assert(res.types_view().contains(to));
    let ca = choose|x: int| 0 <= x < res.node_count() && res.types_view()[x] == from;
    let cb = choose|x: int| 0 <= x < res.node_count() && res.types_view()[x] == to;
    assert(ca == a);
    assert(cb == b);
    assert(reachable(res.edges_view(), a as usize, b as usize));
    assert(res.kept(a, b) is Some);
}

/// The forward buckets of each relation of `relations`.
pub open spec fn views_of<R: Relation>(relations: Seq<R>) -> Seq<Map<usize, Set<usize>>> {
    relations.map_values(|r: R| r.forward_view())
}

/// The records reached from `s` by following the steps of `p` through the
/// relations whose forward buckets are `views`: forward lookups on forward
/// steps, backward lookups on backward ones.
pub open spec fn follow(views: Seq<Map<usize, Set<usize>>>, p: Seq<Step>, s: Set<usize>) -> Set<usize>
    decreases p.len(),
{
    if p.len() == 0 {
        s
    } else {
        let prev = follow(views, p.drop_last(), s);
        let st = p.last();
        if st.forward {
            image(views[st.edge as int], prev)
        } else {
            preimage(views[st.edge as int], prev)
        }
    }
}

/// Follows the steps of `path` from the records `from`, one lookup per step.
pub fn apply_path<R: Relation>(relations: &Vec<R>, path: &Vec<Step>, from: &IdxSet) -> (r: IdxSet)
    requires
        forall|i: int| 0 <= i < relations.len() ==> (#[trigger] relations@[i]).wf(),
        forall|i: int| 0 <= i < path.len() ==> (#[trigger] path@[i]).edge < relations.len(),
    ensures
        r@ == follow(views_of(relations@), path@, from@),
{
    let mut cur: IdxSet = from.clone();
    for i in 0..path.len()
        invariant
            forall|j: int| 0 <= j < relations.len() ==> (#[trigger] relations@[j]).wf(),
            forall|j: int| 0 <= j < path.len() ==> (#[trigger] path@[j]).edge < relations.len(),
            cur@ == follow(views_of(relations@), path@.take(i as int), from@),
    {
        let st = path[i];
        assert(path@.take(i + 1).drop_last() =~= path@.take(i as int));
        assert(path@.take(i + 1).last() == st);
        let rel = &relations[st.edge];
        assert(rel.wf());
        cur = if st.forward {
            rel.get_corresponding_forward(&cur)
        } else {
            rel.get_corresponding_backward(&cur)
        };
    }
    assert(path@.take(path.len() as int) =~= path@);
    cur
}

} // verus!
