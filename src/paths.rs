use vstd::prelude::*;
use vstd::set_lib::{lemma_int_range, lemma_len_subset, set_int_range};
use crate::resolver::{graph_ok, is_walk, step_end, step_start, walk_weight, Edge, Step};

verus! {

/// The node reached after the first `i` steps of the path `q` from `a`.
pub open spec fn walk_node(edges: Seq<Edge>, q: Seq<Step>, a: usize, i: int) -> usize {
    if i == 0 {
        a
    } else {
        step_end(edges, q[i - 1])
    }
}

proof fn lemma_weight_concat(edges: Seq<Edge>, x: Seq<Step>, y: Seq<Step>)
    ensures
        walk_weight(edges, x + y) == walk_weight(edges, x) + walk_weight(edges, y),
    decreases y.len(),
{
    if y.len() == 0 {
        assert(x + y =~= x);
    } else {
        lemma_weight_concat(edges, x, y.drop_last());
        assert((x + y).drop_last() =~= x + y.drop_last());
        assert((x + y).last() == y.last());
    }
}

proof fn lemma_walk_take(edges: Seq<Edge>, q: Seq<Step>, a: usize, b: usize, i: int)
    requires
        is_walk(edges, q, a, b),
        0 <= i <= q.len(),
    ensures
        is_walk(edges, q.take(i), a, walk_node(edges, q, a, i)),
{
    let p = q.take(i);
    assert forall|k: int| 0 <= k < p.len() implies (#[trigger] p[k]).edge < edges.len() by {
        assert(p[k] == q[k]);
    }
    if i > 0 {
        assert(p[0] == q[0]);
        assert(p[i - 1] == q[i - 1]);
        assert forall|k: int| 0 <= k < p.len() - 1 implies step_end(edges, #[trigger] p[k]) == step_start(edges, p[k + 1]) by {
            assert(p[k] == q[k]);
            assert(p[k + 1] == q[k + 1]);
        }
    }
}

proof fn lemma_walk_skip(edges: Seq<Edge>, q: Seq<Step>, a: usize, b: usize, j: int)
    requires
        is_walk(edges, q, a, b),
        0 <= j <= q.len(),
    ensures
        is_walk(edges, q.skip(j), walk_node(edges, q, a, j), b),
{
    let p = q.skip(j);
    assert forall|k: int| 0 <= k < p.len() implies (#[trigger] p[k]).edge < edges.len() by {
        assert(p[k] == q[k + j]);
    }
    if j < q.len() {
        assert(p[0] == q[j]);
        if j > 0 {
            assert(step_end(edges, q[j - 1]) == step_start(edges, q[j]));
        }
        assert(p[p.len() - 1] == q[q.len() - 1]);
        assert forall|k: int| 0 <= k < p.len() - 1 implies step_end(edges, #[trigger] p[k]) == step_start(edges, p[k + 1]) by {
            assert(p[k] == q[k + j]);
            assert(p[k + 1] == q[k + 1 + j]);
        }
    } else if j > 0 {
        assert(walk_node(edges, q, a, j) == b);
    }
}

proof fn lemma_walk_concat(edges: Seq<Edge>, x: Seq<Step>, a: usize, m: usize, y: Seq<Step>, b: usize)
    requires
        is_walk(edges, x, a, m),
        is_walk(edges, y, m, b),
    ensures
        is_walk(edges, x + y, a, b),
{
    let p = x + y;
    if x.len() == 0 {
        assert(p =~= y);
    } else if y.len() == 0 {
        assert(p =~= x);
    } else {
        assert forall|k: int| 0 <= k < p.len() implies (#[trigger] p[k]).edge < edges.len() by {
            if k < x.len() {
                assert(p[k] == x[k]);
            } else {
                assert(p[k] == y[k - x.len()]);
            }
        }
        assert(p[0] == x[0]);
        assert(p[p.len() - 1] == y[y.len() - 1]);
        assert forall|k: int| 0 <= k < p.len() - 1 implies step_end(edges, #[trigger] p[k]) == step_start(edges, p[k + 1]) by {
            if k < x.len() - 1 {
                assert(p[k] == x[k]);
                assert(p[k + 1] == x[k + 1]);
            } else if k == x.len() - 1 {
                assert(p[k] == x[k]);
                assert(p[k + 1] == y[0]);
            } else {
                assert(p[k] == y[k - x.len()]);
                assert(p[k + 1] == y[k + 1 - x.len()]);
            }
        }
    }
}

/// More than `n` values below `n` hold a repeat.
proof fn lemma_repeat(s: Seq<usize>, n: nat)
    requires
        s.len() > n,
        forall|i: int| 0 <= i < s.len() ==> (#[trigger] s[i]) < n,
    ensures
        exists|i: int, j: int| 0 <= i < j < s.len() && s[i] == s[j],
{
    if !(exists|i: int, j: int| 0 <= i < j < s.len() && s[i] == s[j]) {
        let t = s.map_values(|x: usize| x as int);
        assert(t.no_duplicates()) by {
            assert forall|i: int, j: int| 0 <= i < t.len() && 0 <= j < t.len() && i != j implies t[i] != t[j] by {
                if i < j {
                    assert(s[i] != s[j]);
                } else {
                    assert(s[j] != s[i]);
                }
            }
        }
        t.unique_seq_to_set();
        lemma_int_range(0, n as int);
        assert(t.to_set().subset_of(set_int_range(0, n as int))) by {
            assert forall|x: int| t.to_set().contains(x) implies set_int_range(0, n as int).contains(x) by {
                let k = choose|k: int| 0 <= k < t.len() && t[k] == x;
                assert(s[k] < n);
            }
        }
        lemma_len_subset(t.to_set(), set_int_range(0, n as int));
    }
}

/// Every path between two nodes can be cut down to one of fewer than `n`
/// steps that is no heavier.
pub proof fn lemma_shorten(edges: Seq<Edge>, n: nat, q: Seq<Step>, a: usize, b: usize)
    requires
        graph_ok(edges, n),
        is_walk(edges, q, a, b),
        a < n,
    ensures
        exists|p: Seq<Step>| #[trigger] is_walk(edges, p, a, b) && p.len() < n && walk_weight(edges, p) <= walk_weight(edges, q),
    decreases q.len(),
{
    if q.len() < n {
        assert(is_walk(edges, q, a, b) && q.len() < n && walk_weight(edges, q) <= walk_weight(edges, q));
    } else {
        let nodes = Seq::new((q.len() + 1) as nat, |i: int| walk_node(edges, q, a, i));
        assert forall|i: int| 0 <= i < nodes.len() implies (#[trigger] nodes[i]) < n by {
            if i > 0 {
                assert(q[i - 1].edge < edges.len());
                assert(edges[q[i - 1].edge as int].source < n);
            }
        }
        lemma_repeat(nodes, n);
        let (i, j) = choose|i: int, j: int| 0 <= i < j < nodes.len() && nodes[i] == nodes[j];
        let x = q.take(i);
        let y = q.skip(j);
        let mid = q.subrange(i, j);
        lemma_walk_take(edges, q, a, b, i);
        lemma_walk_skip(edges, q, a, b, j);
        assert(nodes[i] == walk_node(edges, q, a, i));
        assert(nodes[j] == walk_node(edges, q, a, j));
        lemma_walk_concat(edges, x, a, walk_node(edges, q, a, i), y, b);
        assert(q =~= x + mid + y);
        lemma_weight_concat(edges, x, mid);
        lemma_weight_concat(edges, x + mid, y);
        lemma_weight_concat(edges, x, y);
        lemma_shorten(edges, n, x + y, a, b);
    }
}

} // verus!
