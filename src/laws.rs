use vstd::prelude::*;
use crate::relations::{
    build_outcome, chain_forward, image, owners_match, preimage, relinked, sink_forward,
    source_forward, ManyToMany, OneToMany,
};

verus! {

/// In a one to many relation, every target with a source lies in that
/// source's bucket, and every target in a bucket has that bucket's source.
pub proof fn lemma_one_to_many_bidirectional(r: &OneToMany)
    requires
        r.wf(),
    ensures
        forall|u: usize| #[trigger] r.owners().contains_key(u) ==>
            r.buckets().contains_key(r.owners()[u]) && r.buckets()[r.owners()[u]].contains(u),
        forall|t: usize, u: usize| r.buckets().contains_key(t) && #[trigger] r.buckets()[t].contains(u)
            ==> r.owners().contains_key(u) && r.owners()[u] == t,
{
}

/// In a many to many relation, `to` is a target of `from` exactly when
/// `from` is a source of `to`.
pub proof fn lemma_many_to_many_transpose(r: &ManyToMany)
    requires
        r.wf(),
    ensures
        forall|from: usize, to: usize|
            #![trigger r.forward_map()[from].contains(to)]
            #![trigger r.backward_map()[to].contains(from)]
            (r.forward_map().contains_key(from) && r.forward_map()[from].contains(to))
            <==> (r.backward_map().contains_key(to) && r.backward_map()[to].contains(from)),
{
}

/// After linking `to` to `from`, the bucket of `from` holds `to` and no
/// other bucket does, and both directions still agree.
pub proof fn lemma_add_link_reowns(
    b: Map<usize, Set<usize>>,
    o: Map<usize, usize>,
    from: usize,
    to: usize,
)
    requires
        owners_match(b, o),
    ensures
        relinked(b, from, to).contains_key(from),
        relinked(b, from, to)[from].contains(to),
        forall|k: usize| #[trigger] relinked(b, from, to).contains_key(k) && relinked(b, from, to)[k].contains(to) ==> k == from,
        owners_match(relinked(b, from, to), o.insert(to, from)),
{
    let nb = relinked(b, from, to);
    let no = o.insert(to, from);
    assert forall|u: usize| #[trigger] no.contains_key(u) implies nb.contains_key(no[u]) && nb[no[u]].contains(u) by {
        if u != to {
            assert(b[o[u]].contains(u));
        }
    }
    assert forall|t: usize, u: usize| nb.contains_key(t) && #[trigger] nb[t].contains(u) implies no.contains_key(u) && no[u] == t by {
        if u != to && t != from {
            assert(b[t].contains(u));
        }
        if u != to && t == from {
            assert(b.contains_key(from) && b[from].contains(u));
        }
    }
}

/// Looking up forward through the chain of `m1` and `m2` is looking up
/// through `m1`, then through `m2`.
pub proof fn lemma_chain_lookup(m1: Map<usize, Set<usize>>, m2: Map<usize, Set<usize>>, s: Set<usize>)
    ensures
        image(chain_forward(m1, m2), s) == image(m2, image(m1, s)),
{
    let c = chain_forward(m1, m2);
    assert forall|u: usize| image(c, s).contains(u) == image(m2, image(m1, s)).contains(u) by {
        if image(c, s).contains(u) {
            let t = choose|t: usize| s.contains(t) && c.contains_key(t) && c[t].contains(u);
            let v = choose|v: usize| image(m1, set![t]).contains(v) && m2.contains_key(v) && m2[v].contains(u);
            let t2 = choose|t2: usize| set![t].contains(t2) && m1.contains_key(t2) && m1[t2].contains(v);
            assert(image(m1, s).contains(v));
        }
        if image(m2, image(m1, s)).contains(u) {
            let v = choose|v: usize| image(m1, s).contains(v) && m2.contains_key(v) && m2[v].contains(u);
            let t = choose|t: usize| s.contains(t) && m1.contains_key(t) && m1[t].contains(v);
            assert(set![t].contains(t));
            assert(image(m1, set![t]).contains(v));
            assert(c[t].contains(u));
        }
    }
    assert(image(c, s) =~= image(m2, image(m1, s)));
}

/// Looking up forward through the sink join of `m1` and `m2` is looking up
/// forward through `m1`, then backward through `m2`.
pub proof fn lemma_sink_lookup(m1: Map<usize, Set<usize>>, m2: Map<usize, Set<usize>>, s: Set<usize>)
    ensures
        image(sink_forward(m1, m2), s) == preimage(m2, image(m1, s)),
{
    let c = sink_forward(m1, m2);
    assert forall|u: usize| image(c, s).contains(u) == preimage(m2, image(m1, s)).contains(u) by {
        if image(c, s).contains(u) {
            let t = choose|t: usize| s.contains(t) && c.contains_key(t) && c[t].contains(u);
            let v = choose|v: usize| image(m1, set![t]).contains(v) && m2[u].contains(v);
            let t2 = choose|t2: usize| set![t].contains(t2) && m1.contains_key(t2) && m1[t2].contains(v);
            assert(image(m1, s).contains(v));
        }
        if preimage(m2, image(m1, s)).contains(u) {
            let v = choose|v: usize| image(m1, s).contains(v) && m2[u].contains(v);
            let t = choose|t: usize| s.contains(t) && m1.contains_key(t) && m1[t].contains(v);
            assert(set![t].contains(t));
            assert(image(m1, set![t]).contains(v));
            assert(c[t].contains(u));
        }
    }
    assert(image(c, s) =~= preimage(m2, image(m1, s)));
}

/// Looking up forward through the source join of `m1` and `m2` is looking
/// up backward through `m1`, then forward through `m2`.
pub proof fn lemma_source_lookup(m1: Map<usize, Set<usize>>, m2: Map<usize, Set<usize>>, s: Set<usize>)
    ensures
        image(source_forward(m1, m2), s) == image(m2, preimage(m1, s)),
{
    let c = source_forward(m1, m2);
    assert forall|u: usize| image(c, s).contains(u) == image(m2, preimage(m1, s)).contains(u) by {
        if image(c, s).contains(u) {
            let t = choose|t: usize| s.contains(t) && c.contains_key(t) && c[t].contains(u);
            let v = choose|v: usize| preimage(m1, set![t]).contains(v) && m2.contains_key(v) && m2[v].contains(u);
            let t2 = choose|t2: usize| set![t].contains(t2) && m1[v].contains(t2);
            assert(preimage(m1, s).contains(v));
        }
        if image(m2, preimage(m1, s)).contains(u) {
            let v = choose|v: usize| preimage(m1, s).contains(v) && m2.contains_key(v) && m2[v].contains(u);
            let t = choose|t: usize| s.contains(t) && m1[v].contains(t);
            assert(set![t].contains(t));
            assert(preimage(m1, set![t]).contains(v));
            assert(m1.dom().contains(v));
            assert(image(m1, m1.dom()).contains(t));
            assert(c[t].contains(u));
        }
    }
    assert(image(c, s) =~= image(m2, preimage(m1, s)));
}

/// A one to many relation built with no target record succeeds, and every
/// forward lookup on it is empty.
pub proof fn lemma_empty_targets(
    many: Seq<(usize, String)>,
    resolved: Seq<Option<usize>>,
    rel_name: Seq<char>,
    r: Result<OneToMany, crate::error::Error>,
    s: Set<usize>,
)
    requires
        many.len() == 0,
        resolved.len() == 0,
        build_outcome(many, resolved, rel_name, r),
    ensures
        r is Ok,
        image(r->Ok_0.buckets(), s) == Set::<usize>::empty(),
{
    let rel = r->Ok_0;
    assert forall|u: usize| !image(rel.buckets(), s).contains(u) by {
        if image(rel.buckets(), s).contains(u) {
            let t = choose|t: usize| s.contains(t) && rel.buckets().contains_key(t) && rel.buckets()[t].contains(u);
            assert(rel.owners().contains_key(u));
            assert(exists|k: int| 0 <= k < many.len() && many[k].0 == u);
        }
    }
    assert(image(rel.buckets(), s) =~= Set::<usize>::empty());
}

} // verus!
