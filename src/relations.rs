use vstd::prelude::*;
use std::collections::{BTreeMap, BTreeSet};
use typed_index_collection::CollectionWithId;
use crate::error::Error;

verus! {

broadcast use vstd::std_specs::btree::group_btree_axioms;

/// A set of record indices (positions of records in their collection).
pub type IdxSet = BTreeSet<usize>;

/// The targets reached from the sources in `s` through the buckets `m`.
pub open spec fn image(m: Map<usize, Set<usize>>, s: Set<usize>) -> Set<usize> {
    Set::new(|u: usize| exists|t: usize| s.contains(t) && m.contains_key(t) && m[t].contains(u))
}

/// The sources whose bucket in `m` holds at least one target of `v`.
pub open spec fn preimage(m: Map<usize, Set<usize>>, v: Set<usize>) -> Set<usize> {
    Set::new(|t: usize| m.contains_key(t) && exists|u: usize| v.contains(u) && m[t].contains(u))
}

/// `b` is the exact transpose of `f`, and holds no empty bucket.
pub open spec fn is_transpose(f: Map<usize, Set<usize>>, b: Map<usize, Set<usize>>) -> bool {
    &&& forall|t: usize, u: usize|
        #![trigger f[t].contains(u)]
        #![trigger b[u].contains(t)]
        (f.contains_key(t) && f[t].contains(u)) <==> (b.contains_key(u) && b[u].contains(t))
    &&& forall|u: usize| #[trigger] b.contains_key(u) ==> exists|t: usize| b[u].contains(t)
}

/// The buckets of a map of index sets, as mathematical sets.
pub open spec fn map_view(m: BTreeMap<usize, IdxSet>) -> Map<usize, Set<usize>> {
    Map::new(|k: usize| m@.contains_key(k), |k: usize| m@[k]@)
}

/// An object linking two kinds of records: a source side and a target side.
///
/// Its meaning is its forward buckets: each source index maps to the set of
/// target indices linked to it.
pub trait Relation {
    /// Each source index with the set of target indices linked to it.
    spec fn forward_view(&self) -> Map<usize, Set<usize>>;

    /// The internal consistency the relation maintains.
    spec fn wf(&self) -> bool;

    /// Returns the complete set of the source objects.
    fn get_from(&self) -> (r: IdxSet)
        requires
            self.wf(),
        ensures
            r@ == self.forward_view().dom(),
    ;

    /// Returns the complete set of the target objects.
    fn get_to(&self) -> (r: IdxSet)
        requires
            self.wf(),
        ensures
            r@ == image(self.forward_view(), self.forward_view().dom()),
    ;

    /// For a given set of the source objects, returns the corresponding
    /// target objects.
    fn get_corresponding_forward(&self, from: &IdxSet) -> (r: IdxSet)
        requires
            self.wf(),
        ensures
            r@ == image(self.forward_view(), from@),
    ;

    /// For a given set of the target objects, returns the corresponding
    /// source objects.
    fn get_corresponding_backward(&self, from: &IdxSet) -> (r: IdxSet)
        requires
            self.wf(),
        ensures
            r@ == preimage(self.forward_view(), from@),
    ;
}

proof fn lemma_image_insert(m: Map<usize, Set<usize>>, s: Set<usize>, t: usize)
    ensures
        image(m, s.insert(t)) == image(m, s).union(
            if m.contains_key(t) { m[t] } else { Set::empty() },
        ),
{
    let rhs = image(m, s).union(if m.contains_key(t) { m[t] } else { Set::empty() });
    assert forall|u: usize| image(m, s.insert(t)).contains(u) == rhs.contains(u) by {
        if image(m, s.insert(t)).contains(u) {
            let t2 = choose|t2: usize|
                s.insert(t).contains(t2) && m.contains_key(t2) && m[t2].contains(u);
            if t2 != t {
                assert(image(m, s).contains(u));
            }
        }
        if image(m, s).contains(u) {
            let t2 = choose|t2: usize| s.contains(t2) && m.contains_key(t2) && m[t2].contains(u);
            assert(s.insert(t).contains(t2));
        }
        if m.contains_key(t) && m[t].contains(u) {
            assert(s.insert(t).contains(t));
        }
    }
    assert(image(m, s.insert(t)) =~= rhs);
}

proof fn lemma_prefix_insert<A>(q: Seq<&A>, i: int)
    requires
        0 <= i < q.len(),
    ensures
        q.take(i + 1).unref().to_set() == q.take(i).unref().to_set().insert(*q[i]),
{
    assert(q.take(i + 1).unref() =~= q.take(i).unref().push(*q[i]));
    q.take(i).unref().lemma_push_to_set_commute(*q[i]);
}

/// Backward lookups through a transposed map are forward lookups through its transpose.
proof fn lemma_transpose_image(f: Map<usize, Set<usize>>, b: Map<usize, Set<usize>>, v: Set<usize>)
    requires
        is_transpose(f, b),
    ensures
        image(b, v) == preimage(f, v),
        b.dom() == image(f, f.dom()),
{
    assert forall|t: usize| image(b, v).contains(t) == preimage(f, v).contains(t) by {
        if image(b, v).contains(t) {
            let u = choose|u: usize| v.contains(u) && b.contains_key(u) && b[u].contains(t);
            assert(f.contains_key(t) && f[t].contains(u));
        }
        if preimage(f, v).contains(t) {
            let u = choose|u: usize| v.contains(u) && f[t].contains(u);
            assert(b.contains_key(u) && b[u].contains(t));
        }
    }
    assert(image(b, v) =~= preimage(f, v));
    assert forall|u: usize| b.dom().contains(u) == image(f, f.dom()).contains(u) by {
        if b.contains_key(u) {
            let t = choose|t: usize| b[u].contains(t);
            assert(f.contains_key(t) && f[t].contains(u));
        }
    }
    assert(b.dom() =~= image(f, f.dom()));
}

/// Union of the buckets of `map` for the indices of `from`.
fn get_corresponding(map: &BTreeMap<usize, IdxSet>, from: &IdxSet) -> (r: IdxSet)
    ensures
        r@ == image(map_view(*map), from@),
{
    let ghost m = map_view(*map);
    let mut r: IdxSet = BTreeSet::new();
    for t in it: from.iter()
        invariant
            it.seq().unref().to_set() == from@,
            m == map_view(*map),
            r@ == image(m, it.seq().take(it.index()).unref().to_set()),
            it.index() == it.seq().len() ==> r@ == image(m, from@),
    {
        proof {
            lemma_prefix_insert(it.seq(), it.index());
            lemma_image_insert(m, it.seq().take(it.index()).unref().to_set(), *t);
        }
        match map.get(t) {
            Some(us) => {
                let ghost r0 = r@;
                for u in it2: us.iter()
                    invariant
                        it2.seq().unref().to_set() == us@,
                        r@ == r0.union(it2.seq().take(it2.index()).unref().to_set()),
                        it2.index() == it2.seq().len() ==> r@ == r0.union(us@),
                {
                    proof {
                        lemma_prefix_insert(it2.seq(), it2.index());
                    }
                    r.insert(*u);
                    assert(r@ =~= r0.union(it2.seq().take(it2.index() + 1).unref().to_set()));
                    assert(it2.index() + 1 == it2.seq().len() ==> it2.seq().take(it2.index() + 1)
                        == it2.seq());
                }
            },
            None => {},
        }
        assert(it.index() + 1 == it.seq().len() ==> it.seq().take(it.index() + 1) == it.seq());
    }
    r
}

/// The set of keys of `map`.
fn key_set<V>(map: &BTreeMap<usize, V>) -> (r: IdxSet)
    ensures
        r@ == map@.dom(),
{
    let mut r: IdxSet = BTreeSet::new();
    for k in it: map.keys()
        invariant
            it.seq().unref().to_set() == map@.dom(),
            r@ == it.seq().take(it.index()).unref().to_set(),
            it.index() == it.seq().len() ==> r@ == map@.dom(),
    {
        proof {
            lemma_prefix_insert(it.seq(), it.index());
        }
        r.insert(*k);
        assert(it.index() + 1 == it.seq().len() ==> it.seq().take(it.index() + 1) == it.seq());
    }
    r
}


/// Each target in `o` is owned by the source whose bucket in `b` holds it,
/// and each bucket holds exactly the targets that it owns.
pub open spec fn owners_match(b: Map<usize, Set<usize>>, o: Map<usize, usize>) -> bool {
    &&& forall|u: usize| #[trigger] o.contains_key(u) ==> b.contains_key(o[u]) && b[o[u]].contains(u)
    &&& forall|t: usize, u: usize|
        b.contains_key(t) && #[trigger] b[t].contains(u) ==> o.contains_key(u) && o[u] == t
}

/// The bucket of `t` in `b`, empty where `t` has none.
pub open spec fn bucket_of(b: Map<usize, Set<usize>>, t: usize) -> Set<usize> {
    if b.contains_key(t) {
        b[t]
    } else {
        Set::empty()
    }
}

/// The buckets after `to` is linked to `from`: `to` leaves every other bucket
/// and joins the bucket of `from`, which is created if missing.
pub open spec fn relinked(b: Map<usize, Set<usize>>, from: usize, to: usize) -> Map<usize, Set<usize>> {
    Map::new(
        |k: usize| b.contains_key(k) || k == from,
        |k: usize|
            if k == from {
                bucket_of(b, from).insert(to)
            } else {
                b[k].remove(to)
            },
    )
}

/// What building a one to many relation from `many` (the index of each
/// target record with the identifier of its source) yields, where
/// `resolved[k]` is the source index found for `many[k]`'s identifier.
pub open spec fn build_outcome(
    many: Seq<(usize, String)>,
    resolved: Seq<Option<usize>>,
    rel_name: Seq<char>,
    r: Result<OneToMany, Error>,
) -> bool {
    match r {
        Ok(rel) => {
            &&& forall|k: int| 0 <= k < resolved.len() ==> resolved[k] is Some
            &&& rel.wf()
            &&& rel.owners().dom() == Set::new(
                |u: usize| exists|k: int| 0 <= k < many.len() && many[k].0 == u,
            )
            &&& forall|k: int| 0 <= k < many.len() ==> rel.owners()[many[k].0] == resolved[k]->Some_0
            &&& forall|t: usize| #[trigger] rel.buckets().contains_key(t) ==> rel.buckets()[t] != Set::<usize>::empty()
        },
        Err(e) => exists|k: int|
            0 <= k < resolved.len() && resolved[k] is None && (forall|j: int|
                0 <= j < k ==> resolved[j] is Some) && match e {
                Error::IdentifierNotFound(id, name) => id@ == many[k].1@ && name@ == rel_name,
                _ => false,
            },
    }
}

/// A collection of records with identifiers, held opaque.
#[verifier::external_type_specification]
#[verifier::external_body]
#[verifier::reject_recursive_types(T)]
pub struct ExCollectionWithId<T>(CollectionWithId<T>);

/// Relies on `CollectionWithId::get_idx` and `Idx::get`: the position of the
/// record whose identifier is `id`, if the collection holds one.
#[verifier::external_body]
fn lookup_index<T>(collection: &CollectionWithId<T>, id: &str) -> (r: Option<usize>) {
    collection.get_idx(id).map(|idx| idx.get())
}

/// A one to many relation: to one source correspond many targets, and each
/// target has exactly one source.
pub struct OneToMany {
    one_to_many: BTreeMap<usize, IdxSet>,
    many_to_one: BTreeMap<usize, usize>,
}

impl OneToMany {
    /// Each source with the set of its targets.
    pub closed spec fn buckets(&self) -> Map<usize, Set<usize>> {
        map_view(self.one_to_many)
    }

    /// Each target with its single source.
    pub closed spec fn owners(&self) -> Map<usize, usize> {
        self.many_to_one@
    }

    /// Both directions describe the same links.
    pub open spec fn wf(&self) -> bool {
        owners_match(self.buckets(), self.owners())
    }

    /// A relation with no link.
    pub fn empty() -> (r: Self)
        ensures
            r.wf(),
            r.buckets() == Map::<usize, Set<usize>>::empty(),
            r.owners() == Map::<usize, usize>::empty(),
    {
        let r = OneToMany { one_to_many: BTreeMap::new(), many_to_one: BTreeMap::new() };
        assert(r.buckets() =~= Map::<usize, Set<usize>>::empty());
        r
    }

    /// Builds the relation from `many`, the index of each target record with
    /// the identifier of its source, and `resolved`, the source index found
    /// for each of those identifiers. Fails on the first identifier that was
    /// not found.
    pub fn from_resolved(
        many: &Vec<(usize, String)>,
        resolved: &Vec<Option<usize>>,
        rel_name: &str,
    ) -> (r: Result<Self, Error>)
        requires
            many.len() == resolved.len(),
            forall|i: int, j: int| 0 <= i < j < many.len() ==> many@[i].0 != many@[j].0,
        ensures
            build_outcome(many@, resolved@, rel_name@, r),
    {
        let mut one_to_many: BTreeMap<usize, IdxSet> = BTreeMap::new();
        let mut many_to_one: BTreeMap<usize, usize> = BTreeMap::new();
        let n = many.len();
        for k in 0..n
            invariant
                n == many.len(),
                n == resolved.len(),
                forall|i: int, j: int| 0 <= i < j < many.len() ==> many@[i].0 != many@[j].0,
                forall|j: int| 0 <= j < k ==> resolved@[j] is Some,
                owners_match(map_view(one_to_many), many_to_one@),
                many_to_one@.dom() == Set::new(|u: usize| exists|j: int| 0 <= j < k && many@[j].0 == u),
                forall|j: int| 0 <= j < k ==> many_to_one@[many@[j].0] == resolved@[j]->Some_0,
                forall|t: usize| #[trigger] map_view(one_to_many).contains_key(t) ==> map_view(one_to_many)[t] != Set::<usize>::empty(),
        {
            let u = many[k].0;
            match resolved[k] {
                None => {
                    let id = many[k].1.clone();
                    let name = rel_name.to_owned();
                    return Err(Error::IdentifierNotFound(id, name));
                },
                Some(t) => {
                    let ghost b0 = map_view(one_to_many);
                    let ghost o0 = many_to_one@;
                    assert(!o0.contains_key(u)) by {
                        if o0.contains_key(u) {
                            let j = choose|j: int| 0 <= j < k && many@[j].0 == u;
                            assert(many@[j].0 != many@[k as int].0);
                        }
                    }
                    many_to_one.insert(u, t);
                    let mut bucket = match one_to_many.remove(&t) {
                        Some(b) => b,
                        None => BTreeSet::new(),
                    };
                    bucket.insert(u);
                    one_to_many.insert(t, bucket);
                    assert(map_view(one_to_many) =~= b0.insert(t, bucket_of(b0, t).insert(u)));
                    assert forall|t2: usize| #[trigger] map_view(one_to_many).contains_key(t2) implies map_view(one_to_many)[t2] != Set::<usize>::empty() by {
                        if t2 == t {
                            assert(map_view(one_to_many)[t2].contains(u));
                        } else {
                            assert(b0.contains_key(t2));
                        }
                    }
                    assert(many_to_one@.dom() =~= Set::new(|v: usize| exists|j: int| 0 <= j < k + 1 && many@[j].0 == v)) by {
                        assert forall|v: usize| #[trigger] many_to_one@.dom().contains(v) implies exists|j: int| 0 <= j < k + 1 && many@[j].0 == v by {
                            if v == u {
                                assert(many@[k as int].0 == v);
                            }
                        }
                    }
                    assert forall|j: int| 0 <= j < k + 1 implies many_to_one@[many@[j].0] == resolved@[j]->Some_0 by {
                        if j < k {
                            assert(many@[j].0 != many@[k as int].0);
                        }
                    }
                },
            }
        }
        let r = OneToMany { one_to_many, many_to_one };
        assert(r.owners().dom() =~= Set::new(|u: usize| exists|k: int| 0 <= k < many.len() && many@[k].0 == u));
        Ok(r)
    }

    /// Builds the relation from the `one` collection and `many`, the index of
    /// each target record with the identifier of its source in `one`. Fails
    /// with `IdentifierNotFound` on the first identifier that `one` lacks.
    pub fn new<T>(
        one: &CollectionWithId<T>,
        many: &Vec<(usize, String)>,
        rel_name: &str,
    ) -> (r: Result<Self, Error>)
        requires
            forall|i: int, j: int| 0 <= i < j < many.len() ==> many@[i].0 != many@[j].0,
        ensures
            exists|resolved: Seq<Option<usize>>|
                resolved.len() == many.len() && build_outcome(many@, resolved, rel_name@, r),
    {
        let mut resolved: Vec<Option<usize>> = Vec::new();
        for k in 0..many.len()
            invariant
                resolved.len() == k,
        {
            resolved.push(lookup_index(one, many[k].1.as_str()));
        }
        let r = Self::from_resolved(many, &resolved, rel_name);
        assert(resolved@.len() == many.len() && build_outcome(many@, resolved@, rel_name@, r));
        r
    }

    /// Links `to` to `from`. If `to` was linked to another source, that link
    /// is removed first, so that `to` keeps a single source.
    ///
    /// The caller is responsible for `to`'s record being really related to
    /// `from`'s record: the relation performs no deeper validation.
    pub fn add_link(&mut self, from: usize, to: usize)
        requires
            old(self).wf(),
        ensures
            final(self).wf(),
            final(self).buckets() == relinked(old(self).buckets(), from, to),
            final(self).owners() == old(self).owners().insert(to, from),
    {
        let ghost b0 = self.buckets();
        let ghost o0 = self.owners();
        match self.many_to_one.get(&to) {
            Some(existing) => {
                let existing = *existing;
                if existing != from {
                    self.many_to_one.remove(&to);
                    match self.one_to_many.remove(&existing) {
                        Some(mut bucket) => {
                            bucket.remove(&to);
                            self.one_to_many.insert(existing, bucket);
                        },
                        None => {},
                    }
                }
            },
            None => {},
        }
        let mut bucket = match self.one_to_many.remove(&from) {
            Some(b) => b,
            None => BTreeSet::new(),
        };
        bucket.insert(to);
        self.one_to_many.insert(from, bucket);
        self.many_to_one.insert(to, from);
        assert(self.buckets() =~= relinked(b0, from, to)) by {
            assert forall|k: usize| #[trigger] b0.contains_key(k) && k != from implies b0[k].remove(to) =~= self.buckets()[k] by {
                assert forall|u: usize| b0[k].contains(u) && u == to implies o0[to] == k by {}
            }
        }
        assert(self.owners() =~= o0.insert(to, from));
    }
}

impl Default for OneToMany {
    fn default() -> (r: Self)
        ensures
            r.wf(),
            r.buckets() == Map::<usize, Set<usize>>::empty(),
            r.owners() == Map::<usize, usize>::empty(),
    {
        Self::empty()
    }
}

impl Relation for OneToMany {
    open spec fn forward_view(&self) -> Map<usize, Set<usize>> {
        self.buckets()
    }

    open spec fn wf(&self) -> bool {
        owners_match(self.buckets(), self.owners())
    }

    fn get_from(&self) -> (r: IdxSet) {
        key_set(&self.one_to_many)
    }

    fn get_to(&self) -> (r: IdxSet) {
        let r = key_set(&self.many_to_one);
        let ghost b = self.buckets();
        assert forall|u: usize| r@.contains(u) == image(b, b.dom()).contains(u) by {
            if image(b, b.dom()).contains(u) {
                let t = choose|t: usize| b.dom().contains(t) && b.contains_key(t) && b[t].contains(u);
            }
        }
        assert(r@ =~= image(b, b.dom()));
        r
    }

    fn get_corresponding_forward(&self, from: &IdxSet) -> (r: IdxSet) {
        get_corresponding(&self.one_to_many, from)
    }

    fn get_corresponding_backward(&self, from: &IdxSet) -> (r: IdxSet) {
        let ghost b = self.buckets();
        let ghost o = self.owners();
        let mut r: IdxSet = BTreeSet::new();
        for u in it: from.iter()
            invariant
                self.wf(),
                b == self.buckets(),
                o == self.owners(),
                it.seq().unref().to_set() == from@,
                r@ == preimage(b, it.seq().take(it.index()).unref().to_set()),
                it.index() == it.seq().len() ==> r@ == preimage(b, from@),
        {
            proof {
                lemma_prefix_insert(it.seq(), it.index());
            }
            let ghost done = it.seq().take(it.index()).unref().to_set();
            match self.many_to_one.get(u) {
                Some(t) => {
                    let ghost r0 = r@;
                    r.insert(*t);
                    assert(r@ =~= preimage(b, done.insert(*u))) by {
                        assert(o.contains_key(*u) && o[*u] == *t);
                        assert(b.contains_key(*t) && b[*t].contains(*u));
                        assert forall|s: usize| preimage(b, done.insert(*u)).contains(s) implies r@.contains(s) by {
                            let v = choose|v: usize| done.insert(*u).contains(v) && b[s].contains(v);
                            if v != *u {
                                assert(preimage(b, done).contains(s));
                            }
                        }
                        assert forall|s: usize| r@.contains(s) implies preimage(b, done.insert(*u)).contains(s) by {
                            if s != *t {
                                assert(r0.contains(s));
                                let v = choose|v: usize| done.contains(v) && b[s].contains(v);
                                assert(done.insert(*u).contains(v));
                            } else {
                                assert(done.insert(*u).contains(*u));
                            }
                        }
                    }
                },
                None => {
                    assert(r@ =~= preimage(b, done.insert(*u))) by {
                        assert(!o.contains_key(*u));
                        assert forall|s: usize| preimage(b, done.insert(*u)).contains(s) implies r@.contains(s) by {
                            let v = choose|v: usize| done.insert(*u).contains(v) && b[s].contains(v);
                            assert(preimage(b, done).contains(s));
                        }
                        assert forall|s: usize| r@.contains(s) implies preimage(b, done.insert(*u)).contains(s) by {
                            let v = choose|v: usize| done.contains(v) && b[s].contains(v);
                            assert(done.insert(*u).contains(v));
                        }
                    }
                },
            }
            assert(it.index() + 1 == it.seq().len() ==> it.seq().take(it.index() + 1) == it.seq());
        }
        r
    }
}


/// Forward buckets of the chain of `m1` (A to B) and `m2` (B to C): each
/// source of `m1` with the targets of `m2` reached from its own targets.
pub open spec fn chain_forward(m1: Map<usize, Set<usize>>, m2: Map<usize, Set<usize>>) -> Map<usize, Set<usize>> {
    Map::new(|t: usize| m1.contains_key(t), |t: usize| image(m2, image(m1, set![t])))
}

/// Forward buckets of the join of `m1` (A to B) and `m2` (C to B) on their
/// common sink: each source of `m1` with the sources of `m2` that share a
/// target with it.
pub open spec fn sink_forward(m1: Map<usize, Set<usize>>, m2: Map<usize, Set<usize>>) -> Map<usize, Set<usize>> {
    Map::new(|t: usize| m1.contains_key(t), |t: usize| preimage(m2, image(m1, set![t])))
}

/// Forward buckets of the join of `m1` (B to A) and `m2` (B to C) on their
/// common source: each target of `m1` with the targets of `m2` reached from
/// its sources.
pub open spec fn source_forward(m1: Map<usize, Set<usize>>, m2: Map<usize, Set<usize>>) -> Map<usize, Set<usize>> {
    Map::new(|t: usize| image(m1, m1.dom()).contains(t), |t: usize| image(m2, preimage(m1, set![t])))
}

/// The transpose of the buckets of `f` whose source is in `done`.
pub open spec fn transpose_of(f: Map<usize, Set<usize>>, done: Set<usize>) -> Map<usize, Set<usize>> {
    Map::new(
        |u: usize| exists|t: usize| done.contains(t) && f.contains_key(t) && f[t].contains(u),
        |u: usize| Set::new(|t: usize| done.contains(t) && f.contains_key(t) && f[t].contains(u)),
    )
}

/// `b` with `t` added to the bucket of each index of `targets`.
pub open spec fn with_source(b: Map<usize, Set<usize>>, t: usize, targets: Set<usize>) -> Map<usize, Set<usize>> {
    Map::new(
        |u: usize| b.contains_key(u) || targets.contains(u),
        |u: usize| if targets.contains(u) { bucket_of(b, u).insert(t) } else { b[u] },
    )
}

proof fn lemma_transpose_step(f: Map<usize, Set<usize>>, done: Set<usize>, t: usize)
    requires
        f.contains_key(t),
    ensures
        transpose_of(f, done.insert(t)) == with_source(transpose_of(f, done), t, f[t]),
{
    let lhs = transpose_of(f, done.insert(t));
    let rhs = with_source(transpose_of(f, done), t, f[t]);
    let b = transpose_of(f, done);
    assert forall|u: usize| lhs.contains_key(u) == rhs.contains_key(u) by {
        if lhs.contains_key(u) {
            let w = choose|w: usize| done.insert(t).contains(w) && f.contains_key(w) && f[w].contains(u);
            if w != t {
                assert(b.contains_key(u));
            }
        }
        if b.contains_key(u) {
            let w = choose|w: usize| done.contains(w) && f.contains_key(w) && f[w].contains(u);
            assert(done.insert(t).contains(w));
        }
        if f[t].contains(u) {
            assert(done.insert(t).contains(t));
        }
    }
    assert forall|u: usize| #[trigger] lhs.contains_key(u) implies lhs[u] =~= rhs[u] by {
        if b.contains_key(u) {
            assert(bucket_of(b, u) == b[u]);
        }
    }
    assert(lhs =~= rhs);
}

proof fn lemma_transpose_full(f: Map<usize, Set<usize>>)
    ensures
        is_transpose(f, transpose_of(f, f.dom())),
{
    let b = transpose_of(f, f.dom());
    assert forall|t: usize, u: usize|
        #![trigger f[t].contains(u)]
        #![trigger b[u].contains(t)]
        (f.contains_key(t) && f[t].contains(u)) <==> (b.contains_key(u) && b[u].contains(t)) by {
        if f.contains_key(t) && f[t].contains(u) {
            assert(f.dom().contains(t));
            assert(b.contains_key(u));
        }
    }
    assert forall|u: usize| #[trigger] b.contains_key(u) implies exists|t: usize| b[u].contains(t) by {
        let w = choose|w: usize| f.dom().contains(w) && f.contains_key(w) && f[w].contains(u);
        assert(b[u].contains(w));
    }
}

/// Adds `t` to the bucket of each index of `targets` in `backward`.
fn add_transposed(backward: &mut BTreeMap<usize, IdxSet>, t: usize, targets: &IdxSet)
    ensures
        map_view(*final(backward)) == with_source(map_view(*old(backward)), t, targets@),
{
    let ghost start = map_view(*backward);
    let ghost mut seen: Set<usize> = Set::empty();
    for u in it: targets.iter()
        invariant
            it.seq().unref().to_set() == targets@,
            seen == it.seq().take(it.index()).unref().to_set(),
            it.index() == it.seq().len() ==> seen == targets@,
            map_view(*backward) == with_source(start, t, seen),
    {
        proof {
            lemma_prefix_insert(it.seq(), it.index());
        }
        let ghost b0 = map_view(*backward);
        let mut sources = match backward.remove(u) {
            Some(b) => b,
            None => BTreeSet::new(),
        };
        sources.insert(t);
        backward.insert(*u, sources);
        assert(map_view(*backward) =~= b0.insert(*u, bucket_of(b0, *u).insert(t)));
        assert(map_view(*backward) =~= with_source(start, t, seen.insert(*u))) by {
            let nb = with_source(start, t, seen.insert(*u));
            assert forall|u2: usize| #[trigger] nb.contains_key(u2) implies map_view(*backward)[u2] =~= nb[u2] by {
                if u2 != *u && seen.contains(u2) {
                    assert(bucket_of(start, u2).insert(t) == b0[u2]);
                }
                if u2 == *u && seen.contains(u2) {
                    assert(bucket_of(b0, u2) == bucket_of(start, u2).insert(t));
                }
                if u2 == *u && !seen.contains(u2) {
                    assert(bucket_of(b0, u2) == bucket_of(start, u2));
                }
            }
        }
        proof {
            seen = seen.insert(*u);
        }
        assert(it.index() + 1 == it.seq().len() ==> it.seq().take(it.index() + 1) == it.seq());
    }
}

/// A many to many relation: a source can have several targets, and a target
/// several sources.
pub struct ManyToMany {
    forward: BTreeMap<usize, IdxSet>,
    backward: BTreeMap<usize, IdxSet>,
}

impl ManyToMany {
    /// Each source with the set of its targets.
    pub closed spec fn forward_map(&self) -> Map<usize, Set<usize>> {
        map_view(self.forward)
    }

    /// Each target with the set of its sources.
    pub closed spec fn backward_map(&self) -> Map<usize, Set<usize>> {
        map_view(self.backward)
    }

    /// The backward buckets are the transpose of the forward ones.
    pub open spec fn wf(&self) -> bool {
        is_transpose(self.forward_map(), self.backward_map())
    }

    /// Builds the relation from its forward buckets; the backward buckets are
    /// their exact transpose.
    pub fn from_forward(forward: BTreeMap<usize, IdxSet>) -> (r: Self)
        ensures
            r.wf(),
            r.forward_map() == map_view(forward),
    {
        let ghost f = map_view(forward);
        let mut backward: BTreeMap<usize, IdxSet> = BTreeMap::new();
        let ghost mut done: Set<usize> = Set::empty();
        assert(map_view(backward) =~= transpose_of(f, done));
        for t in it: forward.keys()
            invariant
                f == map_view(forward),
                it.seq().unref().to_set() == forward@.dom(),
                done == it.seq().take(it.index()).unref().to_set(),
                it.index() == it.seq().len() ==> done == f.dom(),
                map_view(backward) == transpose_of(f, done),
        {
            proof {
                lemma_prefix_insert(it.seq(), it.index());
            }
            match forward.get(t) {
                Some(targets) => {
                    add_transposed(&mut backward, *t, targets);
                    proof {
                        lemma_transpose_step(f, done, *t);
                    }
                },
                None => {},
            }
            proof {
                done = done.insert(*t);
            }
            assert(it.index() + 1 == it.seq().len() ==> it.seq().take(it.index() + 1) == it.seq());
        }
        proof {
            lemma_transpose_full(f);
        }
        ManyToMany { forward, backward }
    }

    /// Builds the relation `A->C` from the relations `A->B` and `B->C`.
    pub fn from_relations_chain<R1: Relation, R2: Relation>(r1: &R1, r2: &R2) -> (r: Self)
        requires
            r1.wf(),
            r2.wf(),
        ensures
            r.wf(),
            r.forward_map() == chain_forward(r1.forward_view(), r2.forward_view()),
    {
        let ghost m1 = r1.forward_view();
        let ghost m2 = r2.forward_view();
        let sources = r1.get_from();
        let mut forward: BTreeMap<usize, IdxSet> = BTreeMap::new();
        let ghost mut done: Set<usize> = Set::empty();
        for idx in it: sources.iter()
            invariant
                r1.wf(),
                r2.wf(),
                m1 == r1.forward_view(),
                m2 == r2.forward_view(),
                it.seq().unref().to_set() == sources@,
                done == it.seq().take(it.index()).unref().to_set(),
                it.index() == it.seq().len() ==> done == sources@,
                map_view(forward) == chain_forward(m1, m2).restrict(done),
                sources@ == m1.dom(),
        {
            proof {
                lemma_prefix_insert(it.seq(), it.index());
            }
            let mut single: IdxSet = BTreeSet::new();
            single.insert(*idx);
            let tmp = r1.get_corresponding_forward(&single);
            let targets = r2.get_corresponding_forward(&tmp);
            let ghost mv0 = map_view(forward);
            forward.insert(*idx, targets);
            proof {
                assert(single@ =~= set![*idx]);
                assert(it.seq().unref()[it.index()] == *idx);
                assert(sources@.contains(*idx));
                assert(map_view(forward) =~= mv0.insert(*idx, targets@));
                done = done.insert(*idx);
            }
            assert(map_view(forward) =~= chain_forward(m1, m2).restrict(done));
            assert(it.index() + 1 == it.seq().len() ==> it.seq().take(it.index() + 1) == it.seq());
        }
        assert(chain_forward(m1, m2).restrict(done) =~= chain_forward(m1, m2));
        Self::from_forward(forward)
    }

    /// Builds the relation `A->C` from the relations `A->B` and `C->B`,
    /// which share their sink.
    pub fn from_relations_sink<R1: Relation, R2: Relation>(r1: &R1, r2: &R2) -> (r: Self)
        requires
            r1.wf(),
            r2.wf(),
        ensures
            r.wf(),
            r.forward_map() == sink_forward(r1.forward_view(), r2.forward_view()),
    {
        let ghost m1 = r1.forward_view();
        let ghost m2 = r2.forward_view();
        let sources = r1.get_from();
        let mut forward: BTreeMap<usize, IdxSet> = BTreeMap::new();
        let ghost mut done: Set<usize> = Set::empty();
        for idx in it: sources.iter()
            invariant
                r1.wf(),
                r2.wf(),
                m1 == r1.forward_view(),
                m2 == r2.forward_view(),
                it.seq().unref().to_set() == sources@,
                done == it.seq().take(it.index()).unref().to_set(),
                it.index() == it.seq().len() ==> done == sources@,
                map_view(forward) == sink_forward(m1, m2).restrict(done),
                sources@ == m1.dom(),
        {
            proof {
                lemma_prefix_insert(it.seq(), it.index());
            }
            let mut single: IdxSet = BTreeSet::new();
            single.insert(*idx);
            let tmp = r1.get_corresponding_forward(&single);
            let targets = r2.get_corresponding_backward(&tmp);
            let ghost mv0 = map_view(forward);
            forward.insert(*idx, targets);
            proof {
                assert(single@ =~= set![*idx]);
                assert(it.seq().unref()[it.index()] == *idx);
                assert(sources@.contains(*idx));
                assert(map_view(forward) =~= mv0.insert(*idx, targets@));
                done = done.insert(*idx);
            }
            assert(map_view(forward) =~= sink_forward(m1, m2).restrict(done));
            assert(it.index() + 1 == it.seq().len() ==> it.seq().take(it.index() + 1) == it.seq());
        }
        assert(sink_forward(m1, m2).restrict(done) =~= sink_forward(m1, m2));
        Self::from_forward(forward)
    }

    /// Builds the relation `A->C` from the relations `B->A` and `B->C`,
    /// which share their source.
    pub fn from_relations_source<R1: Relation, R2: Relation>(r1: &R1, r2: &R2) -> (r: Self)
        requires
            r1.wf(),
            r2.wf(),
        ensures
            r.wf(),
            r.forward_map() == source_forward(r1.forward_view(), r2.forward_view()),
    {
        let ghost m1 = r1.forward_view();
        let ghost m2 = r2.forward_view();
        let sources = r1.get_to();
        let mut forward: BTreeMap<usize, IdxSet> = BTreeMap::new();
        let ghost mut done: Set<usize> = Set::empty();
        for idx in it: sources.iter()
            invariant
                r1.wf(),
                r2.wf(),
                m1 == r1.forward_view(),
                m2 == r2.forward_view(),
                it.seq().unref().to_set() == sources@,
                done == it.seq().take(it.index()).unref().to_set(),
                it.index() == it.seq().len() ==> done == sources@,
                map_view(forward) == source_forward(m1, m2).restrict(done),
                sources@ == image(m1, m1.dom()),
        {
            proof {
                lemma_prefix_insert(it.seq(), it.index());
            }
            let mut single: IdxSet = BTreeSet::new();
            single.insert(*idx);
            let tmp = r1.get_corresponding_backward(&single);
            let targets = r2.get_corresponding_forward(&tmp);
            let ghost mv0 = map_view(forward);
            forward.insert(*idx, targets);
            proof {
                assert(single@ =~= set![*idx]);
                assert(it.seq().unref()[it.index()] == *idx);
                assert(sources@.contains(*idx));
                assert(map_view(forward) =~= mv0.insert(*idx, targets@));
                done = done.insert(*idx);
            }
            assert(map_view(forward) =~= source_forward(m1, m2).restrict(done));
            assert(it.index() + 1 == it.seq().len() ==> it.seq().take(it.index() + 1) == it.seq());
        }
        assert(source_forward(m1, m2).restrict(done) =~= source_forward(m1, m2));
        Self::from_forward(forward)
    }
}

impl Default for ManyToMany {
    fn default() -> (r: Self)
        ensures
            r.wf(),
            r.forward_map() == Map::<usize, Set<usize>>::empty(),
    {
        let r = Self::from_forward(BTreeMap::new());
        assert(r.forward_map() =~= Map::<usize, Set<usize>>::empty());
        r
    }
}

impl Relation for ManyToMany {
    open spec fn forward_view(&self) -> Map<usize, Set<usize>> {
        self.forward_map()
    }

    open spec fn wf(&self) -> bool {
        is_transpose(self.forward_map(), self.backward_map())
    }

    fn get_from(&self) -> (r: IdxSet) {
        key_set(&self.forward)
    }

    fn get_to(&self) -> (r: IdxSet) {
        proof {
            lemma_transpose_image(self.forward_map(), self.backward_map(), Set::empty());
        }
        key_set(&self.backward)
    }

    fn get_corresponding_forward(&self, from: &IdxSet) -> (r: IdxSet) {
        get_corresponding(&self.forward, from)
    }

    fn get_corresponding_backward(&self, from: &IdxSet) -> (r: IdxSet) {
        proof {
            lemma_transpose_image(self.forward_map(), self.backward_map(), from@);
        }
        get_corresponding(&self.backward, from)
    }
}


/// An elementary relation of either kind, so that relations of both kinds
/// can be declared side by side.
pub enum AnyRelation {
    OneToMany(OneToMany),
    ManyToMany(ManyToMany),
}

impl Relation for AnyRelation {
    open spec fn forward_view(&self) -> Map<usize, Set<usize>> {
        match self {
            AnyRelation::OneToMany(r) => r.forward_view(),
            AnyRelation::ManyToMany(r) => r.forward_view(),
        }
    }

    open spec fn wf(&self) -> bool {
        match self {
            AnyRelation::OneToMany(r) => r.wf(),
            AnyRelation::ManyToMany(r) => r.wf(),
        }
    }

    fn get_from(&self) -> (r: IdxSet) {
        match self {
            AnyRelation::OneToMany(r) => r.get_from(),
            AnyRelation::ManyToMany(r) => r.get_from(),
        }
    }

    fn get_to(&self) -> (r: IdxSet) {
        match self {
            AnyRelation::OneToMany(r) => r.get_to(),
            AnyRelation::ManyToMany(r) => r.get_to(),
        }
    }

    fn get_corresponding_forward(&self, from: &IdxSet) -> (r: IdxSet) {
        match self {
            AnyRelation::OneToMany(r) => r.get_corresponding_forward(from),
            AnyRelation::ManyToMany(r) => r.get_corresponding_forward(from),
        }
    }

    fn get_corresponding_backward(&self, from: &IdxSet) -> (r: IdxSet) {
        match self {
            AnyRelation::OneToMany(r) => r.get_corresponding_backward(from),
            AnyRelation::ManyToMany(r) => r.get_corresponding_backward(from),
        }
    }
}

} // verus!
