//! Distance fields as trees: primitive shapes at the leaves, joined by unions
//! and seen through transforms.
//!
//! A field's distance is stated over three relations: which distance
//! a shape has at a point, to which point a transform carries a point, and
//! whether one distance is closer than another. The executable walk takes
//! three closures and is held to the relations that those closures compute.
use vstd::prelude::*;

verus! {

/// A field placed in space: `mat` maps a point of the outer space to the
/// point of the inner field's own space that it stands for.
pub struct SdfTransform<M, Inner> {
    pub mat: M,
    pub inner: Inner,
}

/// A distance field over shapes of type `S`, placed by transforms of type `M`.
pub enum Field<S, M> {
    /// A primitive shape.
    Shape(S),
    /// The union of the member fields: at every point, the nearest of them.
    Union(Vec<Field<S, M>>),
    /// A field seen through a transform.
    Transformed(SdfTransform<M, Box<Field<S, M>>>),
}

/// `d` is a nearest of the distances `ds`, found from the left: the first
/// distance to begin with, and each later one in its turn where `closer`
/// puts it before the nearest so far.
pub open spec fn nearest_of<D>(closer: spec_fn(D, D, bool) -> bool, ds: Seq<D>, d: D) -> bool
    decreases ds.len(),
{
    if ds.len() == 0 {
        false
    } else if ds.len() == 1 {
        d == ds[0]
    } else {
        exists|so_far: D, taken: bool|
            #![trigger closer(ds.last(), so_far, taken)]
            {
                &&& nearest_of(closer, ds.drop_last(), so_far)
                &&& closer(ds.last(), so_far, taken)
                &&& d == if taken {
                    ds.last()
                } else {
                    so_far
                }
            }
    }
}

/// What `shape` can give as the distance of a shape at a point.
pub open spec fn shape_relation<S, P, D, K: Fn(&S, &P) -> D>(shape: K) -> spec_fn(S, P, D) -> bool {
    |s: S, pt: P, d: D| call_ensures(shape, (&s, &pt), d)
}

/// Where `transform` can carry a point.
pub open spec fn transform_relation<M, P, T: Fn(&M, &P) -> P>(transform: T) -> spec_fn(
    M,
    P,
    P,
) -> bool {
    |mat: M, pt: P, moved: P| call_ensures(transform, (&mat, &pt), moved)
}

/// What `closer` can answer when asked whether the first distance is closer
/// than the second.
pub open spec fn closer_relation<D, C: Fn(&D, &D) -> bool>(closer: C) -> spec_fn(
    D,
    D,
    bool,
) -> bool {
    |a: D, b: D, taken: bool| call_ensures(closer, (&a, &b), taken)
}

impl<S, M> Field<S, M> {
    /// No union in the tree is empty.
    pub open spec fn well_formed(&self) -> bool
        decreases self,
    {
        match self {
            Field::Shape(_) => true,
            Field::Union(members) => members@.len() > 0 && forall|i: int|
                0 <= i < members@.len() ==> (#[trigger] members@[i]).well_formed(),
            Field::Transformed(node) => node.inner.well_formed(),
        }
    }

    /// `d` is a distance the field can have at `pt`: a shape's own distance;
    /// for a union, the nearest of its members' distances at `pt`, members
    /// taken in order; for a transformed field, the inner field's distance
    /// at the point to which the transform carries `pt`.
    pub open spec fn measures<P, D>(
        &self,
        pt: P,
        shape: spec_fn(S, P, D) -> bool,
        transform: spec_fn(M, P, P) -> bool,
        closer: spec_fn(D, D, bool) -> bool,
        d: D,
    ) -> bool
        decreases self,
    {
        match self {
            Field::Shape(s) => shape(*s, pt, d),
            Field::Union(members) => exists|ds: Seq<D>|
                #![trigger nearest_of(closer, ds, d)]
                {
                    &&& ds.len() == members@.len()
                    &&& forall|i: int|
                        0 <= i < members@.len() ==> (#[trigger] members@[i]).measures(
                            pt,
                            shape,
                            transform,
                            closer,
                            ds[i],
                        )
                    &&& nearest_of(closer, ds, d)
                },
            Field::Transformed(node) => exists|moved: P|
                #![trigger transform(node.mat, pt, moved)]
                transform(node.mat, pt, moved) && node.inner.measures(
                    moved,
                    shape,
                    transform,
                    closer,
                    d,
                ),
        }
    }

    /// Tells whether no union in the tree is empty.
    pub fn is_well_formed(&self) -> (ok: bool)
        ensures
            ok == self.well_formed(),
        decreases self,
    {
        match self {
            Field::Shape(_) => true,
            Field::Union(members) => {
                if members.len() == 0 {
                    return false;
                }
                let mut i: usize = 0;
                while i < members.len()
                    invariant
                        *self == Field::Union(*members),
                        i <= members.len(),
                        forall|j: int| 0 <= j < i ==> (#[trigger] members@[j]).well_formed(),
                    decreases members.len() - i,
                {
                    assert(decreases_to!(self => self->Union_0));
                    assert(decreases_to!(members => members@));
                    assert(decreases_to!(members@ => members@[i as int]));
                    if !members[i].is_well_formed() {
                        return false;
                    }
                    i = i + 1;
                }
                true
            },
            Field::Transformed(node) => node.inner.is_well_formed(),
        }
    }

    /// The field's distance at `pt`. `shape` gives a primitive's distance at
    /// a point, `transform` carries a point through a transform, and
    /// `closer` tells whether its first distance is closer than its second.
    /// A union has the distance of its first member unless a later one is
    /// closer than all before it.
    pub fn distance<P, D, K: Fn(&S, &P) -> D, T: Fn(&M, &P) -> P, C: Fn(&D, &D) -> bool>(
        &self,
        pt: &P,
        shape: &K,
        transform: &T,
        closer: &C,
    ) -> (d: D)
        requires
            self.well_formed(),
            forall|s: S, p: P| call_requires(*shape, (&s, &p)),
            forall|m: M, p: P| call_requires(*transform, (&m, &p)),
            forall|a: D, b: D| call_requires(*closer, (&a, &b)),
        ensures
            self.measures(
                *pt,
                shape_relation(*shape),
                transform_relation(*transform),
                closer_relation(*closer),
                d,
            ),
        decreases self,
    {
        match self {
            Field::Shape(s) => shape(s, pt),
            Field::Union(members) => {
                assert(decreases_to!(self => self->Union_0));
                assert(decreases_to!(members => members@));
                assert(decreases_to!(members@ => members@[0]));
                let mut best = members[0].distance(pt, shape, transform, closer);
                let ghost mut ds: Seq<D> = seq![best];
                let mut i: usize = 1;
                while i < members.len()
                    invariant
                        *self == Field::Union(*members),
                        self.well_formed(),
                        forall|s: S, p: P| call_requires(*shape, (&s, &p)),
                        forall|m: M, p: P| call_requires(*transform, (&m, &p)),
                        forall|a: D, b: D| call_requires(*closer, (&a, &b)),
                        1 <= i <= members.len(),
                        ds.len() == i,
                        forall|j: int|
                            0 <= j < i ==> (#[trigger] members@[j]).measures(
                                *pt,
                                shape_relation(*shape),
                                transform_relation(*transform),
                                closer_relation(*closer),
                                ds[j],
                            ),
                        nearest_of(closer_relation(*closer), ds, best),
                    decreases members.len() - i,
                {
                    assert(decreases_to!(self => self->Union_0));
                    assert(decreases_to!(members => members@));
                    assert(decreases_to!(members@ => members@[i as int]));
                    let next = members[i].distance(pt, shape, transform, closer);
                    let ghost so_far = best;
                    let ghost before = ds;
                    let taken = closer(&next, &best);
                    if taken {
                        best = next;
                    }
                    proof {
                        ds = before.push(next);
                        assert(ds.drop_last() =~= before);
                        assert(closer_relation(*closer)(ds.last(), so_far, taken));
                    }
                    i = i + 1;
                }
                best
            },
            Field::Transformed(node) => {
                let moved = transform(&node.mat, pt);
                assert(transform_relation(*transform)(node.mat, *pt, moved));
                node.inner.distance(&moved, shape, transform, closer)
            },
        }
    }
}

/// A union of two fields has, at every point, the distance of its second
/// member where `closer` puts that before the first member's, and the
/// distance of its first member where not.
pub proof fn lemma_union_of_two<S, M, P, D>(
    union: Field<S, M>,
    pt: P,
    shape: spec_fn(S, P, D) -> bool,
    transform: spec_fn(M, P, P) -> bool,
    closer: spec_fn(D, D, bool) -> bool,
    d: D,
)
    requires
        union is Union,
        union->Union_0@.len() == 2,
    ensures
        union.measures(pt, shape, transform, closer, d) <==> exists|a: D, b: D, taken: bool|
            #![trigger closer(b, a, taken)]
            {
                &&& union->Union_0@[0].measures(pt, shape, transform, closer, a)
                &&& union->Union_0@[1].measures(pt, shape, transform, closer, b)
                &&& closer(b, a, taken)
                &&& d == if taken {
                    b
                } else {
                    a
                }
            },
{
    let members = union->Union_0@;
    if union.measures(pt, shape, transform, closer, d) {
        let ds = choose|ds: Seq<D>|
            #![trigger nearest_of(closer, ds, d)]
            {
                &&& ds.len() == members.len()
                &&& forall|i: int|
                    0 <= i < members.len() ==> (#[trigger] members[i]).measures(
                        pt,
                        shape,
                        transform,
                        closer,
                        ds[i],
                    )
                &&& nearest_of(closer, ds, d)
            };
        let (so_far, taken) = choose|so_far: D, taken: bool|
            #![trigger closer(ds.last(), so_far, taken)]
            {
                &&& nearest_of(closer, ds.drop_last(), so_far)
                &&& closer(ds.last(), so_far, taken)
                &&& d == if taken {
                    ds.last()
                } else {
                    so_far
                }
            };
        assert(members[0].measures(pt, shape, transform, closer, ds[0]));
        assert(members[1].measures(pt, shape, transform, closer, ds[1]));
        assert(so_far == ds[0]);
        assert(closer(ds[1], ds[0], taken));
    }
    if exists|a: D, b: D, taken: bool|
        #![trigger closer(b, a, taken)]
        {
            &&& members[0].measures(pt, shape, transform, closer, a)
            &&& members[1].measures(pt, shape, transform, closer, b)
            &&& closer(b, a, taken)
            &&& d == if taken {
                b
            } else {
                a
            }
        } {
        let (a, b, taken) = choose|a: D, b: D, taken: bool|
            #![trigger closer(b, a, taken)]
            {
                &&& members[0].measures(pt, shape, transform, closer, a)
                &&& members[1].measures(pt, shape, transform, closer, b)
                &&& closer(b, a, taken)
                &&& d == if taken {
                    b
                } else {
                    a
                }
            };
        let ds = seq![a, b];
        assert(ds.drop_last() =~= seq![a]);
        assert(nearest_of(closer, ds.drop_last(), a));
        assert(closer(ds.last(), a, taken));
        assert(nearest_of(closer, ds, d));
        assert forall|i: int| 0 <= i < members.len() implies (#[trigger] members[i]).measures(
            pt,
            shape,
            transform,
            closer,
            ds[i],
        ) by {}
    }
}

/// A transformed field has at `pt` the distances that its inner field has
/// at the point to which the transform carries `pt`.
pub proof fn lemma_transformed_measures_inner<S, M, P, D>(
    field: Field<S, M>,
    pt: P,
    moved: P,
    shape: spec_fn(S, P, D) -> bool,
    transform: spec_fn(M, P, P) -> bool,
    closer: spec_fn(D, D, bool) -> bool,
    d: D,
)
    requires
        field is Transformed,
        transform(field->Transformed_0.mat, pt, moved),
        forall|other: P| #[trigger]
            transform(field->Transformed_0.mat, pt, other) ==> other == moved,
    ensures
        field.measures(pt, shape, transform, closer, d) <==> field->Transformed_0.inner.measures(
            moved,
            shape,
            transform,
            closer,
            d,
        ),
{
}

/// Where `closer` decides by an order `le` that is reflexive and transitive
/// (it says yes only of a distance not above the other, and no only of one
/// not below), a nearest of some distances is one of them and is not above
/// any of them: it is their minimum.
pub proof fn lemma_nearest_is_least<D>(
    closer: spec_fn(D, D, bool) -> bool,
    le: spec_fn(D, D) -> bool,
    ds: Seq<D>,
    d: D,
)
    requires
        forall|a: D| #[trigger] le(a, a),
        forall|a: D, b: D, c: D| #[trigger] le(a, b) && #[trigger] le(b, c) ==> le(a, c),
        forall|a: D, b: D, taken: bool| #[trigger]
            closer(a, b, taken) ==> if taken {
                le(a, b)
            } else {
                le(b, a)
            },
        nearest_of(closer, ds, d),
    ensures
        exists|i: int| 0 <= i < ds.len() && #[trigger] ds[i] == d,
        forall|i: int| 0 <= i < ds.len() ==> le(d, #[trigger] ds[i]),
    decreases ds.len(),
{
    if ds.len() > 1 {
        let shorter = ds.drop_last();
        let (so_far, taken) = choose|so_far: D, taken: bool|
            #![trigger closer(ds.last(), so_far, taken)]
            {
                &&& nearest_of(closer, shorter, so_far)
                &&& closer(ds.last(), so_far, taken)
                &&& d == if taken {
                    ds.last()
                } else {
                    so_far
                }
            };
        lemma_nearest_is_least(closer, le, shorter, so_far);
        let at = choose|i: int| 0 <= i < shorter.len() && #[trigger] shorter[i] == so_far;
        assert(ds[at] == so_far);
        assert(ds[ds.len() - 1] == ds.last());
        assert forall|i: int| 0 <= i < ds.len() implies le(d, #[trigger] ds[i]) by {
            if i < shorter.len() {
                assert(shorter[i] == ds[i]);
                assert(le(so_far, shorter[i]));
                assert(le(d, so_far));
            }
        }
    } else {
        assert(ds[0] == d);
    }
}

/// Under a single-valued `closer`, some distances have one nearest.
pub proof fn lemma_nearest_is_unique<D>(
    closer: spec_fn(D, D, bool) -> bool,
    ds: Seq<D>,
    d: D,
    other: D,
)
    requires
        forall|a: D, b: D, r: bool, q: bool|
            #![trigger closer(a, b, r), closer(a, b, q)]
            closer(a, b, r) && closer(a, b, q) ==> r == q,
        nearest_of(closer, ds, d),
        nearest_of(closer, ds, other),
    ensures
        d == other,
    decreases ds.len(),
{
    if ds.len() > 1 {
        let (one, taken) = choose|so_far: D, taken: bool|
            #![trigger closer(ds.last(), so_far, taken)]
            {
                &&& nearest_of(closer, ds.drop_last(), so_far)
                &&& closer(ds.last(), so_far, taken)
                &&& d == if taken {
                    ds.last()
                } else {
                    so_far
                }
            };
        let (two, again) = choose|so_far: D, taken: bool|
            #![trigger closer(ds.last(), so_far, taken)]
            {
                &&& nearest_of(closer, ds.drop_last(), so_far)
                &&& closer(ds.last(), so_far, taken)
                &&& other == if taken {
                    ds.last()
                } else {
                    so_far
                }
            };
        lemma_nearest_is_unique(closer, ds.drop_last(), one, two);
    }
}

/// A field's distance is a function of the field and the point: under
/// single-valued relations, the field has one distance at each point.
pub proof fn lemma_distance_is_unique<S, M, P, D>(
    field: Field<S, M>,
    pt: P,
    shape: spec_fn(S, P, D) -> bool,
    transform: spec_fn(M, P, P) -> bool,
    closer: spec_fn(D, D, bool) -> bool,
    d: D,
    other: D,
)
    requires
        forall|s: S, p: P, r: D, q: D|
            #![trigger shape(s, p, r), shape(s, p, q)]
            shape(s, p, r) && shape(s, p, q) ==> r == q,
        forall|m: M, p: P, r: P, q: P|
            #![trigger transform(m, p, r), transform(m, p, q)]
            transform(m, p, r) && transform(m, p, q) ==> r == q,
        forall|a: D, b: D, r: bool, q: bool|
            #![trigger closer(a, b, r), closer(a, b, q)]
            closer(a, b, r) && closer(a, b, q) ==> r == q,
        field.measures(pt, shape, transform, closer, d),
        field.measures(pt, shape, transform, closer, other),
    ensures
        d == other,
    decreases field,
{
    match field {
        Field::Shape(s) => {},
        Field::Union(members) => {
            let one = choose|ds: Seq<D>|
                #![trigger nearest_of(closer, ds, d)]
                {
                    &&& ds.len() == members@.len()
                    &&& forall|i: int|
                        0 <= i < members@.len() ==> (#[trigger] members@[i]).measures(
                            pt,
                            shape,
                            transform,
                            closer,
                            ds[i],
                        )
                    &&& nearest_of(closer, ds, d)
                };
            let two = choose|ds: Seq<D>|
                #![trigger nearest_of(closer, ds, other)]
                {
                    &&& ds.len() == members@.len()
                    &&& forall|i: int|
                        0 <= i < members@.len() ==> (#[trigger] members@[i]).measures(
                            pt,
                            shape,
                            transform,
                            closer,
                            ds[i],
                        )
                    &&& nearest_of(closer, ds, other)
                };
            assert forall|i: int| 0 <= i < one.len() implies one[i] == two[i] by {
                assert(members@[i].measures(pt, shape, transform, closer, one[i]));
                assert(members@[i].measures(pt, shape, transform, closer, two[i]));
                assert(decreases_to!(field => field->Union_0));
                assert(decreases_to!(members => members@));
                assert(decreases_to!(members@ => members@[i]));
                lemma_distance_is_unique(
                    members@[i],
                    pt,
                    shape,
                    transform,
                    closer,
                    one[i],
                    two[i],
                );
            }
            assert(one =~= two);
            lemma_nearest_is_unique(closer, one, d, other);
        },
        Field::Transformed(node) => {
            let one = choose|moved: P|
                #![trigger transform(node.mat, pt, moved)]
                transform(node.mat, pt, moved) && node.inner.measures(
                    moved,
                    shape,
                    transform,
                    closer,
                    d,
                );
            let two = choose|moved: P|
                #![trigger transform(node.mat, pt, moved)]
                transform(node.mat, pt, moved) && node.inner.measures(
                    moved,
                    shape,
                    transform,
                    closer,
                    other,
                );
            lemma_distance_is_unique(*node.inner, one, shape, transform, closer, d, other);
        },
    }
}

} // verus!
