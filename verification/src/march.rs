//! Sphere tracing: walking a ray through a distance field, one probe at a time,
//! until it reaches a surface, leaves the marching range or runs out of steps.
//!
//! What a march can come to is stated over a relation between a point and what
//! a probe can report of it. The executable march takes a closure and is held
//! to the relation that the closure computes.
use vstd::prelude::*;

verus! {

/// The most probes a single ray may make.
pub const MAX_STEPS: u32 = 100;

/// What one evaluation of the distance field at a ray's current point reports.
pub enum Probe<P> {
    /// The distance at the point is under the hit threshold: the ray stands on
    /// a surface.
    Surface,
    /// The ray moved on by the distance found, to `next`. `spent` tells that
    /// the distance travelled so far has reached the marching range.
    Advance { next: P, spent: bool },
}

/// What the marcher does after a probe.
pub enum Step<P> {
    /// Stop: the point probed lies on a surface.
    Hit,
    /// Stop: the ray is given up.
    Miss,
    /// Go on from the point held.
    Continue(P),
}

/// The marcher's transition: what follows a probe whose result is `seen`,
/// made after `steps` earlier advances.
pub open spec fn step_of<P>(steps: nat, seen: Probe<P>) -> Step<P> {
    match seen {
        Probe::Surface => Step::Hit,
        Probe::Advance { next, spent } => if spent || steps + 1 >= MAX_STEPS {
            Step::Miss
        } else {
            Step::Continue(next)
        },
    }
}

/// Decides what follows a probe whose result is `seen`, made after `steps`
/// earlier advances.
pub fn decide<P>(steps: u32, seen: Probe<P>) -> (step: Step<P>)
    ensures
        step == step_of(steps as nat, seen),
{
    match seen {
        Probe::Surface => Step::Hit,
        Probe::Advance { next, spent } => if spent || steps >= MAX_STEPS - 1 {
            Step::Miss
        } else {
            Step::Continue(next)
        },
    }
}

/// What `distance` can give as the field's distance at a ray's point.
pub open spec fn distance_relation<P, D, K: Fn(&P) -> D>(distance: K) -> spec_fn(P, D) -> bool {
    |at: P, d: D| call_ensures(distance, (&at,), d)
}

/// What `near` can answer when asked whether a distance is under the hit
/// threshold.
pub open spec fn near_relation<D, N: Fn(&D) -> bool>(near: N) -> spec_fn(D, bool) -> bool {
    |d: D, yes: bool| call_ensures(near, (&d,), yes)
}

/// Where `advance` can move a ray by a distance.
pub open spec fn advance_relation<P, D, A: Fn(&P, &D) -> P>(advance: A) -> spec_fn(
    P,
    D,
    P,
) -> bool {
    |at: P, d: D, next: P| call_ensures(advance, (&at, &d), next)
}

/// What `spent` can answer when asked whether a ray has used up its range.
pub open spec fn spent_relation<P, E: Fn(&P) -> bool>(spent: E) -> spec_fn(P, bool) -> bool {
    |at: P, yes: bool| call_ensures(spent, (&at,), yes)
}

/// `seen` is what a probe of `at` can report: for some distance `d` of the
/// field at `at`, the surface where `d` is near; else the ray moved on by
/// `d`, with the range then spent or not.
pub open spec fn reports<P, D>(
    measured: spec_fn(P, D) -> bool,
    near: spec_fn(D, bool) -> bool,
    advanced: spec_fn(P, D, P) -> bool,
    spent: spec_fn(P, bool) -> bool,
    at: P,
    seen: Probe<P>,
) -> bool {
    exists|d: D|
        #![trigger measured(at, d)]
        measured(at, d) && match seen {
            Probe::Surface => near(d, true),
            Probe::Advance { next, spent: used } => {
                &&& near(d, false)
                &&& advanced(at, d, next)
                &&& spent(next, used)
            },
        }
}

/// Probes the field once at `at`: takes the field's distance there, reports
/// the surface where `near` finds that distance under the hit threshold, and
/// otherwise moves the ray on by it and asks `spent` whether the ray has then
/// used up its range.
pub fn probe<
    P,
    D,
    K: Fn(&P) -> D,
    N: Fn(&D) -> bool,
    A: Fn(&P, &D) -> P,
    E: Fn(&P) -> bool,
>(at: &P, distance: &K, near: &N, advance: &A, spent: &E) -> (seen: Probe<P>)
    requires
        forall|p: P| call_requires(*distance, (&p,)),
        forall|d: D| call_requires(*near, (&d,)),
        forall|p: P, d: D| call_requires(*advance, (&p, &d)),
        forall|p: P| call_requires(*spent, (&p,)),
    ensures
        reports(
            distance_relation(*distance),
            near_relation(*near),
            advance_relation(*advance),
            spent_relation(*spent),
            *at,
            seen,
        ),
{
    let d = distance(at);
    assert(distance_relation(*distance)(*at, d));
    if near(&d) {
        Probe::Surface
    } else {
        let next = advance(at, &d);
        let used = spent(&next);
        Probe::Advance { next, spent: used }
    }
}

/// What `probe` can report of a point.
pub open spec fn probe_relation<P, F: Fn(&P) -> Probe<P>>(probe: F) -> spec_fn(
    P,
    Probe<P>,
) -> bool {
    |at: P, seen: Probe<P>| call_ensures(probe, (&at,), seen)
}

/// What `shade` can give as the brightness of a point.
pub open spec fn shade_relation<P, S: Fn(&P) -> usize>(shade: S) -> spec_fn(P, usize) -> bool {
    |at: P, level: usize| call_ensures(shade, (&at,), level)
}

/// A probe of `from` can move the ray on to `to` with range to spare.
pub open spec fn advances<P>(probed: spec_fn(P, Probe<P>) -> bool, from: P, to: P) -> bool {
    probed(from, Probe::Advance { next: to, spent: false })
}

/// `path` is a walk the marcher can take: at least one point and at most
/// `MAX_STEPS` of them, each but the first reached by probing the one before.
pub open spec fn is_path<P>(probed: spec_fn(P, Probe<P>) -> bool, path: Seq<P>) -> bool {
    &&& 0 < path.len() <= MAX_STEPS
    &&& forall|i: int|
        #![trigger path[i]]
        0 <= i < path.len() - 1 ==> advances(probed, path[i], path[i + 1])
}

/// A march from `start` can end on a surface at `at`: a walk leads from
/// `start` to `at`, and a probe of `at` reports the surface.
pub open spec fn hits<P>(probed: spec_fn(P, Probe<P>) -> bool, start: P, at: P) -> bool {
    exists|path: Seq<P>|
        #![trigger is_path(probed, path)]
        {
            &&& is_path(probed, path)
            &&& path[0] == start
            &&& path.last() == at
            &&& probed(at, Probe::Surface)
        }
}

/// The marcher can give a ray up at `from`, the last of `walked` points: a
/// probe there moves the ray on, and either the range is spent or the walk
/// has used the whole step budget.
pub open spec fn gives_up<P>(probed: spec_fn(P, Probe<P>) -> bool, from: P, walked: nat) -> bool {
    exists|next: P, spent: bool|
        #![trigger probed(from, Probe::Advance { next, spent })]
        probed(from, Probe::Advance { next, spent }) && (spent || walked == MAX_STEPS)
}

/// A march from `start` can end without a surface: a walk leads from `start`
/// to a point at which the marcher gives the ray up.
pub open spec fn misses<P>(probed: spec_fn(P, Probe<P>) -> bool, start: P) -> bool {
    exists|path: Seq<P>|
        #![trigger is_path(probed, path)]
        {
            &&& is_path(probed, path)
            &&& path[0] == start
            &&& gives_up(probed, path.last(), path.len())
        }
}

/// Marches a ray from `start`: probes the current point, stops on a surface,
/// and otherwise moves on until the range or the step budget is spent.
/// Returns the point on the surface, or `None` for a ray that found none.
pub fn march<P, F: Fn(&P) -> Probe<P>>(start: P, probe: &F) -> (hit: Option<P>)
    requires
        forall|p: P| call_requires(*probe, (&p,)),
    ensures
        match hit {
            Some(at) => hits(probe_relation(*probe), start, at),
            None => misses(probe_relation(*probe), start),
        },
{
    let ghost probed = probe_relation(*probe);
    let mut current = start;
    let mut steps: u32 = 0;
    let ghost mut path: Seq<P> = seq![start];
    loop
        invariant
            forall|p: P| call_requires(*probe, (&p,)),
            probed == probe_relation(*probe),
            steps < MAX_STEPS,
            path.len() == steps + 1,
            is_path(probed, path),
            path[0] == start,
            path.last() == current,
        decreases MAX_STEPS - steps,
    {
        let seen = probe(&current);
        let ghost found = seen;
        assert(probed(current, found));
        match decide(steps, seen) {
            Step::Hit => {
                return Some(current);
            },
            Step::Miss => {
                assert(found == Probe::Advance { next: found->next, spent: found->spent });
                return None;
            },
            Step::Continue(next) => {
                proof {
                    let longer = path.push(next);
                    assert forall|i: int| 0 <= i < longer.len() - 1 implies advances(
                        probed,
                        #[trigger] longer[i],
                        longer[i + 1],
                    ) by {
                        if i < path.len() - 1 {
                            assert(longer[i] == path[i]);
                            assert(longer[i + 1] == path[i + 1]);
                        }
                    }
                    path = longer;
                }
                current = next;
                steps = steps + 1;
            },
        }
    }
}

/// `level` is a brightness the ray from `start` can be given: that of the
/// surface point it reaches, and 0 for a ray that finds none.
pub open spec fn ray_level<P>(
    probed: spec_fn(P, Probe<P>) -> bool,
    shaded: spec_fn(P, usize) -> bool,
    start: P,
    level: usize,
) -> bool {
    ||| misses(probed, start) && level == 0
    ||| exists|at: P|
        #![trigger hits(probed, start, at)]
        hits(probed, start, at) && shaded(at, level)
}

/// Casts a ray from `start` and gives its brightness level: the surface point
/// it reaches is shaded, and a ray that reaches none stays dark.
pub fn cast_ray<P, F: Fn(&P) -> Probe<P>, S: Fn(&P) -> usize>(
    start: P,
    probe: &F,
    shade: &S,
) -> (level: usize)
    requires
        forall|p: P| call_requires(*probe, (&p,)),
        forall|p: P| call_requires(*shade, (&p,)),
    ensures
        ray_level(probe_relation(*probe), shade_relation(*shade), start, level),
{
    match march(start, probe) {
        Some(at) => shade(&at),
        None => 0,
    }
}

/// A march under a probe that reports only what another probe can report is
/// a march under that other probe too.
pub proof fn lemma_march_is_monotone<P>(
    probed: spec_fn(P, Probe<P>) -> bool,
    wider: spec_fn(P, Probe<P>) -> bool,
    start: P,
)
    requires
        forall|at: P, seen: Probe<P>| #[trigger] probed(at, seen) ==> wider(at, seen),
    ensures
        forall|at: P| #[trigger] hits(probed, start, at) ==> hits(wider, start, at),
        misses(probed, start) ==> misses(wider, start),
{
    assert forall|at: P| #[trigger] hits(probed, start, at) implies hits(wider, start, at) by {
        let path = choose|path: Seq<P>|
            #![trigger is_path(probed, path)]
            {
                &&& is_path(probed, path)
                &&& path[0] == start
                &&& path.last() == at
                &&& probed(at, Probe::Surface)
            };
        assert(is_path(wider, path)) by {
            assert forall|i: int| 0 <= i < path.len() - 1 implies advances(
                wider,
                #[trigger] path[i],
                path[i + 1],
            ) by {
                assert(advances(probed, path[i], path[i + 1]));
            }
        }
    }
    if misses(probed, start) {
        let path = choose|path: Seq<P>|
            #![trigger is_path(probed, path)]
            is_path(probed, path) && path[0] == start && gives_up(probed, path.last(), path.len());
        let (next, spent) = choose|next: P, spent: bool|
            #![trigger probed(path.last(), Probe::Advance { next, spent })]
            probed(path.last(), Probe::Advance { next, spent }) && (spent || path.len()
                == MAX_STEPS);
        assert(wider(path.last(), Probe::Advance { next, spent }));
        assert(is_path(wider, path)) by {
            assert forall|i: int| 0 <= i < path.len() - 1 implies advances(
                wider,
                #[trigger] path[i],
                path[i + 1],
            ) by {
                assert(advances(probed, path[i], path[i + 1]));
            }
        }
    }
}

/// A probe of a point has one result.
pub open spec fn single_valued<P>(probed: spec_fn(P, Probe<P>) -> bool) -> bool {
    forall|at: P, seen: Probe<P>, other: Probe<P>|
        #![trigger probed(at, seen), probed(at, other)]
        probed(at, seen) && probed(at, other) ==> seen == other
}

/// Two walks from one point, where a probe has one result, pass through the
/// same points for as long as both go on.
pub proof fn lemma_paths_agree<P>(
    probed: spec_fn(P, Probe<P>) -> bool,
    one: Seq<P>,
    other: Seq<P>,
    i: int,
)
    requires
        single_valued(probed),
        is_path(probed, one),
        is_path(probed, other),
        one[0] == other[0],
        0 <= i < one.len(),
        i < other.len(),
    ensures
        one[i] == other[i],
    decreases i,
{
    if i > 0 {
        lemma_paths_agree(probed, one, other, i - 1);
        assert(advances(probed, one[i - 1], one[i - 1 + 1]));
        assert(advances(probed, other[i - 1], other[i - 1 + 1]));
    }
}

/// A march is a function of the field and the start: where a probe has one
/// result, a ray that can end on a surface ends there and nowhere else.
pub proof fn lemma_hit_is_unique<P>(probed: spec_fn(P, Probe<P>) -> bool, start: P, at: P, other: P)
    requires
        single_valued(probed),
        hits(probed, start, at),
        hits(probed, start, other),
    ensures
        at == other,
{
    let one = choose|path: Seq<P>|
        #![trigger is_path(probed, path)]
        is_path(probed, path) && path[0] == start && path.last() == at;
    let two = choose|path: Seq<P>|
        #![trigger is_path(probed, path)]
        is_path(probed, path) && path[0] == start && path.last() == other;
    if one.len() < two.len() {
        lemma_paths_agree(probed, one, two, one.len() - 1);
        assert(advances(probed, two[one.len() - 1], two[one.len() - 1 + 1]));
    } else if two.len() < one.len() {
        lemma_paths_agree(probed, one, two, two.len() - 1);
        assert(advances(probed, one[two.len() - 1], one[two.len() - 1 + 1]));
    } else {
        lemma_paths_agree(probed, one, two, one.len() - 1);
    }
}

/// Where a probe has one result, a ray that can end on a surface cannot be
/// given up.
pub proof fn lemma_hit_excludes_miss<P>(probed: spec_fn(P, Probe<P>) -> bool, start: P, at: P)
    requires
        single_valued(probed),
        hits(probed, start, at),
    ensures
        !misses(probed, start),
{
    if misses(probed, start) {
        let one = choose|path: Seq<P>|
            #![trigger is_path(probed, path)]
            is_path(probed, path) && path[0] == start && path.last() == at;
        let two = choose|path: Seq<P>|
            #![trigger is_path(probed, path)]
            is_path(probed, path) && path[0] == start && gives_up(
                probed,
                path.last(),
                path.len(),
            );
        let (next, spent) = choose|next: P, spent: bool|
            #![trigger probed(two.last(), Probe::Advance { next, spent })]
            probed(two.last(), Probe::Advance { next, spent }) && (spent || two.len()
                == MAX_STEPS);
        if one.len() < two.len() {
            lemma_paths_agree(probed, one, two, one.len() - 1);
            assert(advances(probed, two[one.len() - 1], two[one.len() - 1 + 1]));
        } else if one.len() == two.len() {
            lemma_paths_agree(probed, one, two, one.len() - 1);
        } else {
            lemma_paths_agree(probed, one, two, two.len() - 1);
            assert(advances(probed, one[two.len() - 1], one[two.len() - 1 + 1]));
        }
    }
}

/// Where a probe has one result and a point one brightness, a ray has one
/// brightness.
pub proof fn lemma_ray_level_is_unique<P>(
    probed: spec_fn(P, Probe<P>) -> bool,
    shaded: spec_fn(P, usize) -> bool,
    start: P,
    level: usize,
    other: usize,
)
    requires
        single_valued(probed),
        forall|at: P, a: usize, b: usize|
            #![trigger shaded(at, a), shaded(at, b)]
            shaded(at, a) && shaded(at, b) ==> a == b,
        ray_level(probed, shaded, start, level),
        ray_level(probed, shaded, start, other),
    ensures
        level == other,
{
    if exists|at: P| #![trigger hits(probed, start, at)] hits(probed, start, at) {
        let somewhere = choose|at: P| #![trigger hits(probed, start, at)] hits(probed, start, at);
        lemma_hit_excludes_miss(probed, start, somewhere);
        let one = choose|at: P|
            #![trigger hits(probed, start, at)]
            hits(probed, start, at) && shaded(at, level);
        let two = choose|at: P|
            #![trigger hits(probed, start, at)]
            hits(probed, start, at) && shaded(at, other);
        lemma_hit_is_unique(probed, start, one, two);
    }
}

} // verus!
