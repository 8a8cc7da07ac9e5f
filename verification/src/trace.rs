//! The bounce loop of one ray.
//!
//! The loop knows nothing of vectors. The state that travels along a ray
//! (where it is, where it heads, what light it has gathered) is a type `R`
//! of the caller, and the two steps that need arithmetic are closures:
//! `intersect` says how near a ray meets a shape, `bounce` carries a ray
//! through a hit. What the loop owns is the order of events: which shape is
//! hit, when the ray stops, and how many bounces it may take.

use vstd::prelude::*;
use crate::nearest::{
    closer, lemma_better_picks, lemma_nearest_of_picks, lemma_picks_unique, nearest_of, picks, Hit,
};

verus! {

/// What a hit leaves of a ray.
#[derive(Debug, PartialEq, Eq)]
pub enum Bounce<R> {
    /// The shape reflects: the ray goes on from the hit point.
    Reflected(R),
    /// The shape refuses to reflect: the ray ends with what it has gathered.
    Absorbed(R),
}

/// `keys` is what `intersect` can answer for `ray`, shape by shape.
pub open spec fn met<R, I: Fn(&R, usize) -> Option<u32>>(
    intersect: I,
    ray: R,
    shapes: nat,
    keys: Seq<Option<u32>>,
) -> bool {
    &&& keys.len() == shapes
    &&& forall|i: int|
        0 <= i < keys.len() ==> call_ensures(intersect, (&ray, i as usize), #[trigger] keys[i])
}

/// `best` is a possible result of scanning the scene with `ray`: the
/// nearest shape under some answers of `intersect`.
pub open spec fn scanned<R, I: Fn(&R, usize) -> Option<u32>>(
    intersect: I,
    ray: R,
    shapes: nat,
    best: Option<Hit>,
) -> bool {
    exists|keys: Seq<Option<u32>>| #[trigger] met(intersect, ray, shapes, keys) && picks(keys, best)
}

/// One bounce of `ray` can end as `next` says: `None` where the ray meets
/// no shape, else what `bounce` makes of the nearest hit.
pub open spec fn bounced<R, I: Fn(&R, usize) -> Option<u32>, B: Fn(R, Hit) -> Bounce<R>>(
    intersect: I,
    bounce: B,
    shapes: nat,
    ray: R,
    next: Option<Bounce<R>>,
) -> bool {
    exists|best: Option<Hit>| #[trigger]
        scanned(intersect, ray, shapes, best) && match best {
            None => next is None,
            Some(hit) => next is Some && call_ensures(bounce, (ray, hit), next.unwrap()),
        }
}

/// `ray` is what `start` can have become after being reflected `bounces`
/// times.
pub open spec fn reflected<R, I: Fn(&R, usize) -> Option<u32>, B: Fn(R, Hit) -> Bounce<R>>(
    intersect: I,
    bounce: B,
    shapes: nat,
    start: R,
    bounces: nat,
    ray: R,
) -> bool
    decreases bounces,
{
    if bounces == 0 {
        ray == start
    } else {
        exists|before: R|
            reflected(intersect, bounce, shapes, start, (bounces - 1) as nat, before)
                && #[trigger] bounced(intersect, bounce, shapes, before, Some(Bounce::Reflected(ray)))
    }
}

/// A ray that starts as `ray` and may take `budget` bounces can end as
/// `end`: it stops unchanged where the budget is spent or no shape is met,
/// stops where a shape absorbs it, and goes on where a shape reflects it.
pub open spec fn traced<R, I: Fn(&R, usize) -> Option<u32>, B: Fn(R, Hit) -> Bounce<R>>(
    intersect: I,
    bounce: B,
    shapes: nat,
    budget: nat,
    ray: R,
    end: R,
) -> bool
    decreases budget,
{
    if budget == 0 {
        end == ray
    } else {
        exists|next: Option<Bounce<R>>| #[trigger]
            bounced(intersect, bounce, shapes, ray, next) && match next {
                None => end == ray,
                Some(Bounce::Absorbed(last)) => end == last,
                Some(Bounce::Reflected(on)) => traced(
                    intersect,
                    bounce,
                    shapes,
                    (budget - 1) as nat,
                    on,
                    end,
                ),
            }
    }
}

/// Where a ray ends when both steps are functions: `key_of` says how near a
/// ray meets each shape, `step` what a hit leaves of it.
pub open spec fn end_of<R>(
    key_of: spec_fn(R, int) -> Option<u32>,
    step: spec_fn(R, Hit) -> Bounce<R>,
    shapes: nat,
    budget: nat,
    ray: R,
) -> R
    decreases budget,
{
    if budget == 0 {
        ray
    } else {
        match nearest_of(Seq::new(shapes, |i: int| key_of(ray, i))) {
            None => ray,
            Some(hit) => match step(ray, hit) {
                Bounce::Absorbed(last) => last,
                Bounce::Reflected(on) => end_of(key_of, step, shapes, (budget - 1) as nat, on),
            },
        }
    }
}

/// Asks `intersect` of every shape in turn and keeps the nearest hit, the
/// first of them where several are equally near.
pub fn scan<R, I: Fn(&R, usize) -> Option<u32>>(
    ray: &R,
    shapes: usize,
    intersect: &I,
) -> (best: Option<Hit>)
    requires
        forall|shape: usize| shape < shapes ==> call_requires(*intersect, (ray, shape)),
    ensures
        scanned(*intersect, *ray, shapes as nat, best),
        best matches Some(hit) ==> hit.shape < shapes,
{
    let mut best: Option<Hit> = None;
    let ghost mut keys: Seq<Option<u32>> = Seq::empty();
    let mut shape: usize = 0;
    while shape < shapes
        invariant
            shape <= shapes,
            forall|s: usize| s < shapes ==> call_requires(*intersect, (ray, s)),
            met(*intersect, *ray, shape as nat, keys),
            picks(keys, best),
        decreases shapes - shape,
    {
        let key: Option<u32> = intersect(ray, shape);
        proof {
            lemma_better_picks(keys, best, key);
            keys = keys.push(key);
        }
        best = closer(best, shape, key);
        shape += 1;
    }
    best
}

/// Follows one ray through the scene for at most `max_bounces` bounces and
/// hands back the state in which it stopped.
///
/// The closures need to accept only what the loop can hand them: rays that
/// `start` can become within the budget, and of those the hits that a scan
/// can find.
pub fn trace<R, I: Fn(&R, usize) -> Option<u32>, B: Fn(R, Hit) -> Bounce<R>>(
    start: R,
    shapes: usize,
    max_bounces: usize,
    intersect: I,
    bounce: B,
) -> (end: R)
    requires
        forall|ray: R, bounces: nat, shape: usize|
            bounces < max_bounces && #[trigger] reflected(
                intersect,
                bounce,
                shapes as nat,
                start,
                bounces,
                ray,
            ) && shape < shapes ==> #[trigger] call_requires(intersect, (&ray, shape)),
        forall|ray: R, bounces: nat, hit: Hit|
            bounces < max_bounces && #[trigger] reflected(
                intersect,
                bounce,
                shapes as nat,
                start,
                bounces,
                ray,
            ) && scanned(intersect, ray, shapes as nat, Some(hit)) ==> #[trigger] call_requires(
                bounce,
                (ray, hit),
            ),
    ensures
        traced(intersect, bounce, shapes as nat, max_bounces as nat, start, end),
{
    let mut ray: R = start;
    let mut left: usize = max_bounces;
    while left > 0
        invariant
            left <= max_bounces,
            forall|ray: R, bounces: nat, shape: usize|
                bounces < max_bounces && #[trigger] reflected(
                    intersect,
                    bounce,
                    shapes as nat,
                    start,
                    bounces,
                    ray,
                ) && shape < shapes ==> #[trigger] call_requires(intersect, (&ray, shape)),
            forall|ray: R, bounces: nat, hit: Hit|
                bounces < max_bounces && #[trigger] reflected(
                    intersect,
                    bounce,
                    shapes as nat,
                    start,
                    bounces,
                    ray,
                ) && scanned(intersect, ray, shapes as nat, Some(hit)) ==> #[trigger] call_requires(
                    bounce,
                    (ray, hit),
                ),
            reflected(
                intersect,
                bounce,
                shapes as nat,
                start,
                (max_bounces - left) as nat,
                ray,
            ),
            forall|end: R| #[trigger]
                traced(intersect, bounce, shapes as nat, left as nat, ray, end) ==> traced(
                    intersect,
                    bounce,
                    shapes as nat,
                    max_bounces as nat,
                    start,
                    end,
                ),
        decreases left,
    {
        let ghost here = ray;
        let best: Option<Hit> = scan(&ray, shapes, &intersect);
        match best {
            None => {
                proof {
                    assert(bounced(intersect, bounce, shapes as nat, here, None::<Bounce<R>>));
                    assert(traced(intersect, bounce, shapes as nat, left as nat, here, here));
                }
                return ray;
            },
            Some(hit) => {
                let next: Bounce<R> = bounce(ray, hit);
                proof {
                    assert(bounced(intersect, bounce, shapes as nat, here, Some(next)));
                }
                match next {
                    Bounce::Absorbed(last) => {
                        proof {
                            assert(traced(intersect, bounce, shapes as nat, left as nat, here, last));
                        }
                        return last;
                    },
                    Bounce::Reflected(on) => {
                        ray = on;
                        left -= 1;
                        proof {
                            lemma_reflected_once(
                                intersect,
                                bounce,
                                shapes as nat,
                                start,
                                (max_bounces - left - 1) as nat,
                                here,
                                ray,
                            );
                            assert forall|end: R| #[trigger]
                                traced(
                                    intersect,
                                    bounce,
                                    shapes as nat,
                                    left as nat,
                                    ray,
                                    end,
                                ) implies traced(
                                intersect,
                                bounce,
                                shapes as nat,
                                max_bounces as nat,
                                start,
                                end,
                            ) by {
                                assert(traced(
                                    intersect,
                                    bounce,
                                    shapes as nat,
                                    (left + 1) as nat,
                                    here,
                                    end,
                                ));
                            }
                        }
                    },
                }
            },
        }
    }
    assert(traced(intersect, bounce, shapes as nat, 0, ray, ray));
    ray
}

/// A ray that is reflected once more has been reflected one more time.
pub proof fn lemma_reflected_once<R, I: Fn(&R, usize) -> Option<u32>, B: Fn(R, Hit) -> Bounce<R>>(
    intersect: I,
    bounce: B,
    shapes: nat,
    start: R,
    bounces: nat,
    before: R,
    ray: R,
)
    requires
        reflected(intersect, bounce, shapes, start, bounces, before),
        bounced(intersect, bounce, shapes, before, Some(Bounce::Reflected(ray))),
    ensures
        reflected(intersect, bounce, shapes, start, bounces + 1, ray),
{
}

/// Where `intersect` can only answer as `key_of` says and `bounce` only as
/// `step` says, a traced ray ends where `end_of` says.
pub proof fn lemma_traced_end<R, I: Fn(&R, usize) -> Option<u32>, B: Fn(R, Hit) -> Bounce<R>>(
    intersect: I,
    bounce: B,
    key_of: spec_fn(R, int) -> Option<u32>,
    step: spec_fn(R, Hit) -> Bounce<R>,
    shapes: usize,
    budget: nat,
    ray: R,
    end: R,
)
    requires
        traced(intersect, bounce, shapes as nat, budget, ray, end),
        forall|at: R, shape: usize, key: Option<u32>|
            shape < shapes && call_ensures(intersect, (&at, shape), key) ==> key == key_of(
                at,
                shape as int,
            ),
        forall|at: R, hit: Hit, next: Bounce<R>|
            hit.shape < shapes && call_ensures(bounce, (at, hit), next) ==> next == step(at, hit),
    ensures
        end == end_of(key_of, step, shapes as nat, budget, ray),
    decreases budget,
{
    if budget > 0 {
        let next = choose|next: Option<Bounce<R>>| #[trigger]
            bounced(intersect, bounce, shapes as nat, ray, next) && match next {
                None => end == ray,
                Some(Bounce::Absorbed(last)) => end == last,
                Some(Bounce::Reflected(on)) => traced(
                    intersect,
                    bounce,
                    shapes as nat,
                    (budget - 1) as nat,
                    on,
                    end,
                ),
            };
        let best = choose|best: Option<Hit>| #[trigger]
            scanned(intersect, ray, shapes as nat, best) && match best {
                None => next is None,
                Some(hit) => next is Some && call_ensures(bounce, (ray, hit), next.unwrap()),
            };
        let keys = choose|keys: Seq<Option<u32>>| #[trigger]
            met(intersect, ray, shapes as nat, keys) && picks(keys, best);
        let model = Seq::new(shapes as nat, |i: int| key_of(ray, i));
        assert forall|i: int| 0 <= i < shapes implies keys[i] == model[i] by {
            assert(call_ensures(intersect, (&ray, i as usize), keys[i]));
        }
        assert(keys =~= model);
        lemma_nearest_of_picks(model);
        lemma_picks_unique(model, best, nearest_of(model));
        match next {
            Some(Bounce::Reflected(on)) => {
                lemma_traced_end(
                    intersect,
                    bounce,
                    key_of,
                    step,
                    shapes,
                    (budget - 1) as nat,
                    on,
                    end,
                );
            },
            _ => {},
        }
    }
}

/// A ray that can meet no shape ends as it started, whatever its budget.
pub proof fn lemma_miss_ends<R, I: Fn(&R, usize) -> Option<u32>, B: Fn(R, Hit) -> Bounce<R>>(
    intersect: I,
    bounce: B,
    shapes: nat,
    budget: nat,
    ray: R,
    end: R,
)
    requires
        traced(intersect, bounce, shapes, budget, ray, end),
        forall|shape: usize, key: Option<u32>|
            shape < shapes && call_ensures(intersect, (&ray, shape), key) ==> key is None,
    ensures
        end == ray,
{
    if budget > 0 {
        let next = choose|next: Option<Bounce<R>>| #[trigger]
            bounced(intersect, bounce, shapes, ray, next) && match next {
                None => end == ray,
                Some(Bounce::Absorbed(last)) => end == last,
                Some(Bounce::Reflected(on)) => traced(
                    intersect,
                    bounce,
                    shapes,
                    (budget - 1) as nat,
                    on,
                    end,
                ),
            };
        let best = choose|best: Option<Hit>| #[trigger]
            scanned(intersect, ray, shapes, best) && match best {
                None => next is None,
                Some(hit) => next is Some && call_ensures(bounce, (ray, hit), next.unwrap()),
            };
        let keys = choose|keys: Seq<Option<u32>>| #[trigger]
            met(intersect, ray, shapes, keys) && picks(keys, best);
        if best is Some {
            let k = best.unwrap().shape;
            assert(call_ensures(intersect, (&ray, k), keys[k as int]));
        }
    }
}

/// In a scene without shapes every ray ends as it started.
pub proof fn lemma_empty_scene<R, I: Fn(&R, usize) -> Option<u32>, B: Fn(R, Hit) -> Bounce<R>>(
    intersect: I,
    bounce: B,
    budget: nat,
    ray: R,
    end: R,
)
    requires
        traced(intersect, bounce, 0, budget, ray, end),
    ensures
        end == ray,
{
    lemma_miss_ends(intersect, bounce, 0, budget, ray, end);
}

/// Where `intersect` has one answer for each ray and shape, a scan has one
/// result.
pub proof fn lemma_scanned_unique<R, I: Fn(&R, usize) -> Option<u32>>(
    intersect: I,
    ray: R,
    shapes: nat,
    a: Option<Hit>,
    b: Option<Hit>,
)
    requires
        scanned(intersect, ray, shapes, a),
        scanned(intersect, ray, shapes, b),
        forall|shape: usize, j: Option<u32>, k: Option<u32>|
            shape < shapes && call_ensures(intersect, (&ray, shape), j) && call_ensures(
                intersect,
                (&ray, shape),
                k,
            ) ==> j == k,
    ensures
        a == b,
{
    let ja = choose|keys: Seq<Option<u32>>| #[trigger]
        met(intersect, ray, shapes, keys) && picks(keys, a);
    let jb = choose|keys: Seq<Option<u32>>| #[trigger]
        met(intersect, ray, shapes, keys) && picks(keys, b);
    assert forall|i: int| 0 <= i < shapes implies ja[i] == jb[i] by {
        assert(call_ensures(intersect, (&ray, i as usize), ja[i]));
        assert(call_ensures(intersect, (&ray, i as usize), jb[i]));
    }
    assert(ja =~= jb);
    lemma_picks_unique(ja, a, b);
}

/// Tracing is repeatable: where `intersect` and `bounce` have one answer
/// for each input, a ray has one end.
pub proof fn lemma_traced_unique<R, I: Fn(&R, usize) -> Option<u32>, B: Fn(R, Hit) -> Bounce<R>>(
    intersect: I,
    bounce: B,
    shapes: nat,
    budget: nat,
    ray: R,
    a: R,
    b: R,
)
    requires
        traced(intersect, bounce, shapes, budget, ray, a),
        traced(intersect, bounce, shapes, budget, ray, b),
        forall|at: R, shape: usize, j: Option<u32>, k: Option<u32>|
            shape < shapes && call_ensures(intersect, (&at, shape), j) && call_ensures(
                intersect,
                (&at, shape),
                k,
            ) ==> j == k,
        forall|at: R, hit: Hit, m: Bounce<R>, n: Bounce<R>|
            call_ensures(bounce, (at, hit), m) && call_ensures(bounce, (at, hit), n) ==> m == n,
    ensures
        a == b,
    decreases budget,
{
    if budget > 0 {
        let na = choose|next: Option<Bounce<R>>| #[trigger]
            bounced(intersect, bounce, shapes, ray, next) && match next {
                None => a == ray,
                Some(Bounce::Absorbed(last)) => a == last,
                Some(Bounce::Reflected(on)) => traced(
                    intersect,
                    bounce,
                    shapes,
                    (budget - 1) as nat,
                    on,
                    a,
                ),
            };
        let nb = choose|next: Option<Bounce<R>>| #[trigger]
            bounced(intersect, bounce, shapes, ray, next) && match next {
                None => b == ray,
                Some(Bounce::Absorbed(last)) => b == last,
                Some(Bounce::Reflected(on)) => traced(
                    intersect,
                    bounce,
                    shapes,
                    (budget - 1) as nat,
                    on,
                    b,
                ),
            };
        let ha = choose|best: Option<Hit>| #[trigger]
            scanned(intersect, ray, shapes, best) && match best {
                None => na is None,
                Some(hit) => na is Some && call_ensures(bounce, (ray, hit), na.unwrap()),
            };
        let hb = choose|best: Option<Hit>| #[trigger]
            scanned(intersect, ray, shapes, best) && match best {
                None => nb is None,
                Some(hit) => nb is Some && call_ensures(bounce, (ray, hit), nb.unwrap()),
            };
        lemma_scanned_unique(intersect, ray, shapes, ha, hb);
        assert(na == nb);
        match na {
            Some(Bounce::Reflected(on)) => {
                lemma_traced_unique(intersect, bounce, shapes, (budget - 1) as nat, on, a, b);
            },
            _ => {},
        }
    }
}

} // verus!
