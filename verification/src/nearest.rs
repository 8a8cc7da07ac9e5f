//! Choosing the nearest of several hits.
//!
//! A hit is known by an ordered key: a smaller key is a nearer hit. For
//! positive finite single-precision distances the bit pattern, read as an
//! unsigned number, is such a key, and two distances are equal exactly when
//! their keys are.

use vstd::prelude::*;

verus! {

/// A shape that a ray meets, and how near.
#[derive(Clone, Copy, Debug, PartialEq, Eq, Structural)]
pub struct Hit {
    /// Position of the shape in the scene.
    pub shape: usize,
    /// Ordered key of the distance to it.
    pub key: u32,
}

/// No shape is met.
pub open spec fn no_hit(keys: Seq<Option<u32>>) -> bool {
    forall|i: int| 0 <= i < keys.len() ==> keys[i] is None
}

/// Shape `k` is met, no shape is nearer, and every shape before it is
/// strictly farther: among equally near shapes the first one wins.
pub open spec fn is_nearest(keys: Seq<Option<u32>>, k: int) -> bool {
    &&& 0 <= k < keys.len()
    &&& keys[k] is Some
    &&& forall|i: int| 0 <= i < keys.len() && keys[i] is Some ==> keys[k].unwrap() <= keys[i].unwrap()
    &&& forall|i: int| 0 <= i < k && keys[i] is Some ==> keys[k].unwrap() < keys[i].unwrap()
}

/// `best` is the answer for a scene whose shapes are met as `keys` says:
/// nothing where no shape is met, else the nearest shape with its key.
pub open spec fn picks(keys: Seq<Option<u32>>, best: Option<Hit>) -> bool {
    match best {
        None => no_hit(keys),
        Some(hit) => is_nearest(keys, hit.shape as int) && keys[hit.shape as int] == Some(hit.key),
    }
}

/// The better of the hit held so far and a later shape: the later one only
/// where it is met and strictly nearer.
pub open spec fn better(best: Option<Hit>, shape: usize, key: Option<u32>) -> Option<Hit> {
    match (best, key) {
        (_, None) => best,
        (None, Some(k)) => Some(Hit { shape, key: k }),
        (Some(hit), Some(k)) => if k < hit.key {
            Some(Hit { shape, key: k })
        } else {
            best
        },
    }
}

/// The answer for a scene, found shape by shape from the first to the last.
pub open spec fn nearest_of(keys: Seq<Option<u32>>) -> Option<Hit>
    decreases keys.len(),
{
    if keys.len() == 0 {
        None
    } else {
        better(nearest_of(keys.drop_last()), (keys.len() - 1) as usize, keys.last())
    }
}

/// Going through the shapes one by one finds the right answer.
pub proof fn lemma_nearest_of_picks(keys: Seq<Option<u32>>)
    requires
        keys.len() <= usize::MAX,
    ensures
        picks(keys, nearest_of(keys)),
    decreases keys.len(),
{
    if keys.len() > 0 {
        lemma_nearest_of_picks(keys.drop_last());
        lemma_better_picks(keys.drop_last(), nearest_of(keys.drop_last()), keys.last());
        assert(keys.drop_last().push(keys.last()) =~= keys);
    }
}

/// At most one shape is the nearest.
pub proof fn lemma_nearest_unique(keys: Seq<Option<u32>>, j: int, k: int)
    requires
        is_nearest(keys, j),
        is_nearest(keys, k),
    ensures
        j == k,
{
}

/// A scene has exactly one answer.
pub proof fn lemma_picks_unique(keys: Seq<Option<u32>>, a: Option<Hit>, b: Option<Hit>)
    requires
        picks(keys, a),
        picks(keys, b),
    ensures
        a == b,
{
    if a is Some && b is Some {
        lemma_nearest_unique(keys, a.unwrap().shape as int, b.unwrap().shape as int);
    }
}

/// Taking one more shape into account keeps the answer right.
pub proof fn lemma_better_picks(keys: Seq<Option<u32>>, best: Option<Hit>, key: Option<u32>)
    requires
        picks(keys, best),
        keys.len() <= usize::MAX,
    ensures
        picks(keys.push(key), better(best, keys.len() as usize, key)),
{
    let longer = keys.push(key);
    assert forall|i: int| 0 <= i < keys.len() implies longer[i] == keys[i] by {}
    assert(longer[keys.len() as int] == key);
}

/// Weighs the hit held so far against shape number `shape`, met as `key`
/// says.
pub fn closer(best: Option<Hit>, shape: usize, key: Option<u32>) -> (r: Option<Hit>)
    ensures
        r == better(best, shape, key),
{
    match key {
        None => best,
        Some(k) => match best {
            None => Some(Hit { shape, key: k }),
            Some(hit) => if k < hit.key {
                Some(Hit { shape, key: k })
            } else {
                best
            },
        },
    }
}

/// The nearest of the shapes that are met, the first of them where several
/// are equally near; `None` where none is met.
pub fn nearest_hit(keys: &[Option<u32>]) -> (best: Option<Hit>)
    ensures
        picks(keys@, best),
        best is None <==> no_hit(keys@),
{
    let mut best: Option<Hit> = None;
    let mut i: usize = 0;
    while i < keys.len()
        invariant
            i <= keys@.len(),
            picks(keys@.take(i as int), best),
        decreases keys@.len() - i,
    {
        proof {
            lemma_better_picks(keys@.take(i as int), best, keys@[i as int]);
            assert(keys@.take(i as int).push(keys@[i as int]) =~= keys@.take(i as int + 1));
        }
        best = closer(best, i, keys[i]);
        i += 1;
    }
    assert(keys@.take(i as int) =~= keys@);
    best
}

} // verus!
