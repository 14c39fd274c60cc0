use vstd::prelude::*;

verus! {

/// A place where a ray meets an object of the scene.
///
/// `t` says how far along the ray the place lies, as a whole number that
/// orders as the distance does: of two intersections the one with the smaller
/// `t` is met first, zero is the ray's origin, and a negative `t` lies behind
/// it. `object` is the position of the object in the scene's list.
#[derive(Clone, Copy, Debug, PartialEq, Eq)]
pub struct Intersection {
    pub t: i64,
    pub object: usize,
}

impl Intersection {
    pub fn new(t: i64, object: usize) -> (i: Intersection)
        ensures
            i == (Intersection { t, object }),
    {
        Intersection { t, object }
    }
}

/// Whether the intersection at place `k` is the hit: it does not lie behind
/// the ray's origin, none in front of the origin is nearer, and of several at
/// the same distance it comes first.
pub open spec fn is_hit(intersections: Seq<Intersection>, k: int) -> bool {
    &&& 0 <= k < intersections.len()
    &&& intersections[k].t >= 0
    &&& forall|j: int|
        0 <= j < intersections.len() && intersections[j].t >= 0 ==> intersections[k].t
            <= intersections[j].t
    &&& forall|j: int| 0 <= j < k && intersections[j].t >= 0 ==> intersections[k].t < intersections[j].t
}

/// The hit among `intersections`: the nearest that does not lie behind the
/// ray's origin, if there is one.
pub fn find_hit(intersections: Vec<Intersection>) -> (hit: Option<Intersection>)
    ensures
        match hit {
            Some(h) => exists|k: int| is_hit(intersections@, k) && h == intersections@[k],
            None => forall|j: int| 0 <= j < intersections.len() ==> intersections@[j].t < 0,
        },
{
    let mut best: Option<Intersection> = None;
    let ghost mut at: int = 0;
    let mut i: usize = 0;
    while i < intersections.len()
        invariant
            i <= intersections.len(),
            match best {
                Some(h) => is_hit(intersections@.take(i as int), at) && h == intersections@[at],
                None => forall|j: int| 0 <= j < i ==> intersections@[j].t < 0,
            },
        decreases intersections.len() - i,
    {
        let candidate = intersections[i];
        let nearer = candidate.t >= 0 && match best {
            Some(h) => candidate.t < h.t,
            None => true,
        };
        proof {
            let seen = intersections@.take(i as int);
            let next = intersections@.take(i + 1);
            assert forall|j: int| 0 <= j < i implies seen[j] == next[j] by {}
            if nearer {
                at = i as int;
            }
        }
        if nearer {
            best = Some(candidate);
        }
        i = i + 1;
    }
    proof {
        assert(intersections@.take(i as int) =~= intersections@);
    }
    best
}

/// There is one hit at most.
pub proof fn lemma_hit_is_unique(intersections: Seq<Intersection>, k: int, m: int)
    requires
        is_hit(intersections, k),
        is_hit(intersections, m),
    ensures
        k == m,
{
}

/// There is a hit as soon as one intersection does not lie behind the ray's
/// origin.
pub proof fn lemma_hit_exists(intersections: Seq<Intersection>, j: int)
    requires
        0 <= j < intersections.len(),
        intersections[j].t >= 0,
    ensures
        exists|k: int| is_hit(intersections, k),
    decreases intersections.len(),
{
    let front = intersections.drop_last();
    let last = intersections.len() - 1;
    if exists|i: int| 0 <= i < last && intersections[i].t >= 0 {
        let i = choose|i: int| 0 <= i < last && intersections[i].t >= 0;
        assert(front[i] == intersections[i]);
        lemma_hit_exists(front, i);
        let k = choose|k: int| is_hit(front, k);
        assert forall|i: int| 0 <= i < front.len() implies front[i] == intersections[i] by {}
        if 0 <= intersections[last].t < front[k].t {
            assert(is_hit(intersections, last));
        } else {
            assert(is_hit(intersections, k));
        }
    } else {
        assert(is_hit(intersections, last));
    }
}

} // verus!
