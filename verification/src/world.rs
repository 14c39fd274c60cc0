use vstd::prelude::*;
use crate::intersection::{find_hit, is_hit, Intersection};

verus! {

/// Whether the intersections come nearest first.
pub open spec fn sorted_by_t(intersections: Seq<Intersection>) -> bool {
    forall|i: int, j: int|
        0 <= i <= j < intersections.len() ==> intersections[i].t <= intersections[j].t
}

/// The intersections at distance `t`, in the order in which they stand.
pub open spec fn at_t(intersections: Seq<Intersection>, t: i64) -> Seq<Intersection> {
    intersections.filter(|i: Intersection| i.t == t)
}

/// The distances at which a ray meets one object, each made an intersection
/// with that object.
pub open spec fn tagged(distances: Seq<i64>, object: usize) -> Seq<Intersection> {
    Seq::new(distances.len(), |k: int| Intersection { t: distances[k], object })
}

/// All intersections of a ray with the objects of a scene, object by object:
/// `distances[o]` holds the distances at which the ray meets object `o`.
pub open spec fn gathered(distances: Seq<Vec<i64>>) -> Seq<Intersection>
    decreases distances.len(),
{
    if distances.len() == 0 {
        Seq::empty()
    } else {
        gathered(distances.drop_last()) + tagged(
            distances.last()@,
            (distances.len() - 1) as usize,
        )
    }
}

/// No intersection at distance `t` stands in a sequence all of whose
/// distances differ from `t`.
proof fn lemma_at_t_none(intersections: Seq<Intersection>, t: i64)
    requires
        forall|j: int| 0 <= j < intersections.len() ==> intersections[j].t != t,
    ensures
        at_t(intersections, t) == Seq::<Intersection>::empty(),
    decreases intersections.len(),
{
    reveal(Seq::filter);
    if intersections.len() > 0 {
        lemma_at_t_none(intersections.drop_last(), t);
    }
}

/// Adding an intersection at the end adds it to those at its own distance,
/// and to no others.
proof fn lemma_at_t_push(intersections: Seq<Intersection>, x: Intersection, t: i64)
    ensures
        at_t(intersections.push(x), t) == if x.t == t {
            at_t(intersections, t).push(x)
        } else {
            at_t(intersections, t)
        },
{
    reveal(Seq::filter);
    assert(intersections.push(x).drop_last() =~= intersections);
}

/// Putting an intersection in front of those that are farther away adds it
/// behind those at its own distance.
proof fn lemma_at_t_insert(intersections: Seq<Intersection>, pos: int, x: Intersection, t: i64)
    requires
        0 <= pos <= intersections.len(),
        forall|j: int| pos <= j < intersections.len() ==> intersections[j].t > x.t,
    ensures
        at_t(intersections.insert(pos, x), t) == if x.t == t {
            at_t(intersections, t).push(x)
        } else {
            at_t(intersections, t)
        },
{
    let pred = |i: Intersection| i.t == t;
    let front = intersections.take(pos);
    let back = intersections.skip(pos);
    assert(intersections =~= front + back);
    assert(intersections.insert(pos, x) =~= front.push(x) + back);
    Seq::filter_distributes_over_add(front, back, pred);
    Seq::filter_distributes_over_add(front.push(x), back, pred);
    lemma_at_t_push(front, x, t);
    if x.t == t {
        lemma_at_t_none(back, t);
        assert(at_t(front, t) + at_t(back, t) =~= at_t(front, t));
        assert(at_t(front, t).push(x) + at_t(back, t) =~= at_t(front, t).push(x));
    }
}

/// Puts `x` into intersections that come nearest first, behind all that are
/// as near as it is.
fn insert_by_t(sorted: &mut Vec<Intersection>, x: Intersection)
    requires
        sorted_by_t(old(sorted)@),
    ensures
        sorted_by_t(final(sorted)@),
        final(sorted)@.len() == old(sorted)@.len() + 1,
        forall|t: i64| #[trigger]
            at_t(final(sorted)@, t) == at_t(old(sorted)@.push(x), t),
{
    let mut pos: usize = sorted.len();
    while pos > 0 && sorted[pos - 1].t > x.t
        invariant
            pos <= sorted.len(),
            *sorted == *old(sorted),
            forall|j: int| pos <= j < sorted.len() ==> sorted@[j].t > x.t,
        decreases pos,
    {
        pos = pos - 1;
    }
    proof {
        assert forall|t: i64| #[trigger]
            at_t(sorted@.insert(pos as int, x), t) == at_t(sorted@.push(x), t) by {
            lemma_at_t_insert(sorted@, pos as int, x, t);
            lemma_at_t_push(sorted@, x, t);
        }
    }
    sorted.insert(pos, x);
}

/// All intersections of a ray with the objects of a scene, nearest first:
/// `distances[o]` holds the distances at which the ray meets object `o`.
/// Intersections at the same distance stay in the order of their objects,
/// and within one object in the order given.
pub fn intersect(distances: &Vec<Vec<i64>>) -> (intersections: Vec<Intersection>)
    ensures
        sorted_by_t(intersections@),
        intersections@.len() == gathered(distances@).len(),
        forall|t: i64| #[trigger] at_t(intersections@, t) == at_t(gathered(distances@), t),
        forall|x: Intersection|
            intersections@.contains(x) <==> #[trigger] gathered(distances@).contains(x),
{
    let mut sorted: Vec<Intersection> = Vec::new();
    let mut object: usize = 0;
    while object < distances.len()
        invariant
            object <= distances.len(),
            sorted_by_t(sorted@),
            sorted@.len() == gathered(distances@.take(object as int)).len(),
            forall|t: i64| #[trigger]
                at_t(sorted@, t) == at_t(gathered(distances@.take(object as int)), t),
        decreases distances.len() - object,
    {
        let of_object = &distances[object];
        let ghost before = gathered(distances@.take(object as int));
        let ghost new = tagged(of_object@, object);
        let mut k: usize = 0;
        proof {
            assert(before + new.take(0) =~= before);
        }
        while k < of_object.len()
            invariant
                k <= of_object.len(),
                new == tagged(of_object@, object),
                sorted_by_t(sorted@),
                sorted@.len() == before.len() + k,
                forall|t: i64| #[trigger] at_t(sorted@, t) == at_t(before + new.take(k as int), t),
            decreases of_object.len() - k,
        {
            let x = Intersection::new(of_object[k], object);
            let ghost previous = sorted@;
            insert_by_t(&mut sorted, x);
            proof {
                assert(before + new.take(k + 1) =~= (before + new.take(k as int)).push(x));
                assert forall|t: i64| #[trigger]
                    at_t(sorted@, t) == at_t(before + new.take(k + 1), t) by {
                    lemma_at_t_push(previous, x, t);
                    lemma_at_t_push(before + new.take(k as int), x, t);
                    assert(at_t(previous, t) == at_t(before + new.take(k as int), t));
                    assert(at_t(sorted@, t) == at_t(previous.push(x), t));
                }
            }
            k = k + 1;
        }
        proof {
            let upto = distances@.take(object + 1);
            assert(upto.drop_last() =~= distances@.take(object as int));
            assert(upto.last() == distances@[object as int]);
            assert(new.take(k as int) =~= new);
            assert(gathered(upto) == before + new);
        }
        object = object + 1;
    }
    proof {
        assert(distances@.take(object as int) =~= distances@);
        let all = gathered(distances@);
        assert forall|t: i64| #[trigger] at_t(all, t) == at_t(sorted@, t) by {
            assert(at_t(sorted@, t) == at_t(all, t));
        }
        assert forall|x: Intersection| sorted@.contains(x) <==> #[trigger] all.contains(x) by {
            if sorted@.contains(x) {
                lemma_same_members(sorted@, all, x);
            }
            if all.contains(x) {
                lemma_same_members(all, sorted@, x);
            }
        }
    }
    sorted
}

/// Whether the ray meets object `object` at the `k`-th of its distances.
pub open spec fn meets(distances: Seq<Vec<i64>>, object: int, k: int) -> bool {
    0 <= object < distances.len() && 0 <= k < distances[object]@.len()
}

/// The gathered intersections are those of the single objects, and no others.
proof fn lemma_gathered_contains(distances: Seq<Vec<i64>>, x: Intersection)
    ensures
        gathered(distances).contains(x) <==> exists|object: int, k: int|
            #[trigger] meets(distances, object, k) && x == (Intersection {
                t: distances[object]@[k],
                object: object as usize,
            }),
    decreases distances.len(),
{
    if distances.len() == 0 {
        assert(!gathered(distances).contains(x));
    } else {
        let front = distances.drop_last();
        let last = (distances.len() - 1) as int;
        let new = tagged(distances.last()@, last as usize);
        lemma_gathered_contains(front, x);
        assert(gathered(distances) == gathered(front) + new);
        if gathered(distances).contains(x) {
            let i = choose|i: int| 0 <= i < gathered(distances).len() && gathered(distances)[i] == x;
            if i < gathered(front).len() {
                assert(gathered(front)[i] == x);
                assert(gathered(front).contains(x));
                let (object, k) = choose|object: int, k: int|
                    #[trigger] meets(front, object, k) && x == (Intersection {
                        t: front[object]@[k],
                        object: object as usize,
                    });
                assert(meets(distances, object, k));
            } else {
                let k = i - gathered(front).len();
                assert(new[k] == x);
                assert(meets(distances, last, k));
            }
        }
        if exists|object: int, k: int|
            #[trigger] meets(distances, object, k) && x == (Intersection {
                t: distances[object]@[k],
                object: object as usize,
            }) {
            let (object, k) = choose|object: int, k: int|
                #[trigger] meets(distances, object, k) && x == (Intersection {
                    t: distances[object]@[k],
                    object: object as usize,
                });
            if object == last {
                assert(new[k] == x);
                assert(gathered(distances)[gathered(front).len() + k] == x);
            } else {
                assert(meets(front, object, k));
                assert(gathered(front).contains(x));
                let i = choose|i: int| 0 <= i < gathered(front).len() && gathered(front)[i] == x;
                assert(gathered(distances)[i] == x);
            }
        }
    }
}

/// Two sequences that hold the same intersections at every distance hold the
/// same intersections.
pub proof fn lemma_same_members(a: Seq<Intersection>, b: Seq<Intersection>, x: Intersection)
    requires
        forall|t: i64| #[trigger] at_t(a, t) == at_t(b, t),
        a.contains(x),
    ensures
        b.contains(x),
{
    let pred = |i: Intersection| i.t == x.t;
    let i = choose|i: int| 0 <= i < a.len() && a[i] == x;
    a.lemma_filter_contains(pred, i);
    assert(at_t(a, x.t) == at_t(b, x.t));
    b.lemma_filter_contains_rev(pred, x);
}

/// Whether something stands between a point and the light: `distances[o]`
/// holds the distances at which the ray from the point towards the light
/// meets object `o`, and `light` is the distance of the light. The point is
/// in shadow where the hit of that ray is nearer than the light, that is
/// where the ray meets an object in front of the point and before the light.
pub fn is_shadowed(distances: &Vec<Vec<i64>>, light: i64) -> (shadowed: bool)
    ensures
        shadowed <==> exists|object: int, k: int|
            #[trigger] meets(distances@, object, k) && 0 <= distances@[object]@[k] < light,
{
    let intersections = intersect(distances);
    let ghost sorted = intersections@;
    let ghost all = gathered(distances@);
    let hit = find_hit(intersections);
    let shadowed = match hit {
        Some(h) => h.t < light,
        None => false,
    };
    proof {
        if shadowed {
            let h = hit->0;
            assert(sorted.contains(h));
            lemma_same_members(sorted, all, h);
            lemma_gathered_contains(distances@, h);
        }
        if exists|object: int, k: int|
            #[trigger] meets(distances@, object, k) && 0 <= distances@[object]@[k] < light {
            let (object, k) = choose|object: int, k: int|
                #[trigger] meets(distances@, object, k) && 0 <= distances@[object]@[k] < light;
            let x = Intersection { t: distances@[object]@[k], object: object as usize };
            lemma_gathered_contains(distances@, x);
            assert forall|t: i64| #[trigger] at_t(all, t) == at_t(sorted, t) by {
                assert(at_t(sorted, t) == at_t(all, t));
            }
            lemma_same_members(all, sorted, x);
            let i = choose|i: int| 0 <= i < sorted.len() && sorted[i] == x;
            assert(sorted[i].t >= 0);
        }
    }
    shadowed
}

/// The first intersection at its distance stands first among those at that
/// distance.
proof fn lemma_at_t_first(intersections: Seq<Intersection>, k: int)
    requires
        0 <= k < intersections.len(),
        forall|j: int| 0 <= j < k ==> intersections[j].t != intersections[k].t,
    ensures
        at_t(intersections, intersections[k].t).len() > 0,
        at_t(intersections, intersections[k].t)[0] == intersections[k],
    decreases intersections.len() - k,
{
    let t = intersections[k].t;
    let pred = |i: Intersection| i.t == t;
    let front = intersections.take(k);
    let back = intersections.skip(k + 1);
    assert(intersections =~= front.push(intersections[k]) + back);
    Seq::filter_distributes_over_add(front.push(intersections[k]), back, pred);
    lemma_at_t_push(front, intersections[k], t);
    lemma_at_t_none(front, t);
}

/// Among intersections that come nearest first, the hit is the first that
/// does not lie behind the ray's origin.
pub proof fn lemma_hit_of_sorted(intersections: Seq<Intersection>, k: int)
    requires
        sorted_by_t(intersections),
        0 <= k < intersections.len(),
    ensures
        is_hit(intersections, k) <==> intersections[k].t >= 0 && forall|j: int|
            0 <= j < k ==> intersections[j].t < 0,
{
    if is_hit(intersections, k) {
        assert forall|j: int| 0 <= j < k implies intersections[j].t < 0 by {
            if intersections[j].t >= 0 {
                assert(intersections[j].t <= intersections[k].t);
            }
        }
    }
}

/// Two sequences that hold the same intersections at every distance, in the
/// same order, have the same hit: to put intersections in order changes
/// nothing of what is hit.
pub proof fn lemma_hit_survives_sorting(
    before: Seq<Intersection>,
    after: Seq<Intersection>,
    k: int,
    m: int,
)
    requires
        forall|t: i64| #[trigger] at_t(before, t) == at_t(after, t),
        is_hit(before, k),
        is_hit(after, m),
    ensures
        before[k] == after[m],
{
    assert(before.contains(before[k]));
    lemma_same_members(before, after, before[k]);
    let i = choose|i: int| 0 <= i < after.len() && after[i] == before[k];
    assert(after[m].t <= after[i].t);
    assert forall|t: i64| #[trigger] at_t(after, t) == at_t(before, t) by {
        assert(at_t(before, t) == at_t(after, t));
    }
    assert(after.contains(after[m]));
    lemma_same_members(after, before, after[m]);
    let j = choose|j: int| 0 <= j < before.len() && before[j] == after[m];
    assert(before[k].t <= before[j].t);
    lemma_at_t_first(before, k);
    lemma_at_t_first(after, m);
    assert(at_t(before, before[k].t) == at_t(after, before[k].t));
}

} // verus!
