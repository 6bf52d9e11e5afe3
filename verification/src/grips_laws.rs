use vstd::prelude::*;
use crate::bucket::CircleKey;
use crate::geom::{Circle, RotCircle};
use crate::grips::{
    aligned, answers, expands_to, follows, grip_parts, lemma_resolve_wf, lemma_sweep, rotated_by, sees, set_parts,
    sighted, spot, sweep, turns, Found, GripState, Member,
};
use crate::orbit_laws::held_by_none;
use crate::puzzle::Grip;

verus! {

/// Two grip sets have the same key exactly when they have the same number of
/// members and the centres of their members fall into the same buckets, index
/// by index.
pub proof fn lemma_set_parts_tell_centres<P, R>(a: Seq<Member<P, R>>, b: Seq<Member<P, R>>)
    ensures
        set_parts(a) == set_parts(b) <==> a.len() == b.len() && forall|k: int|
            0 <= k < a.len() ==> (#[trigger] a[k]).key.centre == b[k].key.centre,
{
    if set_parts(a) == set_parts(b) {
        assert(set_parts(a).len() == set_parts(b).len());
        assert forall|k: int| 0 <= k < a.len() implies (#[trigger] a[k]).key.centre == b[k].key.centre by {
            assert(set_parts(a)[2 * k] == set_parts(b)[2 * k]);
            assert(set_parts(a)[2 * k + 1] == set_parts(b)[2 * k + 1]);
            assert((2 * k) / 2 == k && (2 * k) % 2 == 0);
            assert((2 * k + 1) / 2 == k && (2 * k + 1) % 2 == 1);
        }
    }
    if a.len() == b.len() && forall|k: int| 0 <= k < a.len() ==> (#[trigger] a[k]).key.centre == b[k].key.centre {
        assert forall|i: int| 0 <= i < set_parts(a).len() implies set_parts(a)[i] == set_parts(b)[i] by {
            assert(a[i / 2].key.centre == b[i / 2].key.centre);
        }
        assert(set_parts(a) =~= set_parts(b));
    }
}

/// Two members have the same key as grips exactly when they fall into the
/// same bucket and have the same order.
pub proof fn lemma_grip_parts_tell_circles<P, R>(a: Member<P, R>, b: Member<P, R>)
    ensures
        grip_parts(a) == grip_parts(b) <==> a.key == b.key && a.circle.step == b.circle.step,
{
    if grip_parts(a) == grip_parts(b) {
        assert(grip_parts(a)[0] == grip_parts(b)[0]);
        assert(grip_parts(a)[1] == grip_parts(b)[1]);
        assert(grip_parts(a)[2] == grip_parts(b)[2]);
        assert(grip_parts(a)[3] == grip_parts(b)[3]);
    }
}

/// Whether every answer in `arrivals` is one that a search over the
/// generators `base` can take.
pub open spec fn all_fit<P, R>(base: Seq<Member<P, R>>, arrivals: Seq<Option<Seq<Member<P, R>>>>) -> bool {
    forall|i: int|
        0 <= i < arrivals.len() ==> ((#[trigger] arrivals[i]) matches Some(set) ==> aligned(base, set))
}

/// Whatever the answers, as long as they fit, a search stays well formed.  In
/// particular no two of its grip sets share a key and no grip key is seen
/// twice; every grip set has the generators of the search, index by index;
/// and every grip carries the index of a generator.
pub proof fn lemma_run_wf<P, R>(state: GripState<P, R>, arrivals: Seq<Option<Seq<Member<P, R>>>>)
    requires
        state.wf(),
        all_fit(state.sets[0], arrivals),
    ensures
        state.run(arrivals).wf(),
        state.run(arrivals).sets[0] == state.sets[0],
        state.run(arrivals).budget == state.budget,
        state.sets.is_prefix_of(state.run(arrivals).sets),
        state.found.grips.is_prefix_of(state.run(arrivals).found.grips),
        state.found.seen.is_prefix_of(state.run(arrivals).found.seen),
    decreases arrivals.len(),
{
    if arrivals.len() > 0 {
        let before = state.run(arrivals.drop_last());
        assert forall|i: int| 0 <= i < arrivals.drop_last().len() implies ((
        #[trigger] arrivals.drop_last()[i]) matches Some(set) ==> aligned(state.sets[0], set)) by {
            assert(arrivals.drop_last()[i] == arrivals[i]);
        }
        lemma_run_wf(state, arrivals.drop_last());
        assert(arrivals.last() == arrivals[arrivals.len() - 1]);
        lemma_resolve_wf(before, arrivals.last());
        if before.active() && before.brings_new(arrivals.last()) {
            let set = arrivals.last()->Some_0;
            lemma_sweep(before.found, set, set.len(), false, before.generators());
        }
    }
}

/// The start of a search is well formed.
pub proof fn lemma_start_wf<P, R>(base: Seq<Member<P, R>>, budget: nat)
    requires
        base.len() <= usize::MAX,
        budget <= usize::MAX,
    ensures
        GripState::start(base, budget).wf(),
{
    let start = GripState::start(base, budget);
    let none = Found::<P> { seen: Seq::empty(), grips: Seq::empty() };
    lemma_sweep(none, base, base.len(), true, base.len());
    assert(start.set_keys() =~= seq![set_parts(base)]);
    assert(aligned(base, base));
}

/// A grip set that was offered while a question was open is seen from then
/// on: a set under the same key, offered at once or after any further answers,
/// does not join the search.
pub proof fn lemma_same_set_once<P, R>(
    state: GripState<P, R>,
    first: Seq<Member<P, R>>,
    again: Seq<Member<P, R>>,
    between: Seq<Option<Seq<Member<P, R>>>>,
)
    requires
        state.wf(),
        state.active(),
        aligned(state.sets[0], first),
        all_fit(state.sets[0], between),
        set_parts(first) == set_parts(again),
    ensures
        !state.resolve(Some(first)).run(between).brings_new(Some(again)),
{
    let offered = state.resolve(Some(first));
    lemma_resolve_wf(state, Some(first));
    let i = if state.set_keys().contains(set_parts(first)) {
        choose|i: int| 0 <= i < state.set_keys().len() && state.set_keys()[i] == set_parts(first)
    } else {
        state.sets.len() as int
    };
    assert(offered.set_keys()[i] == set_parts(first));
    lemma_run_wf(offered, between);
    let later = offered.run(between);
    assert(later.sets[i] == offered.sets[i]);
    assert(later.set_keys()[i] == set_parts(again));
}

/// The answers of the numeric kernel fit the search they are given to: the
/// rotation of a member moves every generator of a set and changes nothing
/// else.
pub proof fn lemma_follows_fit<P, R, FC, FR, FK>(
    start: GripState<P, R>,
    seed: P,
    in_circle: FC,
    rotate: FR,
    bucket: FK,
    arrivals: Seq<Option<Seq<Member<P, R>>>>,
) where
    FC: Fn(&Circle<P, R>, &P) -> bool,
    FR: Fn(&RotCircle<P, R>, &P) -> P,
    FK: Fn(&RotCircle<P, R>) -> CircleKey,

    requires
        start.wf(),
        follows(start, seed, in_circle, rotate, bucket, arrivals),
    ensures
        all_fit(start.sets[0], arrivals),
        start.run(arrivals).wf(),
    decreases arrivals.len(),
{
    if arrivals.len() > 0 {
        let earlier = arrivals.drop_last();
        lemma_follows_fit(start, seed, in_circle, rotate, bucket, earlier);
        lemma_run_wf(start, earlier);
        let before = start.run(earlier);
        let set = before.sets[before.set as int];
        assert(aligned(start.sets[0], set));
        assert(before.fits(arrivals.last())) by {
            if arrivals.last() is Some {
                let new = arrivals.last()->Some_0;
                assert(rotated_by(set, before.member as int, seed, in_circle, rotate, bucket, new));
                assert forall|k: int| 0 <= k < start.sets[0].len() implies start.sets[0][k].circle.moved_to(
                    (#[trigger] new[k]).circle.circle.cen,
                    new[k].circle,
                ) by {
                    assert(set[k].circle.moved_to(new[k].circle.circle.cen, new[k].circle));
                }
            }
        }
        assert forall|i: int| 0 <= i < arrivals.len() implies ((#[trigger] arrivals[i]) matches Some(s)
            ==> aligned(start.sets[0], s)) by {
            if i < earlier.len() {
                assert(earlier[i] == arrivals[i]);
            }
        }
        lemma_resolve_wf(before, arrivals.last());
    }
}

/// Every expansion ends in a well-formed state: each of its grip sets has as
/// many members as there are generators, member `i` is the `i`-th generator
/// with nothing but its centre changed, and each grip carries the index of a
/// generator.
pub proof fn lemma_expansion_wf<P, R, FC, FR, FK>(
    seed: P,
    circles: Seq<RotCircle<P, R>>,
    depth: u32,
    in_circle: FC,
    rotate: FR,
    bucket: FK,
    base: Seq<Member<P, R>>,
    arrivals: Seq<Option<Seq<Member<P, R>>>>,
    end: GripState<P, R>,
) where
    FC: Fn(&Circle<P, R>, &P) -> bool,
    FR: Fn(&RotCircle<P, R>, &P) -> P,
    FK: Fn(&RotCircle<P, R>) -> CircleKey,

    requires
        circles.len() <= usize::MAX,
        expands_to(seed, circles, depth, in_circle, rotate, bucket, base, arrivals, end),
    ensures
        end.wf(),
        forall|i: int, k: int|
            0 <= i < end.sets.len() && 0 <= k < circles.len() ==> circles[k].moved_to(
                (#[trigger] end.sets[i][k]).circle.circle.cen,
                end.sets[i][k].circle,
            ),
        forall|g: int| 0 <= g < end.found.grips.len() ==> (#[trigger] end.found.grips[g]).id < circles.len(),
{
    let start = GripState::start(base, depth as nat);
    lemma_start_wf(base, depth as nat);
    lemma_follows_fit(start, seed, in_circle, rotate, bucket, arrivals);
    lemma_run_wf(start, arrivals);
    assert forall|i: int, k: int| 0 <= i < end.sets.len() && 0 <= k < circles.len() implies circles[k].moved_to(
        (#[trigger] end.sets[i][k]).circle.circle.cen,
        end.sets[i][k].circle,
    ) by {
        assert(aligned(base, end.sets[i]));
        assert(base[k].circle == circles[k]);
    }
}

proof fn lemma_sweep_none_inside<P, R>(found: Found<P>, set: Seq<Member<P, R>>, upto: nat, seeding: bool)
    requires
        upto <= set.len(),
        forall|k: int| 0 <= k < set.len() ==> !(#[trigger] set[k]).inside,
    ensures
        sweep(found, set, upto, seeding) == found,
    decreases upto,
{
    if upto > 0 {
        lemma_sweep_none_inside(found, set, (upto - 1) as nat, seeding);
    }
}

proof fn lemma_idle_prefix<P, R, FC, FR, FK>(
    circles: Seq<RotCircle<P, R>>,
    start: GripState<P, R>,
    seed: P,
    in_circle: FC,
    rotate: FR,
    bucket: FK,
    arrivals: Seq<Option<Seq<Member<P, R>>>>,
) where
    FC: Fn(&Circle<P, R>, &P) -> bool,
    FR: Fn(&RotCircle<P, R>, &P) -> P,
    FK: Fn(&RotCircle<P, R>) -> CircleKey,

    requires
        held_by_none(circles, seed, in_circle),
        start.sets.len() == 1,
        start.sets[0].len() == circles.len(),
        forall|k: int| 0 <= k < circles.len() ==> (#[trigger] start.sets[0][k]).circle == circles[k],
        start.set == 0,
        follows(start, seed, in_circle, rotate, bucket, arrivals),
    ensures
        start.run(arrivals).sets == start.sets,
        start.run(arrivals).found == start.found,
        start.run(arrivals).set <= 1,
    decreases arrivals.len(),
{
    if arrivals.len() > 0 {
        lemma_idle_prefix(circles, start, seed, in_circle, rotate, bucket, arrivals.drop_last());
        let before = start.run(arrivals.drop_last());
        assert(before.set == 0);
        assert(before.sets[0][before.member as int].circle == circles[before.member as int]);
    }
}

/// A seed that belongs to no generator has no grips, whatever the number of
/// generators and the budget: the expansion emits nothing and finds no grip
/// set but the generators themselves.
pub proof fn lemma_seed_held_by_none<P, R, FC, FR, FK>(
    seed: P,
    circles: Seq<RotCircle<P, R>>,
    depth: u32,
    in_circle: FC,
    rotate: FR,
    bucket: FK,
    base: Seq<Member<P, R>>,
    arrivals: Seq<Option<Seq<Member<P, R>>>>,
    end: GripState<P, R>,
) where
    FC: Fn(&Circle<P, R>, &P) -> bool,
    FR: Fn(&RotCircle<P, R>, &P) -> P,
    FK: Fn(&RotCircle<P, R>) -> CircleKey,

    requires
        held_by_none(circles, seed, in_circle),
        expands_to(seed, circles, depth, in_circle, rotate, bucket, base, arrivals, end),
    ensures
        end.found.grips.len() == 0,
        end.sets == seq![base],
{
    let start = GripState::start(base, depth as nat);
    assert forall|k: int| 0 <= k < base.len() implies !(#[trigger] base[k]).inside by {
        assert(sighted(circles, seed, in_circle, bucket, base));
    }
    let none = Found::<P> { seen: Seq::empty(), grips: Seq::empty() };
    lemma_sweep_none_inside(none, base, base.len(), true);
    lemma_idle_prefix(circles, start, seed, in_circle, rotate, bucket, arrivals);
}

/// Whether the numeric kernel answers each question in one way only.
pub open spec fn single_valued<P, R, FC, FR, FK>(in_circle: FC, rotate: FR, bucket: FK) -> bool where
    FC: Fn(&Circle<P, R>, &P) -> bool,
    FR: Fn(&RotCircle<P, R>, &P) -> P,
    FK: Fn(&RotCircle<P, R>) -> CircleKey,
 {
    &&& forall|c: &Circle<P, R>, p: &P, a: bool, b: bool|
        call_ensures(in_circle, (c, p), a) && call_ensures(in_circle, (c, p), b) ==> a == b
    &&& forall|g: &RotCircle<P, R>, p: &P, a: P, b: P|
        call_ensures(rotate, (g, p), a) && call_ensures(rotate, (g, p), b) ==> a == b
    &&& forall|g: &RotCircle<P, R>, a: CircleKey, b: CircleKey|
        call_ensures(bucket, (g,), a) && call_ensures(bucket, (g,), b) ==> a == b
}

/// A kernel that answers in one way only sees a generator in one way.
pub proof fn lemma_one_sight<P, R, FC, FR, FK>(
    circle: RotCircle<P, R>,
    seed: P,
    in_circle: FC,
    rotate: FR,
    bucket: FK,
    a: Member<P, R>,
    b: Member<P, R>,
) where
    FC: Fn(&Circle<P, R>, &P) -> bool,
    FR: Fn(&RotCircle<P, R>, &P) -> P,
    FK: Fn(&RotCircle<P, R>) -> CircleKey,

    requires
        single_valued(in_circle, rotate, bucket),
        sees(circle, seed, in_circle, bucket, a),
        sees(circle, seed, in_circle, bucket, b),
    ensures
        a == b,
{
}

/// A kernel that answers in one way only gives one answer to a question.
pub proof fn lemma_one_answer<P, R, FC, FR, FK>(
    set: Seq<Member<P, R>>,
    index: int,
    seed: P,
    in_circle: FC,
    rotate: FR,
    bucket: FK,
    a: Option<Seq<Member<P, R>>>,
    b: Option<Seq<Member<P, R>>>,
) where
    FC: Fn(&Circle<P, R>, &P) -> bool,
    FR: Fn(&RotCircle<P, R>, &P) -> P,
    FK: Fn(&RotCircle<P, R>) -> CircleKey,

    requires
        single_valued(in_circle, rotate, bucket),
        answers(set, index, seed, in_circle, rotate, bucket, a),
        answers(set, index, seed, in_circle, rotate, bucket, b),
    ensures
        a == b,
{
    if a is Some {
        let new_a = a->Some_0;
        let new_b = b->Some_0;
        assert(rotated_by(set, index, seed, in_circle, rotate, bucket, new_a));
        assert(rotated_by(set, index, seed, in_circle, rotate, bucket, new_b));
        assert forall|k: int| 0 <= k < set.len() implies new_a[k] == new_b[k] by {
            assert(turns(set[index].circle, set[k].circle, seed, in_circle, rotate, bucket, new_a[k]));
            assert(turns(set[index].circle, set[k].circle, seed, in_circle, rotate, bucket, new_b[k]));
            assert(new_a[k].circle.circle.cen == new_b[k].circle.circle.cen);
            assert(new_a[k].circle == new_b[k].circle);
            lemma_one_sight(new_a[k].circle, seed, in_circle, rotate, bucket, new_a[k], new_b[k]);
        }
        assert(new_a =~= new_b);
    }
}

/// The answers to the first questions of a search are answers to a search of
/// their own, and every one of them met an open question.
pub proof fn lemma_follows_prefix<P, R, FC, FR, FK>(
    start: GripState<P, R>,
    seed: P,
    in_circle: FC,
    rotate: FR,
    bucket: FK,
    arrivals: Seq<Option<Seq<Member<P, R>>>>,
    k: int,
) where
    FC: Fn(&Circle<P, R>, &P) -> bool,
    FR: Fn(&RotCircle<P, R>, &P) -> P,
    FK: Fn(&RotCircle<P, R>) -> CircleKey,

    requires
        follows(start, seed, in_circle, rotate, bucket, arrivals),
        0 <= k <= arrivals.len(),
    ensures
        follows(start, seed, in_circle, rotate, bucket, arrivals.take(k)),
        k < arrivals.len() ==> {
            let before = start.run(arrivals.take(k));
            &&& before.active()
            &&& answers(
                before.sets[before.set as int],
                before.member as int,
                seed,
                in_circle,
                rotate,
                bucket,
                arrivals[k],
            )
        },
    decreases arrivals.len(),
{
    if k == arrivals.len() {
        assert(arrivals.take(k) =~= arrivals);
    } else {
        assert(arrivals.drop_last().take(k) =~= arrivals.take(k));
        lemma_follows_prefix(start, seed, in_circle, rotate, bucket, arrivals.drop_last(), k);
        if k == arrivals.len() - 1 {
            assert(arrivals.take(k) =~= arrivals.drop_last());
        } else {
            assert(arrivals.drop_last()[k] == arrivals[k]);
        }
    }
}

proof fn lemma_same_prefix<P, R, FC, FR, FK>(
    start: GripState<P, R>,
    seed: P,
    in_circle: FC,
    rotate: FR,
    bucket: FK,
    a: Seq<Option<Seq<Member<P, R>>>>,
    b: Seq<Option<Seq<Member<P, R>>>>,
    k: int,
) where
    FC: Fn(&Circle<P, R>, &P) -> bool,
    FR: Fn(&RotCircle<P, R>, &P) -> P,
    FK: Fn(&RotCircle<P, R>) -> CircleKey,

    requires
        single_valued(in_circle, rotate, bucket),
        follows(start, seed, in_circle, rotate, bucket, a),
        follows(start, seed, in_circle, rotate, bucket, b),
        0 <= k <= a.len(),
        k <= b.len(),
    ensures
        a.take(k) == b.take(k),
    decreases k,
{
    if k == 0 {
        assert(a.take(0) =~= b.take(0));
    } else {
        lemma_same_prefix(start, seed, in_circle, rotate, bucket, a, b, k - 1);
        lemma_follows_prefix(start, seed, in_circle, rotate, bucket, a, k - 1);
        lemma_follows_prefix(start, seed, in_circle, rotate, bucket, b, k - 1);
        let before = start.run(a.take(k - 1));
        lemma_one_answer(
            before.sets[before.set as int],
            before.member as int,
            seed,
            in_circle,
            rotate,
            bucket,
            a[k - 1],
            b[k - 1],
        );
        assert(a.take(k) =~= a.take(k - 1).push(a[k - 1]));
        assert(b.take(k) =~= b.take(k - 1).push(b[k - 1]));
    }
}

/// With a numeric kernel that answers each question in one way only, a seed,
/// a list of generators and a budget have one expansion: the same grip sets
/// and the same grips, in the same order.
pub proof fn lemma_expansion_is_determined<P, R, FC, FR, FK>(
    seed: P,
    circles: Seq<RotCircle<P, R>>,
    depth: u32,
    in_circle: FC,
    rotate: FR,
    bucket: FK,
    base_a: Seq<Member<P, R>>,
    arrivals_a: Seq<Option<Seq<Member<P, R>>>>,
    end_a: GripState<P, R>,
    base_b: Seq<Member<P, R>>,
    arrivals_b: Seq<Option<Seq<Member<P, R>>>>,
    end_b: GripState<P, R>,
) where
    FC: Fn(&Circle<P, R>, &P) -> bool,
    FR: Fn(&RotCircle<P, R>, &P) -> P,
    FK: Fn(&RotCircle<P, R>) -> CircleKey,

    requires
        single_valued(in_circle, rotate, bucket),
        expands_to(seed, circles, depth, in_circle, rotate, bucket, base_a, arrivals_a, end_a),
        expands_to(seed, circles, depth, in_circle, rotate, bucket, base_b, arrivals_b, end_b),
    ensures
        end_a == end_b,
{
    assert forall|k: int| 0 <= k < circles.len() implies base_a[k] == base_b[k] by {
        lemma_one_sight(circles[k], seed, in_circle, rotate, bucket, base_a[k], base_b[k]);
    }
    assert(base_a =~= base_b);
    let start = GripState::start(base_a, depth as nat);
    let k = if arrivals_a.len() <= arrivals_b.len() {
        arrivals_a.len() as int
    } else {
        arrivals_b.len() as int
    };
    lemma_same_prefix(start, seed, in_circle, rotate, bucket, arrivals_a, arrivals_b, k);
    lemma_follows_prefix(start, seed, in_circle, rotate, bucket, arrivals_a, k);
    lemma_follows_prefix(start, seed, in_circle, rotate, bucket, arrivals_b, k);
    assert(arrivals_a.take(arrivals_a.len() as int) =~= arrivals_a);
    assert(arrivals_b.take(arrivals_b.len() as int) =~= arrivals_b);
}

/// Whether `grip` was emitted for its generator's image in set `i`: the image
/// holds the seed, and the grip lies at its centre.
pub open spec fn emitted_from<P, R>(sets: Seq<Seq<Member<P, R>>>, grip: Grip<P>, i: int) -> bool {
    &&& 0 <= i < sets.len()
    &&& grip.id < sets[i].len()
    &&& sets[i][grip.id as int].inside
    &&& sets[i][grip.id as int].circle.circle.cen == grip.pos
}

/// The key of the image that `grip` was emitted for.
pub open spec fn key_of<P, R>(sets: Seq<Seq<Member<P, R>>>, grip: Grip<P>, i: int) -> Seq<i64> {
    grip_parts(sets[i][grip.id as int])
}

/// Whether `grip` was emitted for an image in one of `sets`.
pub open spec fn held<P, R>(sets: Seq<Seq<Member<P, R>>>, grip: Grip<P>) -> bool {
    exists|i: int| #[trigger] emitted_from(sets, grip, i)
}

/// Whether one of `grips` was emitted for an image with the key `key`.
pub open spec fn has_grip<P, R>(sets: Seq<Seq<Member<P, R>>>, grips: Seq<Grip<P>>, key: Seq<i64>) -> bool {
    exists|g: int, i: int|
        0 <= g < grips.len() && emitted_from(sets, grips[g], i) && #[trigger] key_of(sets, grips[g], i) == key
}

/// Whether every grip was emitted for an image that holds the seed.
pub open spec fn grips_are_held<P, R>(sets: Seq<Seq<Member<P, R>>>, found: Found<P>) -> bool {
    forall|g: int| 0 <= g < found.grips.len() ==> held(sets, #[trigger] found.grips[g])
}

/// Whether every image that holds the seed was seen as a grip.
pub open spec fn holders_are_seen<P, R>(sets: Seq<Seq<Member<P, R>>>, found: Found<P>) -> bool {
    forall|i: int, k: int|
        0 <= i < sets.len() && 0 <= k < sets[i].len() && (#[trigger] sets[i][k]).inside
            ==> found.seen.contains(grip_parts(sets[i][k]))
}

/// Whether a grip was emitted under every key that was seen.
pub open spec fn seen_have_grips<P, R>(sets: Seq<Seq<Member<P, R>>>, found: Found<P>) -> bool {
    forall|q: int| 0 <= q < found.seen.len() ==> has_grip(sets, found.grips, #[trigger] found.seen[q])
}

proof fn lemma_more_sets_keep_grips<P, R>(earlier: Seq<Seq<Member<P, R>>>, set: Seq<Member<P, R>>, found: Found<P>)
    requires
        grips_are_held(earlier, found),
        seen_have_grips(earlier, found),
    ensures
        grips_are_held(earlier.push(set), found),
        seen_have_grips(earlier.push(set), found),
{
    let sets = earlier.push(set);
    assert forall|g: int| 0 <= g < found.grips.len() implies held(sets, #[trigger] found.grips[g]) by {
        assert(held(earlier, found.grips[g]));
        let i = choose|i: int| #[trigger] emitted_from(earlier, found.grips[g], i);
        assert(sets[i] == earlier[i]);
        assert(emitted_from(sets, found.grips[g], i));
    }
    assert forall|q: int| 0 <= q < found.seen.len() implies has_grip(sets, found.grips, #[trigger] found.seen[q]) by {
        assert(has_grip(earlier, found.grips, found.seen[q]));
        let (g, i) = choose|g: int, i: int|
            0 <= g < found.grips.len() && emitted_from(earlier, found.grips[g], i) && #[trigger] key_of(
                earlier,
                found.grips[g],
                i,
            ) == found.seen[q];
        assert(sets[i] == earlier[i]);
        assert(emitted_from(sets, found.grips[g], i));
        assert(key_of(sets, found.grips[g], i) == found.seen[q]);
    }
}

proof fn lemma_more_grips_keep_keys<P, R>(
    sets: Seq<Seq<Member<P, R>>>,
    grips: Seq<Grip<P>>,
    more: Seq<Grip<P>>,
    key: Seq<i64>,
)
    requires
        grips.is_prefix_of(more),
        has_grip(sets, grips, key),
    ensures
        has_grip(sets, more, key),
{
    let (g, i) = choose|g: int, i: int|
        0 <= g < grips.len() && emitted_from(sets, grips[g], i) && #[trigger] key_of(sets, grips[g], i) == key;
    assert(more[g] == grips[g]);
    assert(emitted_from(sets, more[g], i));
    assert(key_of(sets, more[g], i) == key);
}

proof fn lemma_spot_emits<P, R>(sets: Seq<Seq<Member<P, R>>>, at: int, found: Found<P>, k: nat, seeding: bool)
    requires
        0 <= at < sets.len(),
        k < sets[at].len() <= usize::MAX,
        grips_are_held(sets, found),
        seen_have_grips(sets, found),
    ensures
        grips_are_held(sets, spot(found, sets[at][k as int], k, seeding)),
        seen_have_grips(sets, spot(found, sets[at][k as int], k, seeding)),
{
    let member = sets[at][k as int];
    let parts = grip_parts(member);
    let after = spot(found, member, k, seeding);
    let grip = Grip { pos: member.circle.circle.cen, id: k as usize };
    if member.inside {
        assert(emitted_from(sets, grip, at));
        assert(key_of(sets, grip, at) == parts);
        assert forall|g: int| 0 <= g < after.grips.len() implies held(sets, #[trigger] after.grips[g]) by {
            if g < found.grips.len() {
                assert(held(sets, found.grips[g]));
            }
        }
        assert forall|q: int| 0 <= q < after.seen.len() implies has_grip(
            sets,
            after.grips,
            #[trigger] after.seen[q],
        ) by {
            if q < found.seen.len() {
                assert(after.seen[q] == found.seen[q]);
                lemma_more_grips_keep_keys(sets, found.grips, after.grips, found.seen[q]);
            } else {
                let g = found.grips.len() as int;
                assert(after.grips[g] == grip);
                assert(emitted_from(sets, after.grips[g], at));
                assert(key_of(sets, after.grips[g], at) == after.seen[q]);
            }
        }
    }
}

proof fn lemma_spot_sees<P, R>(found: Found<P>, member: Member<P, R>, k: nat, seeding: bool)
    ensures
        found.seen.is_prefix_of(spot(found, member, k, seeding).seen),
        member.inside ==> spot(found, member, k, seeding).seen.contains(grip_parts(member)),
{
    let after = spot(found, member, k, seeding);
    if member.inside {
        if found.seen.contains(grip_parts(member)) {
        } else {
            assert(after.seen[found.seen.len() as int] == grip_parts(member));
        }
    }
}

proof fn lemma_sweep_sees<P, R>(found: Found<P>, set: Seq<Member<P, R>>, upto: nat, seeding: bool)
    requires
        upto <= set.len(),
    ensures
        found.seen.is_prefix_of(sweep(found, set, upto, seeding).seen),
        forall|k: int|
            0 <= k < upto && (#[trigger] set[k]).inside ==> sweep(found, set, upto, seeding).seen.contains(
                grip_parts(set[k]),
            ),
    decreases upto,
{
    if upto > 0 {
        let before = sweep(found, set, (upto - 1) as nat, seeding);
        let after = sweep(found, set, upto, seeding);
        lemma_sweep_sees(found, set, (upto - 1) as nat, seeding);
        lemma_spot_sees(before, set[upto - 1], (upto - 1) as nat, seeding);
        assert forall|k: int| 0 <= k < upto && (#[trigger] set[k]).inside implies after.seen.contains(
            grip_parts(set[k]),
        ) by {
            if k < upto - 1 {
                let q = choose|q: int| 0 <= q < before.seen.len() && before.seen[q] == grip_parts(set[k]);
                assert(after.seen[q] == grip_parts(set[k]));
            }
        }
    }
}

proof fn lemma_sweep_emits<P, R>(sets: Seq<Seq<Member<P, R>>>, at: int, found: Found<P>, upto: nat, seeding: bool)
    requires
        0 <= at < sets.len(),
        upto <= sets[at].len() <= usize::MAX,
        grips_are_held(sets, found),
        seen_have_grips(sets, found),
    ensures
        grips_are_held(sets, sweep(found, sets[at], upto, seeding)),
        seen_have_grips(sets, sweep(found, sets[at], upto, seeding)),
    decreases upto,
{
    if upto > 0 {
        lemma_sweep_emits(sets, at, found, (upto - 1) as nat, seeding);
        lemma_spot_emits(sets, at, sweep(found, sets[at], (upto - 1) as nat, seeding), (upto - 1) as nat, seeding);
    }
}

proof fn lemma_seen_more_keeps_holders<P, R>(sets: Seq<Seq<Member<P, R>>>, found: Found<P>, more: Found<P>)
    requires
        holders_are_seen(sets, found),
        found.seen.is_prefix_of(more.seen),
    ensures
        holders_are_seen(sets, more),
{
    assert forall|i: int, k: int|
        0 <= i < sets.len() && 0 <= k < sets[i].len() && (#[trigger] sets[i][k]).inside implies more.seen.contains(
        grip_parts(sets[i][k]),
    ) by {
        let q = choose|q: int| 0 <= q < found.seen.len() && found.seen[q] == grip_parts(sets[i][k]);
        assert(more.seen[q] == grip_parts(sets[i][k]));
    }
}

/// Taking in a set keeps the grips the images that hold the seed.
proof fn lemma_set_emits<P, R>(
    earlier: Seq<Seq<Member<P, R>>>,
    found: Found<P>,
    set: Seq<Member<P, R>>,
    seeding: bool,
)
    requires
        set.len() <= usize::MAX,
        grips_are_held(earlier, found),
        holders_are_seen(earlier, found),
        seen_have_grips(earlier, found),
    ensures
        grips_are_held(earlier.push(set), sweep(found, set, set.len(), seeding)),
        holders_are_seen(earlier.push(set), sweep(found, set, set.len(), seeding)),
        seen_have_grips(earlier.push(set), sweep(found, set, set.len(), seeding)),
{
    let sets = earlier.push(set);
    let at = earlier.len() as int;
    let after = sweep(found, set, set.len(), seeding);
    assert(sets[at] == set);
    lemma_more_sets_keep_grips(earlier, set, found);
    lemma_sweep_emits(sets, at, found, set.len(), seeding);
    lemma_sweep_sees(found, set, set.len(), seeding);
    lemma_seen_more_keeps_holders(earlier, found, after);
    assert forall|i: int, k: int|
        0 <= i < sets.len() && 0 <= k < sets[i].len() && (#[trigger] sets[i][k]).inside implies after.seen.contains(
        grip_parts(sets[i][k]),
    ) by {
        if i < at {
            assert(sets[i] == earlier[i]);
            assert(earlier[i][k].inside);
        } else {
            assert(set[k].inside);
        }
    }
}

/// Whether the grips of `state` are the images that hold the seed: every grip
/// lies at the centre of an image of its generator that holds the seed, every
/// image that holds the seed was seen as a grip, and a grip was emitted under
/// every key that was seen.
pub open spec fn grips_are_the_holders<P, R>(state: GripState<P, R>) -> bool {
    &&& grips_are_held(state.sets, state.found)
    &&& holders_are_seen(state.sets, state.found)
    &&& seen_have_grips(state.sets, state.found)
}

proof fn lemma_take_in_emits<P, R>(state: GripState<P, R>, moved: Option<Seq<Member<P, R>>>)
    requires
        state.wf(),
        state.fits(moved),
        grips_are_the_holders(state),
    ensures
        grips_are_the_holders(state.resolve(moved)),
{
    if state.active() && state.brings_new(moved) {
        let set = moved->Some_0;
        lemma_set_emits(state.sets, state.found, set, false);
    }
}

/// Whatever the answers, as long as they fit, the grips of a search are the
/// images that hold the seed.
pub proof fn lemma_run_emits<P, R>(base: Seq<Member<P, R>>, budget: nat, arrivals: Seq<Option<Seq<Member<P, R>>>>)
    requires
        base.len() <= usize::MAX,
        budget <= usize::MAX,
        all_fit(base, arrivals),
    ensures
        grips_are_the_holders(GripState::start(base, budget).run(arrivals)),
    decreases arrivals.len(),
{
    let start = GripState::start(base, budget);
    lemma_start_wf(base, budget);
    if arrivals.len() == 0 {
        let none = Found::<P> { seen: Seq::empty(), grips: Seq::empty() };
        let nothing = Seq::<Seq<Member<P, R>>>::empty();
        lemma_set_emits(nothing, none, base, true);
        assert(nothing.push(base) =~= start.sets);
    } else {
        let earlier = arrivals.drop_last();
        assert forall|i: int| 0 <= i < earlier.len() implies ((#[trigger] earlier[i]) matches Some(set)
            ==> aligned(base, set)) by {
            assert(earlier[i] == arrivals[i]);
        }
        lemma_run_emits(base, budget, earlier);
        lemma_run_wf(start, earlier);
        assert(arrivals.last() == arrivals[arrivals.len() - 1]);
        lemma_take_in_emits(start.run(earlier), arrivals.last());
    }
}

/// What an expansion finds are the grips of the seed, as far as the budget
/// reaches: every grip lies at the centre of an image of its generator that
/// holds the seed, and every image that was found and holds the seed has a
/// grip under its key.
pub proof fn lemma_expansion_finds_the_grips<P, R, FC, FR, FK>(
    seed: P,
    circles: Seq<RotCircle<P, R>>,
    depth: u32,
    in_circle: FC,
    rotate: FR,
    bucket: FK,
    base: Seq<Member<P, R>>,
    arrivals: Seq<Option<Seq<Member<P, R>>>>,
    end: GripState<P, R>,
) where
    FC: Fn(&Circle<P, R>, &P) -> bool,
    FR: Fn(&RotCircle<P, R>, &P) -> P,
    FK: Fn(&RotCircle<P, R>) -> CircleKey,

    requires
        circles.len() <= usize::MAX,
        expands_to(seed, circles, depth, in_circle, rotate, bucket, base, arrivals, end),
    ensures
        grips_are_the_holders(end),
{
    let start = GripState::start(base, depth as nat);
    lemma_start_wf(base, depth as nat);
    lemma_follows_fit(start, seed, in_circle, rotate, bucket, arrivals);
    lemma_run_emits(base, depth as nat, arrivals);
}

/// Whether set `i` of `state` came from an earlier set: a member of that set
/// holds the seed, and its rotation makes set `i` of it.
pub open spec fn comes_from_turn<P, R, FC, FR, FK>(
    seed: P,
    in_circle: FC,
    rotate: FR,
    bucket: FK,
    state: GripState<P, R>,
    i: int,
) -> bool where
    FC: Fn(&Circle<P, R>, &P) -> bool,
    FR: Fn(&RotCircle<P, R>, &P) -> P,
    FK: Fn(&RotCircle<P, R>) -> CircleKey,
 {
    exists|p: int, j: int|
        0 <= p < i && 0 <= j < state.generators() && #[trigger] answers(
            state.sets[p],
            j,
            seed,
            in_circle,
            rotate,
            bucket,
            Some(state.sets[i]),
        )
}

/// Whether the sets of `state` are closed at set `i` under member `j`: the
/// numeric kernel was asked whether the member holds the seed, and if it
/// does, the set that its rotation makes has the key of a set that was found.
pub open spec fn closed_at<P, R, FC, FR, FK>(
    seed: P,
    in_circle: FC,
    rotate: FR,
    bucket: FK,
    state: GripState<P, R>,
    i: int,
    j: int,
) -> bool where
    FC: Fn(&Circle<P, R>, &P) -> bool,
    FR: Fn(&RotCircle<P, R>, &P) -> P,
    FK: Fn(&RotCircle<P, R>) -> CircleKey,
 {
    exists|moved: Option<Seq<Member<P, R>>>| #[trigger]
        answers(state.sets[i], j, seed, in_circle, rotate, bucket, moved) && (moved matches Some(set)
            ==> state.set_keys().contains(set_parts(set)))
}

/// A search whose questions were all answered has asked as many questions as
/// lie before its open one.
pub proof fn lemma_turns_counted<P, R, FC, FR, FK>(
    start: GripState<P, R>,
    seed: P,
    in_circle: FC,
    rotate: FR,
    bucket: FK,
    arrivals: Seq<Option<Seq<Member<P, R>>>>,
) where
    FC: Fn(&Circle<P, R>, &P) -> bool,
    FR: Fn(&RotCircle<P, R>, &P) -> P,
    FK: Fn(&RotCircle<P, R>) -> CircleKey,

    requires
        start.wf(),
        start.set == 0,
        start.member == 0,
        follows(start, seed, in_circle, rotate, bucket, arrivals),
    ensures
        start.run(arrivals).set * start.generators() + start.run(arrivals).member == arrivals.len(),
    decreases arrivals.len(),
{
    let n = start.generators() as int;
    if arrivals.len() == 0 {
        assert(0 * n + 0 == 0);
    } else {
        lemma_turns_counted(start, seed, in_circle, rotate, bucket, arrivals.drop_last());
        lemma_follows_fit(start, seed, in_circle, rotate, bucket, arrivals.drop_last());
        lemma_run_wf(start, arrivals.drop_last());
        let before = start.run(arrivals.drop_last());
        let e = before.set as int;
        assert((e + 1) * n + 0 == e * n + n) by (nonlinear_arith);
    }
}

/// Every set but the generators themselves came from an earlier set by the
/// rotation of a member that holds the seed.
pub proof fn lemma_sets_come_from_turns<P, R, FC, FR, FK>(
    start: GripState<P, R>,
    seed: P,
    in_circle: FC,
    rotate: FR,
    bucket: FK,
    arrivals: Seq<Option<Seq<Member<P, R>>>>,
) where
    FC: Fn(&Circle<P, R>, &P) -> bool,
    FR: Fn(&RotCircle<P, R>, &P) -> P,
    FK: Fn(&RotCircle<P, R>) -> CircleKey,

    requires
        start.wf(),
        start.sets.len() == 1,
        follows(start, seed, in_circle, rotate, bucket, arrivals),
    ensures
        forall|i: int|
            1 <= i < start.run(arrivals).sets.len() ==> #[trigger] comes_from_turn(
                seed,
                in_circle,
                rotate,
                bucket,
                start.run(arrivals),
                i,
            ),
    decreases arrivals.len(),
{
    if arrivals.len() > 0 {
        let earlier = arrivals.drop_last();
        let before = start.run(earlier);
        let end = start.run(arrivals);
        lemma_sets_come_from_turns(start, seed, in_circle, rotate, bucket, earlier);
        lemma_follows_fit(start, seed, in_circle, rotate, bucket, earlier);
        lemma_follows_fit(start, seed, in_circle, rotate, bucket, arrivals);
        lemma_run_wf(start, earlier);
        assert forall|i: int| 1 <= i < end.sets.len() implies #[trigger] comes_from_turn(
            seed,
            in_circle,
            rotate,
            bucket,
            end,
            i,
        ) by {
            if i < before.sets.len() {
                assert(comes_from_turn(seed, in_circle, rotate, bucket, before, i));
                let (p, j) = choose|p: int, j: int|
                    0 <= p < i && 0 <= j < before.generators() && #[trigger] answers(
                        before.sets[p],
                        j,
                        seed,
                        in_circle,
                        rotate,
                        bucket,
                        Some(before.sets[i]),
                    );
                assert(end.sets[p] == before.sets[p]);
                assert(end.sets[i] == before.sets[i]);
                assert(answers(end.sets[p], j, seed, in_circle, rotate, bucket, Some(end.sets[i])));
            } else {
                let p = before.set as int;
                let j = before.member as int;
                assert(end.sets[p] == before.sets[p]);
                assert(arrivals.last() == Some(end.sets[i]));
                assert(answers(end.sets[p], j, seed, in_circle, rotate, bucket, Some(end.sets[i])));
            }
        }
    }
}

/// The sets are closed at every question that was answered: whatever the
/// rotation of a member made of a set has the key of a set that was found.
pub proof fn lemma_answered_turns_are_closed<P, R, FC, FR, FK>(
    start: GripState<P, R>,
    seed: P,
    in_circle: FC,
    rotate: FR,
    bucket: FK,
    arrivals: Seq<Option<Seq<Member<P, R>>>>,
) where
    FC: Fn(&Circle<P, R>, &P) -> bool,
    FR: Fn(&RotCircle<P, R>, &P) -> P,
    FK: Fn(&RotCircle<P, R>) -> CircleKey,

    requires
        start.wf(),
        start.set == 0,
        start.member == 0,
        follows(start, seed, in_circle, rotate, bucket, arrivals),
    ensures
        forall|i: int, j: int|
            0 <= i && 0 <= j < start.generators() && i * start.generators() + j < arrivals.len()
                ==> #[trigger] closed_at(seed, in_circle, rotate, bucket, start.run(arrivals), i, j),
    decreases arrivals.len(),
{
    let n = start.generators() as int;
    if arrivals.len() > 0 {
        let earlier = arrivals.drop_last();
        let before = start.run(earlier);
        let end = start.run(arrivals);
        lemma_answered_turns_are_closed(start, seed, in_circle, rotate, bucket, earlier);
        lemma_turns_counted(start, seed, in_circle, rotate, bucket, earlier);
        lemma_follows_fit(start, seed, in_circle, rotate, bucket, earlier);
        lemma_follows_fit(start, seed, in_circle, rotate, bucket, arrivals);
        lemma_run_wf(start, earlier);
        let e = before.set as int;
        let g = before.member as int;
        assert forall|i: int, j: int|
            0 <= i && 0 <= j < n && i * n + j < arrivals.len() implies #[trigger] closed_at(
            seed,
            in_circle,
            rotate,
            bucket,
            end,
            i,
            j,
        ) by {
            assert(i <= e) by (nonlinear_arith)
                requires
                    0 <= i,
                    0 <= j < n,
                    0 <= g < n,
                    i * n + j <= e * n + g,
            ;
            assert(end.sets[i] == before.sets[i]);
            if i * n + j < earlier.len() {
                assert(closed_at(seed, in_circle, rotate, bucket, before, i, j));
                let moved = choose|moved: Option<Seq<Member<P, R>>>| #[trigger]
                    answers(before.sets[i], j, seed, in_circle, rotate, bucket, moved) && (moved matches Some(set)
                        ==> before.set_keys().contains(set_parts(set)));
                if moved is Some {
                    let key = set_parts(moved->Some_0);
                    let at = choose|at: int| 0 <= at < before.set_keys().len() && before.set_keys()[at] == key;
                    assert(end.sets[at] == before.sets[at]);
                    assert(end.set_keys()[at] == key);
                }
                assert(answers(end.sets[i], j, seed, in_circle, rotate, bucket, moved));
            } else {
                assert(i == e && j == g) by (nonlinear_arith)
                    requires
                        0 <= i <= e,
                        0 <= j < n,
                        0 <= g < n,
                        i * n + j == e * n + g,
                ;
                let moved = arrivals.last();
                if moved is Some {
                    let key = set_parts(moved->Some_0);
                    if before.set_keys().contains(key) {
                        let at = choose|at: int| 0 <= at < before.set_keys().len() && before.set_keys()[at] == key;
                        assert(end.sets[at] == before.sets[at]);
                        assert(end.set_keys()[at] == key);
                    } else {
                        assert(end.set_keys()[before.sets.len() as int] == key);
                    }
                }
                assert(answers(end.sets[i], j, seed, in_circle, rotate, bucket, moved));
            }
        }
    }
}

/// What an expansion finds are the images of the generators under the group
/// that they span, as far as the seed lets them turn and the budget reaches.
///
/// Every set but the generators themselves came from an earlier set by the
/// rotation of a member that holds the seed.  Every set that was expanded is
/// closed under every member: wherever a member that holds the seed turned
/// the set, the result has the key of a set that was found.  Where fewer sets
/// were found than the budget allows, every set was expanded.
pub proof fn lemma_expansion_closes_the_sets<P, R, FC, FR, FK>(
    seed: P,
    circles: Seq<RotCircle<P, R>>,
    depth: u32,
    in_circle: FC,
    rotate: FR,
    bucket: FK,
    base: Seq<Member<P, R>>,
    arrivals: Seq<Option<Seq<Member<P, R>>>>,
    end: GripState<P, R>,
) where
    FC: Fn(&Circle<P, R>, &P) -> bool,
    FR: Fn(&RotCircle<P, R>, &P) -> P,
    FK: Fn(&RotCircle<P, R>) -> CircleKey,

    requires
        circles.len() <= usize::MAX,
        expands_to(seed, circles, depth, in_circle, rotate, bucket, base, arrivals, end),
    ensures
        forall|i: int|
            1 <= i < end.sets.len() ==> #[trigger] comes_from_turn(seed, in_circle, rotate, bucket, end, i),
        forall|i: int, j: int|
            0 <= i < end.set && 0 <= j < circles.len() ==> #[trigger] closed_at(
                seed,
                in_circle,
                rotate,
                bucket,
                end,
                i,
                j,
            ),
        circles.len() > 0 && end.sets.len() <= depth ==> end.set == end.sets.len(),
        circles.len() > 0 && end.sets.len() > depth ==> end.set == depth,
{
    let start = GripState::start(base, depth as nat);
    let n = circles.len() as int;
    lemma_start_wf(base, depth as nat);
    lemma_follows_fit(start, seed, in_circle, rotate, bucket, arrivals);
    lemma_run_wf(start, arrivals);
    lemma_sets_come_from_turns(start, seed, in_circle, rotate, bucket, arrivals);
    lemma_answered_turns_are_closed(start, seed, in_circle, rotate, bucket, arrivals);
    lemma_turns_counted(start, seed, in_circle, rotate, bucket, arrivals);
    let e = end.set as int;
    let g = end.member as int;
    assert forall|i: int, j: int| 0 <= i < end.set && 0 <= j < circles.len() implies #[trigger] closed_at(
        seed,
        in_circle,
        rotate,
        bucket,
        end,
        i,
        j,
    ) by {
        assert(i * n + j < e * n + g) by (nonlinear_arith)
            requires
                0 <= i < e,
                0 <= j < n,
                0 <= g,
        ;
    }
}

proof fn lemma_sweep_counted<P, R>(found: Found<P>, set: Seq<Member<P, R>>, upto: nat, seeding: bool)
    ensures
        sweep(found, set, upto, seeding).grips.len() <= found.grips.len() + upto,
    decreases upto,
{
    if upto > 0 {
        lemma_sweep_counted(found, set, (upto - 1) as nat, seeding);
    }
}

proof fn lemma_sets_counted<P, R>(start: GripState<P, R>, arrivals: Seq<Option<Seq<Member<P, R>>>>)
    requires
        start.wf(),
        all_fit(start.sets[0], arrivals),
        start.found.grips.len() <= start.generators() * start.sets.len(),
    ensures
        start.run(arrivals).sets.len() <= start.sets.len() + arrivals.len(),
        start.run(arrivals).found.grips.len() <= start.generators() * start.run(arrivals).sets.len(),
    decreases arrivals.len(),
{
    if arrivals.len() > 0 {
        let earlier = arrivals.drop_last();
        assert forall|i: int| 0 <= i < earlier.len() implies ((#[trigger] earlier[i]) matches Some(set)
            ==> aligned(start.sets[0], set)) by {
            assert(earlier[i] == arrivals[i]);
        }
        lemma_sets_counted(start, earlier);
        lemma_run_wf(start, earlier);
        let before = start.run(earlier);
        let end = start.run(arrivals);
        let n = start.generators() as int;
        assert(arrivals.last() == arrivals[arrivals.len() - 1]);
        if before.active() && before.brings_new(arrivals.last()) {
            let set = arrivals.last()->Some_0;
            lemma_sweep_counted(before.found, set, set.len(), false);
            let m = before.sets.len() as int;
            assert(n * (m + 1) == n * m + n) by (nonlinear_arith);
        }
    }
}

/// The budget bounds the work: the numeric kernel is asked about each member
/// of `depth` sets at most, every answer brings one set at most, and every
/// set brings one grip for each generator at most.
pub proof fn lemma_work_is_bounded<P, R, FC, FR, FK>(
    seed: P,
    circles: Seq<RotCircle<P, R>>,
    depth: u32,
    in_circle: FC,
    rotate: FR,
    bucket: FK,
    base: Seq<Member<P, R>>,
    arrivals: Seq<Option<Seq<Member<P, R>>>>,
    end: GripState<P, R>,
) where
    FC: Fn(&Circle<P, R>, &P) -> bool,
    FR: Fn(&RotCircle<P, R>, &P) -> P,
    FK: Fn(&RotCircle<P, R>) -> CircleKey,

    requires
        circles.len() <= usize::MAX,
        expands_to(seed, circles, depth, in_circle, rotate, bucket, base, arrivals, end),
    ensures
        arrivals.len() <= depth * circles.len(),
        end.sets.len() <= 1 + arrivals.len(),
        end.found.grips.len() <= circles.len() * end.sets.len(),
{
    let start = GripState::start(base, depth as nat);
    let n = circles.len() as int;
    lemma_start_wf(base, depth as nat);
    lemma_follows_fit(start, seed, in_circle, rotate, bucket, arrivals);
    lemma_run_wf(start, arrivals);
    lemma_turns_counted(start, seed, in_circle, rotate, bucket, arrivals);
    let none = Found::<P> { seen: Seq::empty(), grips: Seq::empty() };
    lemma_sweep_counted(none, base, base.len(), true);
    assert(n * 1 == n) by (nonlinear_arith);
    lemma_sets_counted(start, arrivals);
    let e = end.set as int;
    let g = end.member as int;
    let d = depth as int;
    if n == 0 {
        assert(e * n == 0 && d * n == 0) by (nonlinear_arith)
            requires
                n == 0,
        ;
    } else if e < d {
        assert(e * n + g <= d * n) by (nonlinear_arith)
            requires
                0 <= e < d,
                0 <= g < n,
        ;
    }
}

} // verus!
