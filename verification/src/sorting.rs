//! Stable sorting, stated for sequences and carried out on vectors.

use vstd::multiset::Multiset;
use vstd::prelude::*;
use vstd::seq_lib::to_multiset_build;

verus! {

/// `sorted` with `x` put in behind the last element that may stand before it.
pub open spec fn inserted<T>(sorted: Seq<T>, x: T, before: spec_fn(T, T) -> bool) -> Seq<T>
    decreases sorted.len(),
{
    if sorted.len() == 0 || before(sorted.last(), x) {
        sorted.push(x)
    } else {
        inserted(sorted.drop_last(), x, before).push(sorted.last())
    }
}

/// The elements of `s` in the order of `before`, where `before(a, b)` says
/// that `a` may stand before `b`. Elements that may stand before each other
/// keep the order they have in `s`.
pub open spec fn stable_sorted<T>(s: Seq<T>, before: spec_fn(T, T) -> bool) -> Seq<T>
    decreases s.len(),
{
    if s.len() == 0 {
        s
    } else {
        inserted(stable_sorted(s.drop_last(), before), s.last(), before)
    }
}

/// Where `x` comes to stand: behind `sorted[at - 1]`, which may stand before
/// it, and before the elements from `at` on, none of which may.
pub proof fn lemma_inserted_at<T>(sorted: Seq<T>, x: T, before: spec_fn(T, T) -> bool, at: int)
    requires
        0 <= at <= sorted.len(),
        at > 0 ==> before(sorted[at - 1], x),
        forall|k: int| at <= k < sorted.len() ==> !before(#[trigger] sorted[k], x),
    ensures
        inserted(sorted, x, before) == sorted.insert(at, x),
    decreases sorted.len() - at,
{
    if at == sorted.len() {
        assert(sorted.insert(at, x) =~= sorted.push(x));
    } else {
        let last = sorted.len() - 1;
        assert(!before(sorted[last], x));
        lemma_inserted_at(sorted.drop_last(), x, before, at);
        assert(sorted.drop_last().insert(at, x).push(sorted.last()) =~= sorted.insert(at, x));
    }
}

/// Any two elements may stand one way or the other.
pub open spec fn total<T>(before: spec_fn(T, T) -> bool) -> bool {
    forall|a: T, b: T| #[trigger] before(a, b) || #[trigger] before(b, a)
}

/// What may stand before an element may stand before all that this element
/// may stand before.
pub open spec fn transitive<T>(before: spec_fn(T, T) -> bool) -> bool {
    forall|a: T, b: T, c: T| #[trigger] before(a, b) && #[trigger] before(b, c) ==> before(a, c)
}

/// Every element of `s` may stand before every element behind it.
pub open spec fn ordered<T>(s: Seq<T>, before: spec_fn(T, T) -> bool) -> bool {
    forall|i: int, j: int| 0 <= i < j < s.len() ==> before(#[trigger] s[i], #[trigger] s[j])
}

/// Putting an element in adds this element and changes nothing else.
pub proof fn lemma_inserted_permutes<T>(sorted: Seq<T>, x: T, before: spec_fn(T, T) -> bool)
    ensures
        inserted(sorted, x, before).to_multiset() == sorted.to_multiset().insert(x),
        inserted(sorted, x, before).len() == sorted.len() + 1,
    decreases sorted.len(),
{
    broadcast use to_multiset_build;

    if sorted.len() == 0 || before(sorted.last(), x) {
    } else {
        let rest = sorted.drop_last();
        lemma_inserted_permutes(rest, x, before);
        assert(rest.push(sorted.last()) =~= sorted);
        assert(rest.to_multiset().insert(x).insert(sorted.last()) =~= rest.to_multiset().insert(
            sorted.last(),
        ).insert(x));
    }
}

/// Sorting is a reordering: it holds every element as often as before.
pub proof fn lemma_stable_sorted_permutes<T>(s: Seq<T>, before: spec_fn(T, T) -> bool)
    ensures
        stable_sorted(s, before).to_multiset() == s.to_multiset(),
        stable_sorted(s, before).len() == s.len(),
    decreases s.len(),
{
    broadcast use to_multiset_build;

    if s.len() > 0 {
        lemma_stable_sorted_permutes(s.drop_last(), before);
        lemma_inserted_permutes(stable_sorted(s.drop_last(), before), s.last(), before);
        assert(s.drop_last().push(s.last()) =~= s);
    }
}

/// Every element of what putting in gives is the new element or an old one.
pub proof fn lemma_inserted_elements<T>(sorted: Seq<T>, x: T, before: spec_fn(T, T) -> bool)
    ensures
        inserted(sorted, x, before).len() == sorted.len() + 1,
        forall|i: int|
            0 <= i <= sorted.len() ==> (#[trigger] inserted(sorted, x, before)[i]) == x
                || sorted.contains(inserted(sorted, x, before)[i]),
    decreases sorted.len(),
{
    let result = inserted(sorted, x, before);
    if sorted.len() == 0 || before(sorted.last(), x) {
        assert forall|i: int| 0 <= i <= sorted.len() implies (#[trigger] result[i]) == x
            || sorted.contains(result[i]) by {
            if i < sorted.len() {
                assert(sorted[i] == result[i]);
            }
        }
    } else {
        let rest = sorted.drop_last();
        lemma_inserted_elements(rest, x, before);
        assert forall|i: int| 0 <= i <= sorted.len() implies (#[trigger] result[i]) == x
            || sorted.contains(result[i]) by {
            if i < sorted.len() {
                let inner = inserted(rest, x, before);
                assert(result[i] == inner[i]);
                if inner[i] != x {
                    let k = choose|k: int| 0 <= k < rest.len() && rest[k] == inner[i];
                    assert(sorted[k] == result[i]);
                }
            } else {
                assert(sorted[sorted.len() - 1] == result[i]);
            }
        }
    }
}

/// Putting an element into an ordered sequence gives an ordered sequence.
pub proof fn lemma_inserted_ordered<T>(sorted: Seq<T>, x: T, before: spec_fn(T, T) -> bool)
    requires
        total(before),
        transitive(before),
        ordered(sorted, before),
    ensures
        ordered(inserted(sorted, x, before), before),
    decreases sorted.len(),
{
    let result = inserted(sorted, x, before);
    if sorted.len() == 0 {
    } else if before(sorted.last(), x) {
        assert forall|i: int, j: int| 0 <= i < j < result.len() implies before(
            #[trigger] result[i],
            #[trigger] result[j],
        ) by {
            if j < sorted.len() {
                assert(before(sorted[i], sorted[j]));
            } else if i < sorted.len() - 1 {
                assert(before(sorted[i], sorted[sorted.len() - 1]));
            }
        }
    } else {
        let rest = sorted.drop_last();
        let last = sorted.last();
        assert forall|i: int, j: int| 0 <= i < j < rest.len() implies before(
            #[trigger] rest[i],
            #[trigger] rest[j],
        ) by {
            assert(before(sorted[i], sorted[j]));
        }
        lemma_inserted_ordered(rest, x, before);
        lemma_inserted_elements(rest, x, before);
        let inner = inserted(rest, x, before);
        assert(before(x, last));
        assert forall|i: int, j: int| 0 <= i < j < result.len() implies before(
            #[trigger] result[i],
            #[trigger] result[j],
        ) by {
            if j < inner.len() {
                assert(before(inner[i], inner[j]));
            } else if inner[i] != x {
                let k = choose|k: int| 0 <= k < rest.len() && rest[k] == inner[i];
                assert(before(sorted[k], sorted[sorted.len() - 1]));
            }
        }
    }
}

/// Sorting by an order that is total and transitive gives an ordered sequence.
pub proof fn lemma_stable_sorted_ordered<T>(s: Seq<T>, before: spec_fn(T, T) -> bool)
    requires
        total(before),
        transitive(before),
    ensures
        ordered(stable_sorted(s, before), before),
    decreases s.len(),
{
    if s.len() > 0 {
        lemma_stable_sorted_ordered(s.drop_last(), before);
        lemma_inserted_ordered(stable_sorted(s.drop_last(), before), s.last(), before);
    }
}

/// A sequence that stands in order stays as it is when it is sorted.
pub proof fn lemma_stable_sorted_of_ordered<T>(s: Seq<T>, before: spec_fn(T, T) -> bool)
    requires
        ordered(s, before),
    ensures
        stable_sorted(s, before) == s,
    decreases s.len(),
{
    if s.len() > 0 {
        let rest = s.drop_last();
        assert forall|i: int, j: int| 0 <= i < j < rest.len() implies before(
            #[trigger] rest[i],
            #[trigger] rest[j],
        ) by {
            assert(before(s[i], s[j]));
        }
        lemma_stable_sorted_of_ordered(rest, before);
        if rest.len() > 0 {
            assert(before(s[rest.len() - 1], s[s.len() - 1]));
            assert(rest.last() == s[rest.len() - 1]);
        }
        assert(rest.push(s.last()) =~= s);
    }
}

/// Sorting a second time changes nothing.
pub proof fn lemma_stable_sorted_twice<T>(s: Seq<T>, before: spec_fn(T, T) -> bool)
    requires
        total(before),
        transitive(before),
    ensures
        stable_sorted(stable_sorted(s, before), before) == stable_sorted(s, before),
{
    lemma_stable_sorted_ordered(s, before);
    lemma_stable_sorted_of_ordered(stable_sorted(s, before), before);
}

/// What the elements of `s` contribute through `part`, all together.
pub open spec fn gathered<T, X>(s: Seq<T>, part: spec_fn(T) -> Multiset<X>) -> Multiset<X>
    decreases s.len(),
{
    if s.len() == 0 {
        Multiset::empty()
    } else {
        gathered(s.drop_last(), part).add(part(s.last()))
    }
}

/// An element that is put in contributes its part and changes no other.
pub proof fn lemma_gathered_inserted<T, X>(
    sorted: Seq<T>,
    x: T,
    before: spec_fn(T, T) -> bool,
    part: spec_fn(T) -> Multiset<X>,
)
    ensures
        gathered(inserted(sorted, x, before), part) == gathered(sorted, part).add(part(x)),
    decreases sorted.len(),
{
    if sorted.len() == 0 || before(sorted.last(), x) {
        assert(sorted.push(x).drop_last() =~= sorted);
    } else {
        let rest = sorted.drop_last();
        let inner = inserted(rest, x, before);
        lemma_gathered_inserted(rest, x, before, part);
        assert(inner.push(sorted.last()).drop_last() =~= inner);
        assert(gathered(rest, part).add(part(x)).add(part(sorted.last())) =~= gathered(
            rest,
            part,
        ).add(part(sorted.last())).add(part(x)));
    }
}

/// Sorting changes nothing of what the elements contribute all together.
pub proof fn lemma_gathered_sorted<T, X>(
    s: Seq<T>,
    before: spec_fn(T, T) -> bool,
    part: spec_fn(T) -> Multiset<X>,
)
    ensures
        gathered(stable_sorted(s, before), part) == gathered(s, part),
    decreases s.len(),
{
    if s.len() > 0 {
        lemma_gathered_sorted(s.drop_last(), before, part);
        lemma_gathered_inserted(stable_sorted(s.drop_last(), before), s.last(), before, part);
    }
}

/// What the elements of `s` amount to through `part`, all together.
pub open spec fn summed<T>(s: Seq<T>, part: spec_fn(T) -> int) -> int
    decreases s.len(),
{
    if s.len() == 0 {
        0
    } else {
        summed(s.drop_last(), part) + part(s.last())
    }
}

/// An element that is put in adds its part and changes no other.
pub proof fn lemma_summed_inserted<T>(
    sorted: Seq<T>,
    x: T,
    before: spec_fn(T, T) -> bool,
    part: spec_fn(T) -> int,
)
    ensures
        summed(inserted(sorted, x, before), part) == summed(sorted, part) + part(x),
    decreases sorted.len(),
{
    if sorted.len() == 0 || before(sorted.last(), x) {
        assert(sorted.push(x).drop_last() =~= sorted);
    } else {
        let rest = sorted.drop_last();
        let inner = inserted(rest, x, before);
        lemma_summed_inserted(rest, x, before, part);
        assert(inner.push(sorted.last()).drop_last() =~= inner);
    }
}

/// Sorting changes nothing of what the elements amount to all together.
pub proof fn lemma_summed_sorted<T>(
    s: Seq<T>,
    before: spec_fn(T, T) -> bool,
    part: spec_fn(T) -> int,
)
    ensures
        summed(stable_sorted(s, before), part) == summed(s, part),
    decreases s.len(),
{
    if s.len() > 0 {
        lemma_summed_sorted(s.drop_last(), before, part);
        lemma_summed_inserted(stable_sorted(s.drop_last(), before), s.last(), before, part);
    }
}

/// Where every part lies between a bound and its negative, so do the sums.
pub proof fn lemma_summed_bound<T>(s: Seq<T>, part: spec_fn(T) -> int, bound: spec_fn(T) -> int)
    requires
        forall|i: int| 0 <= i < s.len() ==> -bound(s[i]) <= part(#[trigger] s[i]) <= bound(s[i]),
    ensures
        -summed(s, bound) <= summed(s, part) <= summed(s, bound),
    decreases s.len(),
{
    if s.len() > 0 {
        let rest = s.drop_last();
        assert forall|i: int| 0 <= i < rest.len() implies -bound(rest[i]) <= part(
            #[trigger] rest[i],
        ) <= bound(rest[i]) by {
            assert(rest[i] == s[i]);
        }
        lemma_summed_bound(rest, part, bound);
        assert(-bound(s[s.len() - 1]) <= part(s[s.len() - 1]) <= bound(s[s.len() - 1]));
    }
}

/// Taking an element out takes its part out of the sum.
pub proof fn lemma_summed_remove<T>(s: Seq<T>, i: int, part: spec_fn(T) -> int)
    requires
        0 <= i < s.len(),
    ensures
        summed(s, part) == summed(s.remove(i), part) + part(s[i]),
    decreases s.len(),
{
    if i == s.len() - 1 {
        assert(s.remove(i) =~= s.drop_last());
    } else {
        lemma_summed_remove(s.drop_last(), i, part);
        assert(s.remove(i).drop_last() =~= s.drop_last().remove(i));
        assert(s.remove(i).last() == s.last());
    }
}

/// Two sequences that hold every element equally often amount to the same.
pub proof fn lemma_summed_permuted<T>(a: Seq<T>, b: Seq<T>, part: spec_fn(T) -> int)
    requires
        a.to_multiset() == b.to_multiset(),
    ensures
        a.len() == b.len(),
        summed(a, part) == summed(b, part),
    decreases a.len(),
{
    broadcast use vstd::seq_lib::group_to_multiset_ensures;

    assert(a.len() == a.to_multiset().len());
    assert(b.len() == b.to_multiset().len());
    if a.len() > 0 {
        let last = a.last();
        assert(a.contains(last)) by {
            assert(a[a.len() - 1] == last);
        }
        assert(b.to_multiset().count(last) > 0);
        assert(b.contains(last));
        let i = choose|i: int| 0 <= i < b.len() && b[i] == last;
        assert(a.remove(a.len() - 1) =~= a.drop_last());
        assert(a.drop_last().to_multiset() == a.to_multiset().remove(last));
        assert(b.remove(i).to_multiset() == b.to_multiset().remove(last));
        lemma_summed_permuted(a.drop_last(), b.remove(i), part);
        lemma_summed_remove(b, i, part);
    }
}

/// Two sequences whose elements have the same parts, place by place, amount
/// to the same.
pub proof fn lemma_summed_alike<T>(
    a: Seq<T>,
    b: Seq<T>,
    left: spec_fn(T) -> int,
    right: spec_fn(T) -> int,
)
    requires
        a.len() == b.len(),
        forall|i: int| 0 <= i < a.len() ==> left(#[trigger] a[i]) == right(b[i]),
    ensures
        summed(a, left) == summed(b, right),
    decreases a.len(),
{
    if a.len() > 0 {
        assert forall|i: int| 0 <= i < a.drop_last().len() implies left(
            #[trigger] a.drop_last()[i],
        ) == right(b.drop_last()[i]) by {
            assert(left(a[i]) == right(b[i]));
        }
        lemma_summed_alike(a.drop_last(), b.drop_last(), left, right);
        assert(left(a[a.len() - 1]) == right(b[a.len() - 1]));
    }
}

/// Every element of `s` meets `holds`.
pub open spec fn every<T>(s: Seq<T>, holds: spec_fn(T) -> bool) -> bool {
    forall|i: int| 0 <= i < s.len() ==> holds(#[trigger] s[i])
}

/// What every element meets, every element of the sorted sequence meets.
pub proof fn lemma_every_sorted<T>(
    s: Seq<T>,
    before: spec_fn(T, T) -> bool,
    holds: spec_fn(T) -> bool,
)
    requires
        every(s, holds),
    ensures
        every(stable_sorted(s, before), holds),
{
    broadcast use vstd::seq_lib::group_to_multiset_ensures;

    let sorted = stable_sorted(s, before);
    lemma_stable_sorted_permutes(s, before);
    assert forall|i: int| 0 <= i < sorted.len() implies holds(#[trigger] sorted[i]) by {
        assert(sorted.contains(sorted[i]));
        assert(s.to_multiset().count(sorted[i]) > 0);
        assert(s.contains(sorted[i]));
        let k = choose|k: int| 0 <= k < s.len() && s[k] == sorted[i];
        assert(holds(s[k]));
    }
}

/// The elements of `class` may all stand before each other.
pub open spec fn tied<T>(class: spec_fn(T) -> bool, before: spec_fn(T, T) -> bool) -> bool {
    forall|a: T, b: T| #[trigger] class(a) && #[trigger] class(b) ==> before(a, b)
}

/// Filtering a sequence with one more element at its end.
proof fn lemma_filter_push<T>(s: Seq<T>, x: T, class: spec_fn(T) -> bool)
    ensures
        s.push(x).filter(class) == if class(x) {
            s.filter(class).push(x)
        } else {
            s.filter(class)
        },
{
    reveal(Seq::filter);
    assert(s.push(x).drop_last() =~= s);
    assert(s.push(x).last() == x);
}

/// An element that is put in comes behind the elements it is tied with.
pub proof fn lemma_inserted_keeps_ties<T>(
    sorted: Seq<T>,
    x: T,
    before: spec_fn(T, T) -> bool,
    class: spec_fn(T) -> bool,
)
    requires
        tied(class, before),
    ensures
        inserted(sorted, x, before).filter(class) == sorted.push(x).filter(class),
    decreases sorted.len(),
{
    if sorted.len() == 0 || before(sorted.last(), x) {
    } else {
        let rest = sorted.drop_last();
        let last = sorted.last();
        lemma_inserted_keeps_ties(rest, x, before, class);
        let inner = inserted(rest, x, before);
        assert(rest.push(last) =~= sorted);
        lemma_filter_push(inner, last, class);
        lemma_filter_push(rest, x, class);
        lemma_filter_push(rest, last, class);
        lemma_filter_push(sorted, x, class);
        if class(x) {
            assert(!class(last));
        }
    }
}

/// Sorting is stable: elements that may all stand before each other keep the
/// order they had.
pub proof fn lemma_stable_sorted_keeps_ties<T>(
    s: Seq<T>,
    before: spec_fn(T, T) -> bool,
    class: spec_fn(T) -> bool,
)
    requires
        tied(class, before),
    ensures
        stable_sorted(s, before).filter(class) == s.filter(class),
    decreases s.len(),
{
    if s.len() > 0 {
        let rest = s.drop_last();
        lemma_stable_sorted_keeps_ties(rest, before, class);
        let sorted = stable_sorted(rest, before);
        lemma_inserted_keeps_ties(sorted, s.last(), before, class);
        lemma_filter_push(sorted, s.last(), class);
        lemma_filter_push(rest, s.last(), class);
        assert(rest.push(s.last()) =~= s);
    }
}

/// Putting in commutes with a map that keeps the order.
pub proof fn lemma_inserted_mapped<A, B>(
    sorted: Seq<A>,
    x: A,
    f: spec_fn(A) -> B,
    before: spec_fn(A, A) -> bool,
    mapped: spec_fn(B, B) -> bool,
)
    requires
        forall|a: A, b: A| before(a, b) == #[trigger] mapped(f(a), f(b)),
    ensures
        inserted(sorted, x, before).map_values(f) == inserted(sorted.map_values(f), f(x), mapped),
    decreases sorted.len(),
{
    let image = sorted.map_values(f);
    if sorted.len() == 0 || before(sorted.last(), x) {
        assert(sorted.push(x).map_values(f) =~= image.push(f(x)));
    } else {
        lemma_inserted_mapped(sorted.drop_last(), x, f, before, mapped);
        assert(image.drop_last() =~= sorted.drop_last().map_values(f));
        assert(inserted(sorted.drop_last(), x, before).push(sorted.last()).map_values(f)
            =~= inserted(sorted.drop_last(), x, before).map_values(f).push(f(sorted.last())));
    }
}

/// Sorting commutes with a map that keeps the order.
pub proof fn lemma_stable_sorted_mapped<A, B>(
    s: Seq<A>,
    f: spec_fn(A) -> B,
    before: spec_fn(A, A) -> bool,
    mapped: spec_fn(B, B) -> bool,
)
    requires
        forall|a: A, b: A| before(a, b) == #[trigger] mapped(f(a), f(b)),
    ensures
        stable_sorted(s, before).map_values(f) == stable_sorted(s.map_values(f), mapped),
    decreases s.len(),
{
    if s.len() == 0 {
        assert(s.map_values(f) =~= Seq::empty());
        assert(stable_sorted(s, before).map_values(f) =~= Seq::empty());
    } else {
        lemma_stable_sorted_mapped(s.drop_last(), f, before, mapped);
        lemma_inserted_mapped(stable_sorted(s.drop_last(), before), s.last(), f, before, mapped);
        assert(s.map_values(f).drop_last() =~= s.drop_last().map_values(f));
    }
}

/// An order on the elements of a vector that can be decided.
pub trait Ordered<S>: Sized {
    /// `self` may stand before `other` in the order `sort`.
    spec fn precedes(&self, other: &Self, sort: S) -> bool;

    /// Whether `self` may stand before `other` in the order `sort`.
    fn before(&self, other: &Self, sort: S) -> (r: bool)
        ensures
            r == self.precedes(other, sort),
    ;
}

/// The order `sort` as a relation.
pub open spec fn order_of<S, T: Ordered<S>>(sort: S) -> spec_fn(T, T) -> bool {
    |a: T, b: T| a.precedes(&b, sort)
}

/// Sorts `v` in the order `sort`, keeping the order of elements that may
/// stand before each other.
pub fn stable_sort<S: Copy, T: Ordered<S>>(v: &mut Vec<T>, sort: S)
    ensures
        final(v)@ == stable_sorted(old(v)@, order_of::<S, T>(sort)),
{
    let ghost start = v@;
    let ghost before = order_of::<S, T>(sort);
    let mut i: usize = 0;
    assert(start.take(0) =~= stable_sorted(start.take(0), before));
    while i < v.len()
        invariant
            i <= v@.len(),
            v@.len() == start.len(),
            before == order_of::<S, T>(sort),
            v@.take(i as int) == stable_sorted(start.take(i as int), before),
            v@.skip(i as int) == start.skip(i as int),
        decreases v@.len() - i,
    {
        let ghost sorted = v@.take(i as int);
        let ghost x = v@[i as int];
        let mut at: usize = i;
        while at > 0 && !v[at - 1].before(&v[i], sort)
            invariant
                at <= i < v@.len(),
                before == order_of::<S, T>(sort),
                x == v@[i as int],
                forall|k: int| at <= k < i ==> !before(#[trigger] v@[k], x),
            decreases at,
        {
            at -= 1;
        }
        proof {
            assert(forall|k: int| 0 <= k < i ==> sorted[k] == v@[k]);
            lemma_inserted_at(sorted, x, before, at as int);
            let next = start.take(i + 1);
            assert(next.drop_last() =~= start.take(i as int));
            assert(x == start.skip(i as int)[0]);
            assert(next.last() == x);
        }
        let ghost previous = v@;
        let element = v.remove(i);
        v.insert(at, element);
        proof {
            assert(v@.take(i + 1) =~= sorted.insert(at as int, x));
            assert(v@.skip(i + 1) =~= previous.skip(i as int).skip(1));
            assert(start.skip(i + 1) =~= start.skip(i as int).skip(1));
        }
        i += 1;
    }
    assert(v@.take(i as int) =~= v@);
    assert(start.take(i as int) =~= start);
}

} // verus!
