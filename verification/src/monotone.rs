//! Where curves go down instead of up.
use crate::settings::curves;
use vstd::prelude::*;

verus! {

/// A place where a curve goes down: the curve's index, and the indexes of a value and of
/// the smaller value behind it.
#[derive(Debug, Clone, Copy, PartialEq, Eq, Structural)]
pub struct Descent {
    pub curve: usize,
    pub prev: usize,
    pub next: usize,
}

/// The descents among the first `count` values of the curve with index `curve`, in order.
pub open spec fn descents_within(values: Seq<u16>, curve: usize, count: nat) -> Seq<Descent>
    decreases count,
{
    if count < 2 {
        Seq::empty()
    } else {
        let before = descents_within(values, curve, (count - 1) as nat);
        if values[count - 2] > values[count - 1] {
            before.push(
                Descent { curve, prev: (count - 2) as usize, next: (count - 1) as usize },
            )
        } else {
            before
        }
    }
}

/// The descents of all curves, curve by curve.
pub open spec fn descents(curves: Seq<Seq<u16>>) -> Seq<Descent>
    decreases curves.len(),
{
    if curves.len() == 0 {
        Seq::empty()
    } else {
        descents(curves.drop_last()) + descents_within(
            curves.last(),
            (curves.len() - 1) as usize,
            curves.last().len(),
        )
    }
}

/// The curve never goes down.
pub open spec fn is_rising(values: Seq<u16>) -> bool {
    forall|i: int, j: int| 0 <= i <= j < values.len() ==> values[i] <= values[j]
}

/// Finds every place where one of the curves is not monotonically increasing.
pub fn find_descents(channels: &Vec<Vec<u16>>) -> (found: Vec<Descent>)
    ensures
        found@ == descents(curves(channels@)),
        forall|d: Descent| #[trigger]
            found@.contains(d) <==> {
                &&& d.curve < channels@.len()
                &&& d.next == d.prev + 1
                &&& d.next < channels@[d.curve as int]@.len()
                &&& channels@[d.curve as int]@[d.prev as int] > channels@[d.curve as int]@[d.next as int]
            },
        forall|i: int, j: int|
            0 <= i < j < found@.len() ==> (#[trigger] found@[i]).curve < (
            #[trigger] found@[j]).curve || (found@[i].curve == found@[j].curve && found@[i].prev
                < found@[j].prev),
{
    let ghost all = curves(channels@);
    let mut found: Vec<Descent> = Vec::new();
    let mut c: usize = 0;
    assert(all.take(0) == Seq::<Seq<u16>>::empty());
    while c < channels.len()
        invariant
            c <= channels.len(),
            all == curves(channels@),
            found@ == descents(all.take(c as int)),
        decreases channels.len() - c,
    {
        let values = &channels[c];
        let ghost before = found@;
        let mut i: usize = 1;
        assert(before + Seq::<Descent>::empty() == before);
        while i < values.len()
            invariant
                1 <= i,
                i <= values.len() || i == 1,
                found@ == before + descents_within(values@, c, i as nat),
            decreases values.len() - i,
        {
            if values[i - 1] > values[i] {
                let ghost so_far = descents_within(values@, c, i as nat);
                let descent = Descent { curve: c, prev: i - 1, next: i };
                found.push(descent);
                assert(before + so_far.push(descent) == (before + so_far).push(descent));
            }
            i = i + 1;
        }
        proof {
            assert(all.take(c + 1).drop_last() == all.take(c as int));
            assert(all.take(c + 1).last() == values@);
            assert(descents_within(values@, c, values@.len()) == descents_within(
                values@,
                c,
                i as nat,
            ));
            assert(descents(all.take(c + 1)) == before + descents_within(
                values@,
                c,
                values@.len(),
            ));
        }
        c = c + 1;
    }
    proof {
        assert(all.take(c as int) == all);
        assert forall|k: int| 0 <= k < all.len() implies (#[trigger] all[k]).len() <= usize::MAX by {
            assert(all[k] == channels@[k]@);
            assert(channels@[k].len() <= usize::MAX);
        }
        assert forall|d: Descent| #[trigger]
            found@.contains(d) <==> {
                &&& d.curve < channels@.len()
                &&& d.next == d.prev + 1
                &&& d.next < channels@[d.curve as int]@.len()
                &&& channels@[d.curve as int]@[d.prev as int] > channels@[d.curve as int]@[d.next as int]
            } by {
            law_descents_are_the_falling_steps(all, d);
            if d.curve < channels@.len() {
                assert(all[d.curve as int] == channels@[d.curve as int]@);
            }
        }
        assert forall|i: int, j: int| 0 <= i < j < found@.len() implies (
        #[trigger] found@[i]).curve < (#[trigger] found@[j]).curve || (found@[i].curve
            == found@[j].curve && found@[i].prev < found@[j].prev) by {
            law_descents_are_in_order(all, i, j);
        }
    }
    found
}

proof fn lemma_descents_within(values: Seq<u16>, curve: usize, count: nat, d: Descent)
    requires
        count <= values.len(),
        count <= usize::MAX,
    ensures
        descents_within(values, curve, count).contains(d) <==> {
            &&& d.curve == curve
            &&& d.next == d.prev + 1
            &&& d.next < count
            &&& values[d.prev as int] > values[d.next as int]
        },
    decreases count,
{
    if count >= 2 {
        let before = descents_within(values, curve, (count - 1) as nat);
        lemma_descents_within(values, curve, (count - 1) as nat, d);
        let last = Descent { curve, prev: (count - 2) as usize, next: (count - 1) as usize };
        let all = descents_within(values, curve, count);
        if values[count - 2] > values[count - 1] {
            assert(all == before.push(last));
            assert(all[before.len() as int] == last);
            if all.contains(d) && d != last {
                let i = choose|i: int| 0 <= i < all.len() && all[i] == d;
                assert(before[i] == d);
            }
            if before.contains(d) {
                let i = choose|i: int| 0 <= i < before.len() && before[i] == d;
                assert(all[i] == d);
            }
        }
    }
}

/// A place is reported exactly when a curve goes down there.
pub proof fn law_descents_are_the_falling_steps(curves: Seq<Seq<u16>>, d: Descent)
    requires
        curves.len() <= usize::MAX,
        forall|i: int| 0 <= i < curves.len() ==> (#[trigger] curves[i]).len() <= usize::MAX,
    ensures
        descents(curves).contains(d) <==> {
            &&& d.curve < curves.len()
            &&& d.next == d.prev + 1
            &&& d.next < curves[d.curve as int].len()
            &&& curves[d.curve as int][d.prev as int] > curves[d.curve as int][d.next as int]
        },
    decreases curves.len(),
{
    if curves.len() > 0 {
        let short = curves.drop_last();
        let last = curves.last();
        let index = (curves.len() - 1) as usize;
        law_descents_are_the_falling_steps(short, d);
        lemma_descents_within(last, index, last.len(), d);
        let before = descents(short);
        let here = descents_within(last, index, last.len());
        let all = before + here;
        if all.contains(d) {
            let i = choose|i: int| 0 <= i < all.len() && all[i] == d;
            if i < before.len() {
                assert(before[i] == d);
            } else {
                assert(here[i - before.len()] == d);
            }
        }
        if before.contains(d) {
            let i = choose|i: int| 0 <= i < before.len() && before[i] == d;
            assert(all[i] == d);
        }
        if here.contains(d) {
            let i = choose|i: int| 0 <= i < here.len() && here[i] == d;
            assert(all[before.len() + i] == d);
        }
        if d.curve < short.len() {
            assert(short[d.curve as int] == curves[d.curve as int]);
        }
    }
}

proof fn lemma_steps_rise(values: Seq<u16>, i: int, j: int)
    requires
        0 <= i <= j < values.len(),
        forall|k: int| 0 <= k < values.len() - 1 ==> #[trigger] values[k] <= values[k + 1],
    ensures
        values[i] <= values[j],
    decreases j - i,
{
    if i < j {
        lemma_steps_rise(values, i, j - 1);
        assert(values[j - 1] <= values[j - 1 + 1]);
    }
}

/// Nothing is reported exactly when every curve rises from start to end.
pub proof fn law_no_descent_means_rising(curves: Seq<Seq<u16>>)
    requires
        curves.len() <= usize::MAX,
        forall|i: int| 0 <= i < curves.len() ==> (#[trigger] curves[i]).len() <= usize::MAX,
    ensures
        descents(curves).len() == 0 <==> forall|i: int|
            0 <= i < curves.len() ==> is_rising(#[trigger] curves[i]),
{
    let all = descents(curves);
    if all.len() > 0 {
        let d = all[0];
        assert(all.contains(d));
        law_descents_are_the_falling_steps(curves, d);
        let values = curves[d.curve as int];
        assert(!is_rising(values)) by {
            assert(values[d.prev as int] > values[d.next as int]);
        }
    } else {
        assert forall|i: int| 0 <= i < curves.len() implies is_rising(#[trigger] curves[i]) by {
            let values = curves[i];
            assert forall|k: int| 0 <= k < values.len() - 1 implies #[trigger] values[k]
                <= values[k + 1] by {
                let d = Descent { curve: i as usize, prev: k as usize, next: (k + 1) as usize };
                law_descents_are_the_falling_steps(curves, d);
                assert(!all.contains(d));
            }
            assert forall|a: int, b: int| 0 <= a <= b < values.len() implies values[a]
                <= values[b] by {
                lemma_steps_rise(values, a, b);
            }
        }
    }
}

proof fn lemma_descents_within_in_order(
    values: Seq<u16>,
    curve: usize,
    count: nat,
    i: int,
    j: int,
)
    requires
        count <= values.len(),
        count <= usize::MAX,
        0 <= i <= j < descents_within(values, curve, count).len(),
    ensures
        descents_within(values, curve, count)[j].curve == curve,
        descents_within(values, curve, count)[j].prev + 1 < count,
        i < j ==> descents_within(values, curve, count)[i].prev < descents_within(
            values,
            curve,
            count,
        )[j].prev,
    decreases count,
{
    if count >= 2 {
        let before = descents_within(values, curve, (count - 1) as nat);
        if j < before.len() {
            lemma_descents_within_in_order(values, curve, (count - 1) as nat, i, j);
        } else if i < before.len() {
            lemma_descents_within_in_order(values, curve, (count - 1) as nat, i, i);
        }
    }
}

/// Descents are reported in order, each once: curve by curve, and from the start of a curve to
/// its end.
pub proof fn law_descents_are_in_order(curves: Seq<Seq<u16>>, i: int, j: int)
    requires
        curves.len() <= usize::MAX,
        forall|c: int| 0 <= c < curves.len() ==> (#[trigger] curves[c]).len() <= usize::MAX,
        0 <= i < j < descents(curves).len(),
    ensures
        ({
            let first = descents(curves)[i];
            let second = descents(curves)[j];
            first.curve < second.curve || (first.curve == second.curve && first.prev < second.prev)
        }),
    decreases curves.len(),
{
    if curves.len() > 0 {
        let short = curves.drop_last();
        let last = curves.last();
        let index = (curves.len() - 1) as usize;
        let before = descents(short);
        let here = descents_within(last, index, last.len());
        assert(descents(curves) == before + here);
        assert forall|c: int| 0 <= c < short.len() implies (#[trigger] short[c]).len()
            <= usize::MAX by {
            assert(short[c] == curves[c]);
        }
        if j < before.len() {
            law_descents_are_in_order(short, i, j);
        } else if i < before.len() {
            assert(before.contains(before[i]));
            law_descents_are_the_falling_steps(short, before[i]);
            let at = j - before.len();
            lemma_descents_within_in_order(last, index, last.len(), at, at);
        } else {
            let at = i - before.len();
            lemma_descents_within_in_order(last, index, last.len(), at, at);
            lemma_descents_within_in_order(last, index, last.len(), at, j - before.len());
        }
    }
}

} // verus!
