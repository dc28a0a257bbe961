//! A stable sort for values that know their order.

use vstd::prelude::*;

verus! {

/// Values that know their order. Different values may have the same rank.
pub trait Ranked: Sized {
    /// The value may stand before another one.
    spec fn before(&self, other: &Self) -> bool;

    proof fn lemma_total(a: &Self, b: &Self)
        ensures
            a.before(b) || b.before(a),
    ;

    proof fn lemma_transitive(a: &Self, b: &Self, c: &Self)
        requires
            a.before(b),
            b.before(c),
        ensures
            a.before(c),
    ;

    /// Tells whether the value may stand before another one.
    fn may_precede(&self, other: &Self) -> (result: bool)
        ensures
            result == self.before(other),
    ;
}

/// The value `a`, which came at position `i`, stands before the value `b`, which came at position
/// `j`: by its rank, or between equal ranks because it came first.
pub open spec fn stands_before<T: Ranked>(a: T, i: int, b: T, j: int) -> bool {
    a.before(&b) && (b.before(&a) ==> i < j)
}

/// `places` says for each value of `output` at which position of `input` it came, and the values
/// stand in order.
pub open spec fn sorted_by_places<T: Ranked>(
    input: Seq<T>,
    output: Seq<T>,
    places: Seq<int>,
) -> bool {
    &&& output.len() == places.len()
    &&& forall|k: int|
        0 <= k < output.len() ==> 0 <= #[trigger] places[k] < input.len() && output[k]
            == input[places[k]]
    &&& forall|i: int, j: int|
        0 <= i < j < output.len() ==> stands_before(
            #[trigger] output[i],
            places[i],
            #[trigger] output[j],
            places[j],
        )
}

/// `output` holds the values of `input` in their order, values of the same rank in the order in
/// which they came.
pub open spec fn is_stable_sort<T: Ranked>(input: Seq<T>, output: Seq<T>) -> bool {
    &&& output.len() == input.len()
    &&& exists|places: Seq<int>| #[trigger] sorted_by_places(input, output, places)
}

proof fn lemma_stands_transitive<T: Ranked>(a: T, i: int, b: T, j: int, c: T, k: int)
    requires
        stands_before(a, i, b, j),
        stands_before(b, j, c, k),
    ensures
        stands_before(a, i, c, k),
{
    T::lemma_transitive(&a, &b, &c);
    if c.before(&a) {
        T::lemma_transitive(&b, &c, &a);
        T::lemma_transitive(&c, &a, &b);
    }
}

proof fn lemma_push_front<T: Ranked>(
    input: Seq<T>,
    tail: Seq<T>,
    places: Seq<int>,
    value: T,
    place: int,
)
    requires
        sorted_by_places(input, tail, places),
        0 <= place < input.len(),
        value == input[place],
        forall|k: int| 0 <= k < tail.len() ==> stands_before(value, place, #[trigger] tail[k], places[k]),
    ensures
        sorted_by_places(input, seq![value] + tail, seq![place] + places),
{
    let all = seq![value] + tail;
    let tags = seq![place] + places;
    assert forall|k: int| 0 <= k < all.len() implies 0 <= #[trigger] tags[k] < input.len()
        && all[k] == input[tags[k]] by {
        if k > 0 {
            assert(tags[k] == places[k - 1]);
            assert(all[k] == tail[k - 1]);
        }
    }
    assert forall|i: int, j: int| 0 <= i < j < all.len() implies stands_before(
        #[trigger] all[i],
        tags[i],
        #[trigger] all[j],
        tags[j],
    ) by {
        assert(all[j] == tail[j - 1]);
        if i > 0 {
            assert(all[i] == tail[i - 1]);
        }
    }
}

/// The values of a vector in reverse.
pub(crate) fn reversed<T>(values: Vec<T>) -> (result: Vec<T>)
    ensures
        result@ == values@.reverse(),
{
    let mut left = values;
    let mut result: Vec<T> = Vec::new();
    while left.len() > 0
        invariant
            left@ == values@.take(left@.len() as int),
            left@.len() + result@.len() == values@.len(),
            forall|k: int|
                0 <= k < result@.len() ==> #[trigger] result@[k] == values@[values@.len() - 1 - k],
        decreases left.len(),
    {
        if let Some(value) = left.pop() {
            assert(left@ =~= values@.take(left@.len() as int));
            result.push(value);
        }
    }
    assert(result@ =~= values@.reverse());
    result
}

/// Puts two sorted halves together.
fn merge<T: Ranked>(
    first: Vec<T>,
    second: Vec<T>,
    Ghost(input): Ghost<Seq<T>>,
    Ghost(p): Ghost<Seq<int>>,
    Ghost(q): Ghost<Seq<int>>,
    Ghost(middle): Ghost<int>,
) -> (result: (Vec<T>, Ghost<Seq<int>>))
    requires
        sorted_by_places(input, first@, p),
        sorted_by_places(input, second@, q),
        first@.len() + second@.len() == input.len(),
        forall|k: int| 0 <= k < p.len() ==> #[trigger] p[k] < middle,
        forall|k: int| 0 <= k < q.len() ==> #[trigger] q[k] >= middle,
    ensures
        result.0@.len() == input.len(),
        sorted_by_places(input, result.0@, result.1@),
{
    let ghost a = first@;
    let ghost b = second@;
    let mut left = first;
    let mut right = second;
    let mut back: Vec<T> = Vec::new();
    let ghost mut tags: Seq<int> = Seq::empty();
    assert(back@.reverse() =~= Seq::<T>::empty());
    while left.len() > 0 || right.len() > 0
        invariant
            sorted_by_places(input, a, p),
            sorted_by_places(input, b, q),
            a.len() + b.len() == input.len(),
            forall|k: int| 0 <= k < p.len() ==> #[trigger] p[k] < middle,
            forall|k: int| 0 <= k < q.len() ==> #[trigger] q[k] >= middle,
            left@ == a.take(left@.len() as int),
            right@ == b.take(right@.len() as int),
            left@.len() <= a.len(),
            right@.len() <= b.len(),
            left@.len() + right@.len() + back@.len() == input.len(),
            sorted_by_places(input, back@.reverse(), tags),
            forall|i: int, k: int|
                0 <= i < left@.len() && 0 <= k < tags.len() ==> stands_before(
                    #[trigger] a[i],
                    p[i],
                    #[trigger] back@.reverse()[k],
                    tags[k],
                ),
            forall|i: int, k: int|
                0 <= i < right@.len() && 0 <= k < tags.len() ==> stands_before(
                    #[trigger] b[i],
                    q[i],
                    #[trigger] back@.reverse()[k],
                    tags[k],
                ),
        decreases left.len() + right.len(),
    {
        let take_right: bool = if left.len() == 0 {
            true
        } else if right.len() == 0 {
            false
        } else {
            left[left.len() - 1].may_precede(&right[right.len() - 1])
        };
        let ghost before = back@;
        let ghost l = left@.len() - 1;
        let ghost r = right@.len() - 1;
        if take_right {
            proof {
                lemma_push_front(input, before.reverse(), tags, b[r], q[r]);
                if l >= 0 {
                    assert(stands_before(a[l], p[l], b[r], q[r]));
                    assert forall|i: int| 0 <= i <= l implies stands_before(
                        #[trigger] a[i],
                        p[i],
                        b[r],
                        q[r],
                    ) by {
                        if i < l {
                            lemma_stands_transitive(a[i], p[i], a[l], p[l], b[r], q[r]);
                        }
                    }
                }
            }
            if let Some(value) = right.pop() {
                assert(right@ =~= b.take(right@.len() as int));
                back.push(value);
            }
            proof {
                let whole = seq![b[r]] + before.reverse();
                assert(back@.reverse() =~= whole);
                let places = seq![q[r]] + tags;
                assert forall|i: int, k: int|
                    0 <= i < left@.len() && 0 <= k < places.len() implies stands_before(
                    #[trigger] a[i],
                    p[i],
                    #[trigger] whole[k],
                    places[k],
                ) by {
                    if k > 0 {
                        assert(whole[k] == before.reverse()[k - 1]);
                    }
                }
                assert forall|i: int, k: int|
                    0 <= i < right@.len() && 0 <= k < places.len() implies stands_before(
                    #[trigger] b[i],
                    q[i],
                    #[trigger] whole[k],
                    places[k],
                ) by {
                    if k > 0 {
                        assert(whole[k] == before.reverse()[k - 1]);
                    }
                }
                tags = places;
            }
        } else {
            proof {
                lemma_push_front(input, before.reverse(), tags, a[l], p[l]);
                if r >= 0 {
                    T::lemma_total(&a[l], &b[r]);
                    assert(stands_before(b[r], q[r], a[l], p[l]));
                    assert forall|i: int| 0 <= i <= r implies stands_before(
                        #[trigger] b[i],
                        q[i],
                        a[l],
                        p[l],
                    ) by {
                        if i < r {
                            lemma_stands_transitive(b[i], q[i], b[r], q[r], a[l], p[l]);
                        }
                    }
                }
            }
            if let Some(value) = left.pop() {
                assert(left@ =~= a.take(left@.len() as int));
                back.push(value);
            }
            proof {
                let whole = seq![a[l]] + before.reverse();
                assert(back@.reverse() =~= whole);
                let places = seq![p[l]] + tags;
                assert forall|i: int, k: int|
                    0 <= i < left@.len() && 0 <= k < places.len() implies stands_before(
                    #[trigger] a[i],
                    p[i],
                    #[trigger] whole[k],
                    places[k],
                ) by {
                    if k > 0 {
                        assert(whole[k] == before.reverse()[k - 1]);
                    }
                }
                assert forall|i: int, k: int|
                    0 <= i < right@.len() && 0 <= k < places.len() implies stands_before(
                    #[trigger] b[i],
                    q[i],
                    #[trigger] whole[k],
                    places[k],
                ) by {
                    if k > 0 {
                        assert(whole[k] == before.reverse()[k - 1]);
                    }
                }
                tags = places;
            }
        }
    }
    (reversed(back), Ghost(tags))
}

fn sort_part<T: Ranked>(values: Vec<T>, Ghost(input): Ghost<Seq<T>>, Ghost(start): Ghost<int>) -> (
    result: (Vec<T>, Ghost<Seq<int>>))
    requires
        0 <= start,
        start + values@.len() <= input.len(),
        values@ == input.subrange(start, start + values@.len()),
    ensures
        result.0@.len() == values@.len(),
        sorted_by_places(input, result.0@, result.1@),
        forall|k: int|
            0 <= k < result.1@.len() ==> start <= #[trigger] result.1@[k] < start + values@.len(),
    decreases values@.len(),
{
    if values.len() <= 1 {
        let ghost places: Seq<int> = Seq::new(values@.len(), |k: int| start + k);
        return (values, Ghost(places));
    }
    let middle: usize = values.len() / 2;
    let ghost all = values@;
    let mut first = values;
    let second = first.split_off(middle);
    assert(first@ =~= input.subrange(start, start + middle));
    assert(second@ =~= input.subrange(start + middle, start + all.len()));
    let (first, p) = sort_part(first, Ghost(input), Ghost(start));
    let (second, q) = sort_part(second, Ghost(input), Ghost(start + middle));
    let ghost part = input.subrange(start, start + all.len());
    let ghost p0: Seq<int> = Seq::new(p@.len(), |k: int| p@[k] - start);
    let ghost q0: Seq<int> = Seq::new(q@.len(), |k: int| q@[k] - start);
    proof {
        lemma_shift(input, first@, p@, start, all.len() as int);
        lemma_shift(input, second@, q@, start, all.len() as int);
    }
    let (merged, places) = merge(
        first,
        second,
        Ghost(part),
        Ghost(p0),
        Ghost(q0),
        Ghost(middle as int),
    );
    let ghost shifted: Seq<int> = Seq::new(places@.len(), |k: int| places@[k] + start);
    assert forall|k: int| 0 <= k < shifted.len() implies start <= #[trigger] shifted[k] < start
        + all.len() && merged@[k] == input[shifted[k]] by {
        assert(0 <= places@[k] < part.len());
    }
    assert(sorted_by_places(input, merged@, shifted)) by {
        assert forall|i: int, j: int| 0 <= i < j < merged@.len() implies stands_before(
            #[trigger] merged@[i],
            shifted[i],
            #[trigger] merged@[j],
            shifted[j],
        ) by {
            assert(stands_before(merged@[i], places@[i], merged@[j], places@[j]));
        }
    }
    (merged, Ghost(shifted))
}

proof fn lemma_shift<T: Ranked>(
    input: Seq<T>,
    output: Seq<T>,
    places: Seq<int>,
    start: int,
    length: int,
)
    requires
        0 <= start,
        start + length <= input.len(),
        sorted_by_places(input, output, places),
        forall|k: int| 0 <= k < places.len() ==> start <= #[trigger] places[k] < start + length,
    ensures
        sorted_by_places(
            input.subrange(start, start + length),
            output,
            Seq::new(places.len(), |k: int| places[k] - start),
        ),
{
    let part = input.subrange(start, start + length);
    let shifted: Seq<int> = Seq::new(places.len(), |k: int| places[k] - start);
    assert forall|k: int| 0 <= k < output.len() implies 0 <= #[trigger] shifted[k] < part.len()
        && output[k] == part[shifted[k]] by {
        assert(start <= places[k] < start + length);
    }
    assert forall|i: int, j: int| 0 <= i < j < output.len() implies stands_before(
        #[trigger] output[i],
        shifted[i],
        #[trigger] output[j],
        shifted[j],
    ) by {
        assert(stands_before(output[i], places[i], output[j], places[j]));
    }
}

/// Sorts values by their order. Values of the same rank stay in the order in which they came.
pub fn stable_sort<T: Ranked>(values: Vec<T>) -> (sorted: Vec<T>)
    ensures
        is_stable_sort(values@, sorted@),
{
    assert(values@ =~= values@.subrange(0, values@.len() as int));
    let ghost input = values@;
    let (sorted, places) = sort_part(values, Ghost(input), Ghost(0));
    assert(sorted_by_places(input, sorted@, places@));
    sorted
}

/// Sorting loses no value and doubles none: each value of the input stands at one place of the
/// output.
pub proof fn law_sort_keeps_values<T: Ranked>(
    input: Seq<T>,
    output: Seq<T>,
    places: Seq<int>,
)
    requires
        output.len() == input.len(),
        sorted_by_places(input, output, places),
    ensures
        places.no_duplicates(),
        forall|i: int| 0 <= i < input.len() ==> #[trigger] places.contains(i),
{
    assert forall|i: int, j: int| 0 <= i < places.len() && 0 <= j < places.len() && i
        != j implies places[i] != places[j] by {
        let (a, b) = if i < j {
            (i, j)
        } else {
            (j, i)
        };
        assert(stands_before(output[a], places[a], output[b], places[b]));
        assert(output[a] == input[places[a]] && output[b] == input[places[b]]);
        T::lemma_total(&output[a], &output[a]);
    }
    places.unique_seq_to_set();
    vstd::seq_lib::seq_to_set_is_finite(places);
    let all = vstd::set_lib::set_int_range(0, input.len() as int);
    vstd::set_lib::lemma_int_range(0, input.len() as int);
    assert(places.to_set().subset_of(all)) by {
        assert forall|place: int| places.to_set().contains(place) implies all.contains(place) by {
            let k = places.index_of(place);
            assert(places[k] == place);
        }
    }
    vstd::set_lib::lemma_subset_equality(places.to_set(), all);
    assert forall|i: int| 0 <= i < input.len() implies #[trigger] places.contains(i) by {
        assert(all.contains(i));
        assert(places.to_set().contains(i));
    }
}

/// Sorting gives the values of the input, in their order.
pub proof fn law_sorted_values_are_in_order<T: Ranked>(input: Seq<T>, output: Seq<T>)
    requires
        is_stable_sort(input, output),
    ensures
        output.len() == input.len(),
        forall|value: T| #[trigger] output.contains(value) <==> input.contains(value),
        forall|i: int, j: int|
            #![trigger output[i], output[j]]
            0 <= i < j < output.len() ==> output[i].before(&output[j]),
{
    let places = choose|places: Seq<int>| #[trigger] sorted_by_places(input, output, places);
    law_sort_keeps_values(input, output, places);
    assert forall|value: T| #[trigger] output.contains(value) == input.contains(value) by {
        if output.contains(value) {
            let k = output.index_of(value);
            assert(output[k] == input[places[k]]);
        }
        if input.contains(value) {
            let i = input.index_of(value);
            assert(places.contains(i));
            let k = places.index_of(i);
            assert(output[k] == input[places[k]]);
        }
    }
    assert forall|i: int, j: int|
        #![trigger output[i], output[j]]
        0 <= i < j < output.len() implies output[i].before(&output[j]) by {
        assert(stands_before(output[i], places[i], output[j], places[j]));
    }
}

/// Every value of a sequence stands before those behind it, in an order in which no two values stand
/// before each other.
pub open spec fn strictly_ordered<T>(values: Seq<T>, before: spec_fn(T, T) -> bool) -> bool {
    forall|i: int, j: int|
        0 <= i < j < values.len() ==> before(#[trigger] values[i], #[trigger] values[j]) && !before(
            values[j],
            values[i],
        )
}

/// Values have one strict order: two sequences in it that hold the same values are equal.
pub proof fn law_orders_are_unique<T>(
    first: Seq<T>,
    second: Seq<T>,
    before: spec_fn(T, T) -> bool,
)
    requires
        strictly_ordered(first, before),
        strictly_ordered(second, before),
        forall|value: T| #[trigger] first.contains(value) <==> second.contains(value),
    ensures
        first == second,
    decreases first.len(),
{
    if first.len() == 0 {
        if second.len() > 0 {
            assert(second.contains(second[0]) && first.contains(second[0]));
        }
        assert(first =~= second);
    } else {
        let a = first.last();
        assert(first.contains(a));
        let p = second.index_of(a);
        let b = second.last();
        assert(second.contains(b) && first.contains(b));
        let q = first.index_of(b);
        if p < second.len() - 1 {
            assert(before(second[p], second[second.len() - 1]));
            assert(!before(second[second.len() - 1], second[p]));
            if q < first.len() - 1 {
                assert(before(first[q], first[first.len() - 1]));
            }
        }
        assert(a == b);
        let x = first.drop_last();
        let y = second.drop_last();
        assert forall|value: T| #[trigger] x.contains(value) == y.contains(value) by {
            lemma_without_last(first, value, before);
            lemma_without_last(second, value, before);
        }
        law_orders_are_unique(x, y, before);
        assert(first =~= x.push(a));
        assert(second =~= y.push(b));
    }
}

proof fn lemma_without_last<T>(values: Seq<T>, value: T, before: spec_fn(T, T) -> bool)
    requires
        values.len() > 0,
        strictly_ordered(values, before),
    ensures
        values.drop_last().contains(value) <==> values.contains(value) && value != values.last(),
{
    let rest = values.drop_last();
    let last = values.len() - 1;
    if rest.contains(value) {
        let i = rest.index_of(value);
        assert(values[i] == value);
        assert(before(values[i], values[last]) && !before(values[last], values[i]));
    }
    if values.contains(value) && value != values.last() {
        let i = values.index_of(value);
        assert(rest[i] == value);
    }
}

} // verus!
