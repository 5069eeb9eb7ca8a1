//! Orderings and combinations of the items of vectors.

use vstd::prelude::*;
use crate::collection::combinations::{
    accumulated, appended, cartesian, choices, combined, extended, led, permutations as orderings,
};
use crate::helpers::iterators::reversed;

verus! {

/// The items of the vectors that `v` holds, vector by vector.
pub open spec fn rows<T>(v: Seq<Vec<T>>) -> Seq<Seq<T>> {
    v.map_values(|row: Vec<T>| row@)
}

/// The items of `list` but the one at `index`.
fn without<T: Copy>(list: &Vec<T>, index: usize) -> (result: Vec<T>)
    requires
        index < list.len(),
    ensures
        result@ == list@.remove(index as int),
{
    let mut result: Vec<T> = Vec::new();
    let mut i: usize = 0;
    while i < list.len()
        invariant
            i <= list.len(),
            index < list.len(),
            result@ == if i <= index {
                list@.take(i as int)
            } else {
                list@.remove(index as int).take(i - 1)
            },
        decreases list.len() - i,
    {
        if i != index {
            result.push(list[i]);
        }
        proof {
            if i < index {
                assert(result@ =~= list@.take(i + 1));
            } else if i == index {
                assert(result@ =~= list@.take(i + 1).drop_last());
                assert(list@.take(i as int) =~= list@.remove(index as int).take(i as int));
            } else {
                assert(result@ =~= list@.remove(index as int).take(i as int));
            }
            if i + 1 <= index {
            } else {
                assert(result@ =~= list@.remove(index as int).take(i as int));
            }
        }
        i += 1;
    }
    proof {
        assert(list@.remove(index as int).take(list.len() - 1) =~= list@.remove(index as int));
    }
    result
}

/// The vector with `first` before the items of `rest`.
fn prefixed<T: Copy>(first: T, rest: &Vec<T>) -> (result: Vec<T>)
    ensures
        result@ == seq![first] + rest@,
{
    let mut result: Vec<T> = Vec::new();
    result.push(first);
    let mut i: usize = 0;
    while i < rest.len()
        invariant
            i <= rest.len(),
            result@ == seq![first] + rest@.take(i as int),
        decreases rest.len() - i,
    {
        result.push(rest[i]);
        proof {
            assert(result@ =~= seq![first] + rest@.take(i + 1));
        }
        i += 1;
    }
    proof {
        assert(rest@.take(rest.len() as int) =~= rest@);
    }
    result
}

/// The vector with `last` after the items of `start`.
fn suffixed<T: Copy>(start: &Vec<T>, last: T) -> (result: Vec<T>)
    ensures
        result@ == start@.push(last),
{
    let mut result: Vec<T> = Vec::new();
    let mut i: usize = 0;
    while i < start.len()
        invariant
            i <= start.len(),
            result@ == start@.take(i as int),
        decreases start.len() - i,
    {
        result.push(start[i]);
        proof {
            assert(result@ =~= start@.take(i + 1));
        }
        i += 1;
    }
    proof {
        assert(start@.take(start.len() as int) =~= start@);
    }
    result.push(last);
    result
}

/// The orderings of `list`: none for the empty vector, and as many as the
/// factorial of the number of its items for every other.
pub fn permutations<T: Copy>(list: Vec<T>) -> (result: Vec<Vec<T>>)
    ensures
        rows(result@) == orderings(list@),
    decreases list.len(),
{
    let mut results: Vec<Vec<T>> = Vec::new();
    let count = list.len();
    if count == 0 {
        proof {
            assert(rows(results@) =~= orderings(list@));
        }
        return results;
    }
    if count == 1 {
        let ghost items = list@;
        results.push(list);
        proof {
            assert(rows(results@) =~= orderings(items));
        }
        return results;
    }
    let ghost all = list@;
    let mut i: usize = count;
    proof {
        assert(rows(results@) + choices(all, i as int) =~= choices(all, count as int));
    }
    while i > 0
        invariant
            0 <= i <= count == list.len(),
            all == list@,
            rows(results@) + choices(all, i as int) == choices(all, count as int),
        decreases i,
    {
        i -= 1;
        let others = without(&list, i);
        let rest = permutations(others);
        let ghost first = led(all[i as int], orderings(all.remove(i as int)));
        let ghost base = rows(results@);
        let mut k: usize = rest.len();
        proof {
            assert(rows(rest@).len() == rest.len());
            assert(first.reverse().take(0) =~= Seq::<Seq<T>>::empty());
            assert(base + first.reverse().take(0) =~= base);
        }
        while k > 0
            invariant
                0 <= k <= rest.len(),
                i < list.len(),
                all == list@,
                rows(rest@) == orderings(all.remove(i as int)),
                first == led(all[i as int], rows(rest@)),
                rows(results@) == base + first.reverse().take(rest.len() - k),
            decreases k,
        {
            k -= 1;
            let row = prefixed(list[i], &rest[k]);
            let ghost before = rows(results@);
            results.push(row);
            proof {
                let done = rest.len() - k - 1;
                assert(rows(rest@)[k as int] == rest[k as int]@);
                assert(first.reverse()[done] == first[k as int]);
                assert(rows(results@) =~= before.push(row@));
                assert(first.reverse().take(done + 1) =~= first.reverse().take(done).push(row@));
                assert(rows(results@) =~= base + first.reverse().take(done + 1));
            }
        }
        proof {
            assert(first.reverse().take(rest.len() as int) =~= first.reverse());
            assert(rows(results@) + choices(all, i as int) =~= base + choices(all, i + 1));
        }
    }
    proof {
        assert(rows(results@) + choices(all, 0) =~= rows(results@));
    }
    results
}

/// Each of `accumulator` with each item of `list` pushed onto it: first
/// those made from the first vector, in the order of `list`.
fn extend_rows<T: Copy>(accumulator: &Vec<Vec<T>>, list: &Vec<T>) -> (result: Vec<Vec<T>>)
    ensures
        rows(result@) == extended(rows(accumulator@), list@, accumulator.len() as int),
{
    let ghost deep = rows(accumulator@);
    let mut result: Vec<Vec<T>> = Vec::new();
    let mut m: usize = 0;
    proof {
        assert(rows(result@) =~= extended(deep, list@, 0));
    }
    while m < accumulator.len()
        invariant
            0 <= m <= accumulator.len(),
            deep == rows(accumulator@),
            rows(result@) == extended(deep, list@, m as int),
        decreases accumulator.len() - m,
    {
        let ghost made = rows(result@);
        let mut j: usize = 0;
        proof {
            assert(made + appended(deep[m as int], list@, 0) =~= made);
        }
        while j < list.len()
            invariant
                0 <= j <= list.len(),
                m < accumulator.len(),
                deep == rows(accumulator@),
                rows(result@) == made + appended(deep[m as int], list@, j as int),
            decreases list.len() - j,
        {
            let row = suffixed(&accumulator[m], list[j]);
            let ghost before = rows(result@);
            result.push(row);
            proof {
                assert(deep[m as int] == accumulator[m as int]@);
                assert(rows(result@) =~= before.push(row@));
                assert(appended(deep[m as int], list@, j + 1) =~= appended(
                    deep[m as int],
                    list@,
                    j as int,
                ).push(row@));
                assert(rows(result@) =~= made + appended(deep[m as int], list@, j + 1));
            }
            j += 1;
        }
        m += 1;
    }
    result
}

/// Every vector that takes one item from each of the vectors of `list`, in
/// order: one empty vector where `list` is empty, and none where one of
/// its vectors is.
pub fn combinations<T: Copy>(list: Vec<Vec<T>>) -> (result: Vec<Vec<T>>)
    ensures
        rows(result@) == cartesian(rows(list@)),
{
    let ghost deep = rows(list@);
    let mut accumulator: Vec<Vec<T>> = Vec::new();
    accumulator.push(Vec::new());
    let mut n: usize = 0;
    proof {
        assert(rows(accumulator@) =~= seq![Seq::<T>::empty()]);
    }
    while n < list.len()
        invariant
            0 <= n <= list.len(),
            deep == rows(list@),
            rows(accumulator@) == accumulated(seq![Seq::<T>::empty()], deep, n as int),
        decreases list.len() - n,
    {
        proof {
            assert(deep[n as int] == list[n as int]@);
            assert(rows(accumulator@).len() == accumulator.len());
        }
        accumulator = extend_rows(&accumulator, &list[n]);
        n += 1;
    }
    accumulator
}

/// Every vector of `accumulator` with every item of `list` pushed onto it,
/// the last made first. Where `list` is empty, the vectors as they are;
/// where there are no vectors, a vector for each item of `list`.
pub fn combine_append<T: Copy>(accumulator: Vec<Vec<T>>, list: Vec<T>) -> (result: Vec<Vec<T>>)
    ensures
        rows(result@) == combined(rows(accumulator@), list@),
{
    if list.len() == 0 {
        return accumulator;
    }
    if accumulator.len() == 0 {
        proof {
            assert(rows(accumulator@).len() == 0);
        }
        return deepen(list);
    }
    let made = extend_rows(&accumulator, &list);
    proof {
        assert(rows(accumulator@).len() == accumulator.len());
    }
    let result = reversed(made);
    proof {
        assert(rows(result@) =~= rows(made@).reverse());
    }
    result
}

/// A vector for each item of `list`, which holds that item alone.
pub fn deepen<T>(list: Vec<T>) -> (result: Vec<Vec<T>>)
    ensures
        rows(result@) == list@.map_values(|x: T| seq![x]),
{
    let ghost all = list@;
    let mut source = reversed(list);
    let mut result: Vec<Vec<T>> = Vec::new();
    proof {
        assert(rows(result@) =~= all.take(0).map_values(|x: T| seq![x]));
        assert(source@.take(source.len() as int) =~= source@);
    }
    while source.len() > 0
        invariant
            source.len() <= all.len(),
            source@ == all.reverse().take(source.len() as int),
            rows(result@) == all.take(all.len() - source.len()).map_values(|x: T| seq![x]),
        decreases source.len(),
    {
        let ghost n = source.len() as int;
        let ghost done = all.len() - n;
        match source.pop() {
            None => {},
            Some(item) => {
                let mut single: Vec<T> = Vec::new();
                single.push(item);
                let ghost before = rows(result@);
                result.push(single);
                proof {
                    assert(source@ =~= all.reverse().take(n - 1));
                    assert(item == all.reverse()[n - 1]);
                    assert(item == all[done]);
                    assert(single@ =~= seq![item]);
                    assert(rows(result@) =~= before.push(seq![item]));
                    assert(rows(result@) =~= all.take(done + 1).map_values(|x: T| seq![x]));
                }
            },
        }
    }
    proof {
        assert(all.take(all.len() as int) =~= all);
    }
    result
}

} // verus!
