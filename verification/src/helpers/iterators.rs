//! Leaving out a range of the items of a vector.

use vstd::prelude::*;

verus! {

/// The items of `s` but those at the indices from `start` up to, and
/// without, `end`.
pub open spec fn skipping<T>(s: Seq<T>, start: int, end: int) -> Seq<T>
    decreases s.len(),
{
    if s.len() == 0 {
        Seq::empty()
    } else if start <= s.len() - 1 < end {
        skipping(s.drop_last(), start, end)
    } else {
        skipping(s.drop_last(), start, end).push(s.last())
    }
}

/// The items of `v` in reverse order.
pub fn reversed<T>(v: Vec<T>) -> (result: Vec<T>)
    ensures
        result@ == v@.reverse(),
{
    let mut source = v;
    let mut result: Vec<T> = Vec::new();
    let ghost all = source@;
    proof {
        assert(all.take(all.len() as int) =~= all);
        assert(result@ =~= all.skip(all.len() as int).reverse());
    }
    while source.len() > 0
        invariant
            source@ == all.take(source.len() as int),
            source.len() <= all.len(),
            result@ == all.skip(source.len() as int).reverse(),
        decreases source.len(),
    {
        let ghost n = source.len() as int;
        match source.pop() {
            None => {},
            Some(item) => {
                result.push(item);
                proof {
                    assert(source@ =~= all.take(n - 1));
                    assert(item == all[n - 1]);
                    assert(result@ =~= all.skip(n - 1).reverse());
                }
            },
        }
    }
    proof {
        assert(all.skip(0) =~= all);
    }
    result
}

/// The items of `list` but those at the indices from `skip_start` up to,
/// and without, `skip_end`, in order.
pub fn skip_iterator<T>(list: Vec<T>, skip_start: usize, skip_end: usize) -> (result: Vec<T>)
    ensures
        result@ == skipping(list@, skip_start as int, skip_end as int),
{
    let mut source = list;
    let mut kept: Vec<T> = Vec::new();
    let ghost all = source@;
    proof {
        assert(all.take(all.len() as int) =~= all);
    }
    while source.len() > 0
        invariant
            source@ == all.take(source.len() as int),
            source.len() <= all.len(),
            skipping(all, skip_start as int, skip_end as int) == skipping(
                source@,
                skip_start as int,
                skip_end as int,
            ) + kept@.reverse(),
        decreases source.len(),
    {
        let ghost n = source.len() as int;
        let ghost before = source@;
        let index = source.len() - 1;
        match source.pop() {
            None => {},
            Some(item) => {
                proof {
                    assert(source@ =~= all.take(n - 1));
                    assert(before.drop_last() =~= source@);
                    assert(item == before.last());
                }
                if !(skip_start <= index && index < skip_end) {
                    let ghost old_kept = kept@;
                    kept.push(item);
                    proof {
                        assert(kept@.reverse() =~= seq![item] + old_kept.reverse());
                        assert(skipping(source@, skip_start as int, skip_end as int).push(item)
                            + old_kept.reverse() =~= skipping(
                            source@,
                            skip_start as int,
                            skip_end as int,
                        ) + kept@.reverse());
                    }
                }
            },
        }
    }
    let result = reversed(kept);
    proof {
        assert(kept@.reverse() =~= skipping(all, skip_start as int, skip_end as int));
    }
    result
}

} // verus!
