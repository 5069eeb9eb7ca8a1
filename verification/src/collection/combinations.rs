//! Orderings and combinations of sequences.
//!
//! The orderings of a sequence are all the sequences that hold its elements
//! in some order. The combinations of sequences are all the sequences that
//! take one element from each of them, in order. Both are given in the
//! order in which the lists and the vectors of this library produce them.

use vstd::prelude::*;

verus! {

/// Each of `ps` with `x` put before it.
pub open spec fn led<T>(x: T, ps: Seq<Seq<T>>) -> Seq<Seq<T>> {
    Seq::new(ps.len(), |i: int| seq![x] + ps[i])
}

/// The orderings of `s`, in the order in which `permute` returns them: none
/// for the empty sequence, the sequence itself where it has one element,
/// and else the orderings that start with each of its elements.
pub open spec fn permutations<T>(s: Seq<T>) -> Seq<Seq<T>>
    decreases s.len(), s.len() + 1,
{
    if s.len() == 0 {
        Seq::empty()
    } else if s.len() == 1 {
        seq![s]
    } else {
        choices(s, s.len() as int)
    }
}

/// The orderings of `s` that start with one of its first `n` elements:
/// those that start with a later element come first, and among those that
/// start with the same element, the orderings of the others come in
/// reverse.
pub open spec fn choices<T>(s: Seq<T>, n: int) -> Seq<Seq<T>>
    decreases s.len(), n,
{
    if n <= 0 || n > s.len() {
        Seq::empty()
    } else {
        led(s[n - 1], permutations(s.remove(n - 1))).reverse() + choices(s, n - 1)
    }
}

/// The sequence `a` with each of the first `n` elements of `flat` pushed
/// onto it, in order.
pub open spec fn appended<T>(a: Seq<T>, flat: Seq<T>, n: int) -> Seq<Seq<T>> {
    Seq::new(n as nat, |j: int| a.push(flat[j]))
}

/// Each of the first `m` sequences of `acc` with each element of `flat`
/// pushed onto it: first those made from the first sequence, in the order
/// of `flat`, then those made from the second, and so on.
pub open spec fn extended<T>(acc: Seq<Seq<T>>, flat: Seq<T>, m: int) -> Seq<Seq<T>>
    decreases m,
{
    if m <= 0 || m > acc.len() {
        Seq::empty()
    } else {
        extended(acc, flat, m - 1) + appended(acc[m - 1], flat, flat.len() as int)
    }
}

/// What `combine` makes of the lists `deep` and the list `flat`: the lists
/// as they are where `flat` is empty; a list for each element of `flat`
/// where there are no lists; else every list with every element of `flat`
/// pushed onto it, the last made first.
pub open spec fn combined<T>(deep: Seq<Seq<T>>, flat: Seq<T>) -> Seq<Seq<T>> {
    if flat.len() == 0 {
        deep
    } else if deep.len() == 0 {
        flat.map_values(|x: T| seq![x])
    } else {
        extended(deep, flat, deep.len() as int).reverse()
    }
}

/// The sequences `acc`, each extended by one element of each of the first
/// `n` of `xss`, in every way.
pub open spec fn accumulated<T>(acc: Seq<Seq<T>>, xss: Seq<Seq<T>>, n: int) -> Seq<Seq<T>>
    decreases n,
{
    if n <= 0 || n > xss.len() {
        acc
    } else {
        let before = accumulated(acc, xss, n - 1);
        extended(before, xss[n - 1], before.len() as int)
    }
}

/// Every sequence that takes one element from each of `xss`, in order: one
/// empty sequence where `xss` is empty, and none where one of `xss` is.
pub open spec fn cartesian<T>(xss: Seq<Seq<T>>) -> Seq<Seq<T>> {
    accumulated(seq![Seq::<T>::empty()], xss, xss.len() as int)
}

/// The sum of the lengths of `xss`.
pub open spec fn total_len<T>(xss: Seq<Seq<T>>) -> nat
    decreases xss.len(),
{
    if xss.len() == 0 {
        0
    } else {
        total_len(xss.drop_last()) + xss.last().len()
    }
}

/// The flattened sequence has the sum of the lengths, and so has every
/// prefix of it.
pub proof fn lemma_total_len<T>(xss: Seq<Seq<T>>, n: int)
    requires
        0 <= n <= xss.len(),
    ensures
        xss.take(n).flatten().len() == total_len(xss.take(n)),
        total_len(xss.take(n)) <= total_len(xss),
        xss.flatten().len() == total_len(xss),
    decreases xss.len() - n,
{
    lemma_flatten_len(xss.take(n));
    lemma_flatten_len(xss);
    if n < xss.len() {
        lemma_total_len(xss, n + 1);
        assert(xss.take(n + 1).drop_last() =~= xss.take(n));
    } else {
        assert(xss.take(n) =~= xss);
    }
}

/// The flattened sequence has the sum of the lengths.
pub proof fn lemma_flatten_len<T>(xss: Seq<Seq<T>>)
    ensures
        xss.flatten().len() == total_len(xss),
    decreases xss.len(),
{
    if xss.len() > 0 {
        lemma_flatten_len(xss.drop_last());
        xss.drop_last().lemma_flatten_push(xss.last());
        assert(xss.drop_last().push(xss.last()) =~= xss);
    }
}

/// Sequences of sequences of the same lengths have the same total length.
pub proof fn lemma_total_len_shape<T, R>(xss: Seq<Seq<T>>, yss: Seq<Seq<R>>)
    requires
        xss.len() == yss.len(),
        forall|i: int| 0 <= i < xss.len() ==> (#[trigger] xss[i]).len() == yss[i].len(),
    ensures
        total_len(xss) == total_len(yss),
    decreases xss.len(),
{
    if xss.len() > 0 {
        lemma_total_len_shape(xss.drop_last(), yss.drop_last());
    }
}

/// Every ordering of a sequence is as long as the sequence, and there are
/// no more orderings that start with one of the first elements than there
/// are orderings.
pub proof fn lemma_permutations<T>(s: Seq<T>, n: int)
    requires
        0 <= n <= s.len(),
    ensures
        forall|i: int| 0 <= i < permutations(s).len() ==> (#[trigger] permutations(s)[i]).len() == s.len(),
        forall|i: int| 0 <= i < choices(s, n).len() ==> (#[trigger] choices(s, n)[i]).len() == s.len(),
        s.len() >= 2 ==> choices(s, n).len() <= permutations(s).len(),
        n > 0 ==> choices(s, n).len() == permutations(s.remove(n - 1)).len() + choices(s, n - 1).len(),
    decreases s.len(), s.len() - n, 1int,
{
    lemma_choices(s, n);
    if s.len() >= 2 {
        lemma_choices(s, s.len() as int);
        if n < s.len() {
            lemma_permutations(s, n + 1);
        }
    }
}

/// Every ordering that starts with one of the first elements is as long as
/// the sequence, and their number grows with each element.
pub proof fn lemma_choices<T>(s: Seq<T>, n: int)
    requires
        0 <= n <= s.len(),
    ensures
        forall|i: int| 0 <= i < choices(s, n).len() ==> (#[trigger] choices(s, n)[i]).len() == s.len(),
        n > 0 ==> choices(s, n).len() == permutations(s.remove(n - 1)).len() + choices(s, n - 1).len(),
    decreases s.len(), n, 0int,
{
    if n > 0 {
        lemma_choices(s, n - 1);
        let rest = s.remove(n - 1);
        if rest.len() >= 2 {
            lemma_choices(rest, rest.len() as int);
        }
        let first = led(s[n - 1], permutations(rest)).reverse();
        assert forall|i: int| 0 <= i < choices(s, n).len() implies (#[trigger] choices(s, n)[i]).len()
            == s.len() by {
            if i < first.len() {
                assert(choices(s, n)[i] == first[i]);
            } else {
                assert(choices(s, n)[i] == choices(s, n - 1)[i - first.len()]);
            }
        }
    }
}

/// Every element of `p` is an element of `s`.
pub open spec fn drawn_from<T>(p: Seq<T>, s: Seq<T>) -> bool {
    forall|j: int| 0 <= j < p.len() ==> s.contains(#[trigger] p[j])
}

/// Every ordering of a sequence consists of elements of the sequence, and
/// is as long as the sequence.
pub proof fn lemma_permutations_drawn<T>(s: Seq<T>)
    ensures
        forall|i: int|
            0 <= i < permutations(s).len() ==> drawn_from(#[trigger] permutations(s)[i], s)
                && permutations(s)[i].len() == s.len(),
    decreases s.len(), s.len() + 1,
{
    if s.len() == 0 {
        assert(permutations(s).len() == 0);
    } else if s.len() == 1 {
        assert(permutations(s) =~= seq![s]);
        assert forall|j: int| 0 <= j < s.len() implies s.contains(#[trigger] s[j]) by {}
        assert(drawn_from(s, s));
        assert forall|i: int| 0 <= i < permutations(s).len() implies drawn_from(
            #[trigger] permutations(s)[i],
            s,
        ) && permutations(s)[i].len() == s.len() by {
            assert(permutations(s)[i] == s);
        }
    } else {
        lemma_choices_drawn(s, s.len() as int);
        assert(permutations(s) == choices(s, s.len() as int));
    }
}

/// Every ordering that starts with one of the first elements of a sequence
/// consists of elements of the sequence, and is as long as the sequence.
pub proof fn lemma_choices_drawn<T>(s: Seq<T>, n: int)
    requires
        0 <= n <= s.len(),
    ensures
        forall|i: int|
            0 <= i < choices(s, n).len() ==> drawn_from(#[trigger] choices(s, n)[i], s) && choices(
                s,
                n,
            )[i].len() == s.len(),
    decreases s.len(), n,
{
    if n > 0 {
        lemma_choices_drawn(s, n - 1);
        let rest = s.remove(n - 1);
        lemma_permutations_drawn(rest);
        let orderings = permutations(rest);
        let first = led(s[n - 1], orderings).reverse();
        assert forall|i: int| 0 <= i < choices(s, n).len() implies drawn_from(
            #[trigger] choices(s, n)[i],
            s,
        ) && choices(s, n)[i].len() == s.len() by {
            if i < first.len() {
                let k = first.len() - 1 - i;
                let row = orderings[k];
                let whole = seq![s[n - 1]] + row;
                assert(choices(s, n)[i] == whole);
                assert(drawn_from(row, rest));
                assert forall|j: int| 0 <= j < whole.len() implies s.contains(#[trigger] whole[j]) by {
                    if j == 0 {
                        assert(s[n - 1] == whole[0]);
                    } else {
                        assert(whole[j] == row[j - 1]);
                        assert(rest.contains(row[j - 1]));
                        let w = choose|w: int| 0 <= w < rest.len() && rest[w] == row[j - 1];
                        if w < n - 1 {
                            assert(rest[w] == s[w]);
                        } else {
                            assert(rest[w] == s[w + 1]);
                        }
                    }
                }
            } else {
                assert(choices(s, n)[i] == choices(s, n - 1)[i - first.len()]);
            }
        }
    }
}

/// The product of the numbers from one up to `n`.
pub open spec fn factorial(n: nat) -> nat
    decreases n,
{
    if n == 0 {
        1
    } else {
        n * factorial((n - 1) as nat)
    }
}

/// The product of the lengths of the first `n` of `xss`.
pub open spec fn lengths_product<T>(xss: Seq<Seq<T>>, n: int) -> nat
    decreases n,
{
    if n <= 0 || n > xss.len() {
        1
    } else {
        lengths_product(xss, n - 1) * xss[n - 1].len()
    }
}

/// A sequence of one element or more has as many orderings as the
/// factorial of its length.
pub proof fn law_permutations_count<T>(s: Seq<T>)
    requires
        s.len() >= 1,
    ensures
        permutations(s).len() == factorial(s.len()),
    decreases s.len(), s.len() + 1,
{
    reveal_with_fuel(factorial, 2);
    if s.len() >= 2 {
        lemma_choices_count(s, s.len() as int);
    }
}

/// There are as many orderings that start with one of the first `n`
/// elements of a sequence as `n` times the factorial of the length of the
/// others.
pub proof fn lemma_choices_count<T>(s: Seq<T>, n: int)
    requires
        s.len() >= 2,
        0 <= n <= s.len(),
    ensures
        choices(s, n).len() == n * factorial((s.len() - 1) as nat),
    decreases s.len(), n,
{
    let others = factorial((s.len() - 1) as nat);
    if n <= 0 {
        assert(0 * others == 0) by (nonlinear_arith);
    } else {
        lemma_choices_count(s, n - 1);
        law_permutations_count(s.remove(n - 1));
        assert((n - 1) * others + others == n * others) by (nonlinear_arith);
    }
}

/// There are as many combinations of sequences as the product of their
/// lengths.
pub proof fn law_cartesian_count<T>(xss: Seq<Seq<T>>, n: int)
    requires
        0 <= n <= xss.len(),
    ensures
        accumulated(seq![Seq::<T>::empty()], xss, n).len() == lengths_product(xss, n),
        n == xss.len() ==> cartesian(xss).len() == lengths_product(xss, xss.len() as int),
    decreases n,
{
    if n > 0 {
        law_cartesian_count(xss, n - 1);
        let before = accumulated(seq![Seq::<T>::empty()], xss, n - 1);
        lemma_extended_len(before, xss[n - 1], before.len() as int);
    }
}

/// No element occurs twice in `s`.
pub open spec fn distinct<T>(s: Seq<T>) -> bool {
    forall|i: int, j: int| 0 <= i < j < s.len() ==> s[i] != s[j]
}

/// Every element of a sequence occurs in each of its orderings.
pub proof fn lemma_permutations_cover<T>(s: Seq<T>, p: Seq<T>)
    requires
        permutations(s).contains(p),
    ensures
        drawn_from(s, p),
    decreases s.len(), s.len() + 1,
{
    if s.len() == 1 {
        let w = choose|w: int| 0 <= w < permutations(s).len() && permutations(s)[w] == p;
        assert(permutations(s)[w] == s);
        assert forall|j: int| 0 <= j < s.len() implies p.contains(#[trigger] s[j]) by {
            assert(p[j] == s[j]);
        }
    } else if s.len() >= 2 {
        lemma_choices_cover(s, s.len() as int, p);
    }
}

/// Every element of a sequence occurs in each of its orderings that start
/// with one of its first elements.
pub proof fn lemma_choices_cover<T>(s: Seq<T>, n: int, p: Seq<T>)
    requires
        0 <= n <= s.len(),
        choices(s, n).contains(p),
    ensures
        drawn_from(s, p),
    decreases s.len(), n,
{
    let all = choices(s, n);
    let w = choose|w: int| 0 <= w < all.len() && all[w] == p;
    if n > 0 {
        let rest = s.remove(n - 1);
        let orderings = permutations(rest);
        let first = led(s[n - 1], orderings);
        let before = choices(s, n - 1);
        if w < first.len() {
            let k = first.len() - 1 - w;
            let q = orderings[k];
            assert(all[w] == first.reverse()[w]);
            assert(p == seq![s[n - 1]] + q);
            assert(orderings.contains(q));
            lemma_permutations_cover(rest, q);
            assert forall|j: int| 0 <= j < s.len() implies p.contains(#[trigger] s[j]) by {
                if j == n - 1 {
                    assert(p[0] == s[j]);
                } else {
                    let at = if j < n - 1 {
                        j
                    } else {
                        j - 1
                    };
                    assert(rest[at] == s[j]);
                    assert(q.contains(rest[at]));
                    let v = choose|v: int| 0 <= v < q.len() && q[v] == rest[at];
                    assert(p[v + 1] == s[j]);
                }
            }
        } else {
            assert(all[w] == before[w - first.len()]);
            assert(before.contains(p));
            lemma_choices_cover(s, n - 1, p);
        }
    }
}

/// Every sequence without a repeated element that is as long as a sequence
/// and consists of its elements is one of the orderings of the sequence.
pub proof fn lemma_permutations_complete<T>(s: Seq<T>, p: Seq<T>)
    requires
        s.len() >= 1,
        p.len() == s.len(),
        distinct(p),
        drawn_from(p, s),
    ensures
        permutations(s).contains(p),
    decreases s.len(),
{
    assert(s.contains(p[0]));
    let i = choose|i: int| 0 <= i < s.len() && s[i] == p[0];
    if s.len() == 1 {
        assert(p =~= s);
        assert(permutations(s)[0] == s);
    } else {
        let rest = s.remove(i);
        let q = p.drop_first();
        assert(distinct(q)) by {
            assert forall|a: int, b: int| 0 <= a < b < q.len() implies q[a] != q[b] by {
                assert(q[a] == p[a + 1]);
                assert(q[b] == p[b + 1]);
            }
        }
        assert(drawn_from(q, rest)) by {
            assert forall|j: int| 0 <= j < q.len() implies rest.contains(#[trigger] q[j]) by {
                assert(q[j] == p[j + 1]);
                assert(s.contains(p[j + 1]));
                let w = choose|w: int| 0 <= w < s.len() && s[w] == p[j + 1];
                assert(p[0] != p[j + 1]);
                if w < i {
                    assert(rest[w] == s[w]);
                } else {
                    assert(rest[w - 1] == s[w]);
                }
            }
        }
        lemma_permutations_complete(rest, q);
        let orderings = permutations(rest);
        let k = choose|k: int| 0 <= k < orderings.len() && orderings[k] == q;
        let first = led(s[i], orderings);
        assert(first[k] =~= p);
        assert(first.reverse()[first.len() - 1 - k] == p);
        assert(choices(s, i + 1)[first.len() - 1 - k] == p);
        lemma_choices_grow(s, i + 1, s.len() as int, p);
    }
}

/// The sum of what `g` gives for each element of `s`.
pub open spec fn sum_of<T>(s: Seq<T>, g: spec_fn(T) -> int) -> int
    decreases s.len(),
{
    if s.len() == 0 {
        0
    } else {
        sum_of(s.drop_last(), g) + g(s.last())
    }
}

/// The product of what `g` gives for each element of `s`.
pub open spec fn product_of<T>(s: Seq<T>, g: spec_fn(T) -> int) -> int
    decreases s.len(),
{
    if s.len() == 0 {
        1
    } else {
        product_of(s.drop_last(), g) * g(s.last())
    }
}

/// The sum and the product over one element are what `g` gives for it.
pub proof fn lemma_sum_one<T>(x: T, g: spec_fn(T) -> int)
    ensures
        sum_of(seq![x], g) == g(x),
        product_of(seq![x], g) == g(x),
{
    let one = seq![x];
    assert(one.drop_last() =~= Seq::<T>::empty());
    assert(one.last() == x);
    assert(sum_of(one.drop_last(), g) == 0);
    assert(product_of(one.drop_last(), g) == 1);
    assert(1 * g(x) == g(x)) by (nonlinear_arith);
}

/// The sum and the product over two sequences, one after the other, are
/// the sum of the sums and the product of the products.
pub proof fn lemma_sum_concat<T>(a: Seq<T>, b: Seq<T>, g: spec_fn(T) -> int)
    ensures
        sum_of(a + b, g) == sum_of(a, g) + sum_of(b, g),
        product_of(a + b, g) == product_of(a, g) * product_of(b, g),
    decreases b.len(),
{
    if b.len() == 0 {
        assert(a + b =~= a);
        assert(product_of(a, g) * 1 == product_of(a, g)) by (nonlinear_arith);
    } else {
        lemma_sum_concat(a, b.drop_last(), g);
        assert((a + b).drop_last() =~= a + b.drop_last());
        let x = product_of(a, g);
        let y = product_of(b.drop_last(), g);
        let z = g(b.last());
        assert((x * y) * z == x * (y * z)) by (nonlinear_arith);
    }
}

/// The sum and the product over a sequence are what `g` gives for one of
/// its elements, plus or times the sum or the product over the others.
pub proof fn lemma_sum_remove<T>(s: Seq<T>, i: int, g: spec_fn(T) -> int)
    requires
        0 <= i < s.len(),
    ensures
        sum_of(s, g) == g(s[i]) + sum_of(s.remove(i), g),
        product_of(s, g) == g(s[i]) * product_of(s.remove(i), g),
{
    let front = s.take(i);
    let one = seq![s[i]];
    let back = s.skip(i + 1);
    assert(s =~= (front + one) + back);
    assert(s.remove(i) =~= front + back);
    lemma_sum_concat(front + one, back, g);
    lemma_sum_concat(front, one, g);
    lemma_sum_concat(front, back, g);
    lemma_sum_one(s[i], g);
    let x = product_of(front, g);
    let y = g(s[i]);
    let z = product_of(back, g);
    assert((x * y) * z == y * (x * z)) by (nonlinear_arith);
}

/// The sum and the product over an ordering of a sequence are those over
/// the sequence.
pub proof fn lemma_permutations_sum<T>(s: Seq<T>, p: Seq<T>, g: spec_fn(T) -> int)
    requires
        permutations(s).contains(p),
    ensures
        sum_of(p, g) == sum_of(s, g),
        product_of(p, g) == product_of(s, g),
    decreases s.len(), s.len() + 1,
{
    if s.len() == 0 {
    } else if s.len() == 1 {
        let w = choose|w: int| 0 <= w < permutations(s).len() && permutations(s)[w] == p;
        assert(permutations(s)[w] == s);
    } else {
        lemma_choices_sum(s, s.len() as int, p, g);
    }
}

/// The sum and the product over an ordering of a sequence that starts with
/// one of its first elements are those over the sequence.
pub proof fn lemma_choices_sum<T>(s: Seq<T>, n: int, p: Seq<T>, g: spec_fn(T) -> int)
    requires
        0 <= n <= s.len(),
        choices(s, n).contains(p),
    ensures
        sum_of(p, g) == sum_of(s, g),
        product_of(p, g) == product_of(s, g),
    decreases s.len(), n,
{
    let all = choices(s, n);
    let w = choose|w: int| 0 <= w < all.len() && all[w] == p;
    if n > 0 {
        let rest = s.remove(n - 1);
        let orderings = permutations(rest);
        let first = led(s[n - 1], orderings);
        let before = choices(s, n - 1);
        if w < first.len() {
            let k = first.len() - 1 - w;
            let q = orderings[k];
            assert(all[w] == first.reverse()[w]);
            assert(p == seq![s[n - 1]] + q);
            assert(orderings.contains(q));
            lemma_permutations_sum(rest, q, g);
            lemma_sum_concat(seq![s[n - 1]], q, g);
            lemma_sum_remove(s, n - 1, g);
            lemma_sum_one(s[n - 1], g);
        } else {
            assert(all[w] == before[w - first.len()]);
            assert(before.contains(p));
            lemma_choices_sum(s, n - 1, p, g);
        }
    }
}

/// What `f` makes of each element of `s`.
pub open spec fn mapped<A, B>(s: Seq<A>, f: spec_fn(A) -> B) -> Seq<B> {
    Seq::new(s.len(), |i: int| f(s[i]))
}

/// What `f` makes of each element of each of `ss`.
pub open spec fn mapped_rows<A, B>(ss: Seq<Seq<A>>, f: spec_fn(A) -> B) -> Seq<Seq<B>> {
    Seq::new(ss.len(), |i: int| mapped(ss[i], f))
}

/// The orderings of what `f` makes of a sequence are what `f` makes of
/// the orderings of the sequence.
pub proof fn lemma_permutations_mapped<A, B>(s: Seq<A>, f: spec_fn(A) -> B)
    ensures
        permutations(mapped(s, f)) == mapped_rows(permutations(s), f),
    decreases s.len(), s.len() + 1,
{
    if s.len() == 0 {
        assert(permutations(mapped(s, f)) =~= mapped_rows(permutations(s), f));
    } else if s.len() == 1 {
        assert(permutations(mapped(s, f)) =~= mapped_rows(permutations(s), f));
    } else {
        lemma_choices_mapped(s, f, s.len() as int);
    }
}

/// The orderings of what `f` makes of a sequence that start with one of
/// its first elements are what `f` makes of those of the sequence.
pub proof fn lemma_choices_mapped<A, B>(s: Seq<A>, f: spec_fn(A) -> B, n: int)
    requires
        0 <= n <= s.len(),
    ensures
        choices(mapped(s, f), n) == mapped_rows(choices(s, n), f),
    decreases s.len(), n,
{
    let image = mapped(s, f);
    if n <= 0 {
        assert(choices(image, n) =~= mapped_rows(choices(s, n), f));
    } else {
        lemma_choices_mapped(s, f, n - 1);
        let rest = s.remove(n - 1);
        lemma_permutations_mapped(rest, f);
        assert(image.remove(n - 1) =~= mapped(rest, f));
        let orderings = permutations(rest);
        let first = led(s[n - 1], orderings);
        let first_image = led(image[n - 1], permutations(image.remove(n - 1)));
        assert(first_image =~= mapped_rows(first, f)) by {
            assert forall|i: int| 0 <= i < first.len() implies first_image[i] == mapped(
                first[i],
                f,
            ) by {
                assert(first_image[i] =~= mapped(first[i], f));
            }
        }
        assert(first_image.reverse() =~= mapped_rows(first.reverse(), f));
        assert(mapped_rows(first.reverse(), f) + mapped_rows(choices(s, n - 1), f) =~= mapped_rows(
            first.reverse() + choices(s, n - 1),
            f,
        ));
    }
}

/// Extending what `f` makes of sequences by what it makes of `flat` gives
/// what `f` makes of the extended sequences.
pub proof fn lemma_extended_mapped<A, B>(
    acc: Seq<Seq<A>>,
    flat: Seq<A>,
    m: int,
    f: spec_fn(A) -> B,
)
    requires
        0 <= m <= acc.len(),
    ensures
        extended(mapped_rows(acc, f), mapped(flat, f), m) == mapped_rows(extended(acc, flat, m), f),
    decreases m,
{
    if m <= 0 {
        assert(extended(mapped_rows(acc, f), mapped(flat, f), m) =~= mapped_rows(
            extended(acc, flat, m),
            f,
        ));
    } else {
        lemma_extended_mapped(acc, flat, m - 1, f);
        let last = appended(acc[m - 1], flat, flat.len() as int);
        let last_image = appended(mapped_rows(acc, f)[m - 1], mapped(flat, f), flat.len() as int);
        assert(last_image =~= mapped_rows(last, f)) by {
            assert forall|j: int| 0 <= j < last.len() implies last_image[j] == mapped(last[j], f) by {
                assert(last_image[j] =~= mapped(last[j], f));
            }
        }
        assert(mapped_rows(extended(acc, flat, m - 1), f) + mapped_rows(last, f) =~= mapped_rows(
            extended(acc, flat, m - 1) + last,
            f,
        ));
    }
}

/// The combinations of what `f` makes of sequences are what `f` makes of
/// the combinations of the sequences.
pub proof fn lemma_cartesian_mapped<A, B>(xss: Seq<Seq<A>>, n: int, f: spec_fn(A) -> B)
    requires
        0 <= n <= xss.len(),
    ensures
        accumulated(seq![Seq::<B>::empty()], mapped_rows(xss, f), n) == mapped_rows(
            accumulated(seq![Seq::<A>::empty()], xss, n),
            f,
        ),
    decreases n,
{
    if n <= 0 {
        assert(seq![Seq::<B>::empty()] =~= mapped_rows(seq![Seq::<A>::empty()], f)) by {
            assert(mapped(Seq::<A>::empty(), f) =~= Seq::<B>::empty());
        }
    } else {
        lemma_cartesian_mapped(xss, n - 1, f);
        let before = accumulated(seq![Seq::<A>::empty()], xss, n - 1);
        lemma_extended_mapped(before, xss[n - 1], before.len() as int, f);
    }
}

/// The orderings that start with one of the first elements are among
/// those that start with one of more elements.
pub proof fn lemma_choices_grow<T>(s: Seq<T>, few: int, many: int, p: Seq<T>)
    requires
        0 <= few <= many <= s.len(),
        choices(s, few).contains(p),
    ensures
        choices(s, many).contains(p),
    decreases many - few,
{
    if few < many {
        lemma_choices_grow(s, few, many - 1, p);
        let first = led(s[many - 1], permutations(s.remove(many - 1))).reverse();
        let before = choices(s, many - 1);
        let w = choose|w: int| 0 <= w < before.len() && before[w] == p;
        assert(choices(s, many)[first.len() + w] == p);
    }
}

/// A sequence is one of its orderings.
pub proof fn lemma_permutations_own<T>(s: Seq<T>)
    requires
        s.len() >= 1,
    ensures
        permutations(s).contains(s),
    decreases s.len(),
{
    if s.len() == 1 {
        assert(permutations(s)[0] == s);
    } else {
        let rest = s.remove(0);
        lemma_permutations_own(rest);
        let orderings = permutations(rest);
        let w = choose|w: int| 0 <= w < orderings.len() && orderings[w] == rest;
        let first = led(s[0], orderings);
        assert(first[w] =~= s);
        let reversed = first.reverse();
        assert(reversed[first.len() - 1 - w] == s);
        assert(choices(s, 1) =~= reversed + choices(s, 0));
        assert(choices(s, 1)[first.len() - 1 - w] == s);
        lemma_choices_grow(s, 1, s.len() as int, s);
    }
}

/// Each of the sequences that were extended, with each element of `flat`
/// pushed onto it, is among the sequences made by extending.
pub proof fn lemma_extended_contains<T>(acc: Seq<Seq<T>>, flat: Seq<T>, m: int, a: int, j: int)
    requires
        0 <= a < m <= acc.len(),
        0 <= j < flat.len(),
    ensures
        extended(acc, flat, m).contains(acc[a].push(flat[j])),
    decreases m,
{
    let before = extended(acc, flat, m - 1);
    let last = appended(acc[m - 1], flat, flat.len() as int);
    if a == m - 1 {
        assert(extended(acc, flat, m)[before.len() + j] == last[j]);
    } else {
        lemma_extended_contains(acc, flat, m - 1, a, j);
        let w = choose|w: int| 0 <= w < before.len() && before[w] == acc[a].push(flat[j]);
        assert(extended(acc, flat, m)[w] == before[w]);
    }
}

/// Every sequence that takes one element from each of the sequences, in
/// order, is among their combinations.
pub proof fn lemma_cartesian_contains<T>(xss: Seq<Seq<T>>, n: int, c: Seq<T>)
    requires
        0 <= n <= xss.len(),
        picked_from(c, xss, n),
    ensures
        accumulated(seq![Seq::<T>::empty()], xss, n).contains(c),
    decreases n,
{
    let start = seq![Seq::<T>::empty()];
    if n == 0 {
        assert(c =~= Seq::<T>::empty());
        assert(start[0] == c);
    } else {
        let shorter = c.drop_last();
        assert(picked_from(shorter, xss, n - 1)) by {
            assert forall|i: int| 0 <= i < n - 1 implies xss[i].contains(#[trigger] shorter[i]) by {
                assert(shorter[i] == c[i]);
            }
        }
        lemma_cartesian_contains(xss, n - 1, shorter);
        let before = accumulated(start, xss, n - 1);
        let flat = xss[n - 1];
        let a = choose|a: int| 0 <= a < before.len() && before[a] == shorter;
        assert(flat.contains(c[n - 1]));
        let j = choose|j: int| 0 <= j < flat.len() && flat[j] == c[n - 1];
        lemma_extended_contains(before, flat, before.len() as int, a, j);
        assert(before[a].push(flat[j]) =~= c);
    }
}

/// The sequence `c` takes one element from each of the first `n` of `xss`,
/// in order.
pub open spec fn picked_from<T>(c: Seq<T>, xss: Seq<Seq<T>>, n: int) -> bool {
    &&& c.len() == n
    &&& forall|i: int| 0 <= i < n ==> xss[i].contains(#[trigger] c[i])
}

/// Every sequence made by extending is one of the sequences that were
/// extended, with an element of `flat` pushed onto it.
pub proof fn lemma_extended_rows<T>(acc: Seq<Seq<T>>, flat: Seq<T>, m: int, i: int)
    requires
        0 <= m <= acc.len(),
        0 <= i < extended(acc, flat, m).len(),
    ensures
        exists|a: int, j: int|
            0 <= a < m && 0 <= j < flat.len() && extended(acc, flat, m)[i] == #[trigger] acc[a].push(
                flat[j],
            ),
    decreases m,
{
    if m > 0 {
        let before = extended(acc, flat, m - 1);
        if i < before.len() {
            lemma_extended_rows(acc, flat, m - 1, i);
            let (a, j) = choose|a: int, j: int|
                0 <= a < m - 1 && 0 <= j < flat.len() && before[i] == #[trigger] acc[a].push(flat[j]);
            assert(extended(acc, flat, m)[i] == acc[a].push(flat[j]));
        } else {
            let j = i - before.len();
            assert(extended(acc, flat, m)[i] == acc[m - 1].push(flat[j]));
        }
    }
}

/// Every combination takes one element from each of the sequences, in
/// order.
pub proof fn lemma_cartesian_picked<T>(xss: Seq<Seq<T>>, n: int)
    requires
        0 <= n <= xss.len(),
    ensures
        forall|i: int|
            0 <= i < accumulated(seq![Seq::<T>::empty()], xss, n).len() ==> picked_from(
                #[trigger] accumulated(seq![Seq::<T>::empty()], xss, n)[i],
                xss,
                n,
            ),
    decreases n,
{
    let start = seq![Seq::<T>::empty()];
    if n > 0 {
        lemma_cartesian_picked(xss, n - 1);
        let before = accumulated(start, xss, n - 1);
        let flat = xss[n - 1];
        assert forall|i: int| 0 <= i < accumulated(start, xss, n).len() implies picked_from(
            #[trigger] accumulated(start, xss, n)[i],
            xss,
            n,
        ) by {
            lemma_extended_rows(before, flat, before.len() as int, i);
            let (a, j) = choose|a: int, j: int|
                0 <= a < before.len() && 0 <= j < flat.len() && accumulated(start, xss, n)[i]
                    == #[trigger] before[a].push(flat[j]);
            let row = before[a].push(flat[j]);
            assert(picked_from(before[a], xss, n - 1));
            assert forall|k: int| 0 <= k < n implies xss[k].contains(#[trigger] row[k]) by {
                if k < n - 1 {
                    assert(row[k] == before[a][k]);
                } else {
                    assert(row[k] == flat[j]);
                }
            }
        }
    }
}

/// Extending `m` sequences by the elements of `flat` gives `m` times as
/// many sequences as `flat` has elements.
pub proof fn lemma_extended_len<T>(acc: Seq<Seq<T>>, flat: Seq<T>, m: int)
    requires
        0 <= m <= acc.len(),
    ensures
        extended(acc, flat, m).len() == m * flat.len(),
    decreases m,
{
    if m > 0 {
        lemma_extended_len(acc, flat, m - 1);
        assert((m - 1) * flat.len() + flat.len() == m * flat.len()) by (nonlinear_arith);
    } else {
        assert(0 * flat.len() == 0) by (nonlinear_arith);
    }
}

/// No sequence of `acc` is longer than `bound`.
pub open spec fn bounded_by<T>(acc: Seq<Seq<T>>, bound: int) -> bool {
    forall|i: int| 0 <= i < acc.len() ==> (#[trigger] acc[i]).len() <= bound
}

/// Every product of the number of sequences made so far and the number of
/// elements to extend them by fits in a machine word.
pub open spec fn accumulation_fits<T>(acc: Seq<Seq<T>>, xss: Seq<Seq<T>>) -> bool {
    forall|n: int|
        0 <= n < xss.len() ==> (#[trigger] accumulated(acc, xss, n)).len() * xss[n].len()
            <= usize::MAX
}

/// Extending sequences makes them longer by one element.
pub proof fn lemma_extended_bound<T>(acc: Seq<Seq<T>>, flat: Seq<T>, m: int, bound: int)
    requires
        0 <= m <= acc.len(),
        bounded_by(acc, bound),
    ensures
        bounded_by(extended(acc, flat, m), bound + 1),
    decreases m,
{
    if m > 0 {
        lemma_extended_bound(acc, flat, m - 1, bound);
        let before = extended(acc, flat, m - 1);
        let last = appended(acc[m - 1], flat, flat.len() as int);
        assert forall|i: int| 0 <= i < extended(acc, flat, m).len() implies (#[trigger] extended(
            acc,
            flat,
            m,
        )[i]).len() <= bound + 1 by {
            if i < before.len() {
                assert(extended(acc, flat, m)[i] == before[i]);
            } else {
                assert(extended(acc, flat, m)[i] == last[i - before.len()]);
            }
        }
    }
}

/// Extending sequences `n` times makes them longer by `n` elements.
pub proof fn lemma_accumulated_bound<T>(acc: Seq<Seq<T>>, xss: Seq<Seq<T>>, n: int, bound: int)
    requires
        0 <= n <= xss.len(),
        bounded_by(acc, bound),
    ensures
        bounded_by(accumulated(acc, xss, n), bound + n),
    decreases n,
{
    if n > 0 {
        lemma_accumulated_bound(acc, xss, n - 1, bound);
        let before = accumulated(acc, xss, n - 1);
        lemma_extended_bound(before, xss[n - 1], before.len() as int, bound + n - 1);
    }
}

} // verus!
