//! A persistent singly linked list.
//!
//! A list is never changed: every operation returns a new list, which
//! shares with the old one what the two have in common. The elements are
//! held behind counted references, so that building a list from the
//! elements of another copies no element; only `head` hands out a clone.

use std::rc::Rc;
use vstd::prelude::*;
use crate::collection::combinations::{
    accumulated, accumulation_fits, appended, bounded_by, cartesian, choices, combined, extended,
    led, lemma_accumulated_bound, lemma_extended_len, lemma_flatten_len, lemma_permutations,
    lemma_total_len, lemma_total_len_shape, permutations,
};
use vstd::std_specs::cmp::PartialEqSpec;

verus! {

/// A link to the rest of a list: to a node, or to nothing at the end.
type Link<T> = Rc<Option<LinkNode<T>>>;

/// A node of a list: an element and the link to the nodes after it.
#[derive(Debug, PartialEq)]
pub struct LinkNode<T> {
    elem: Rc<T>,
    tail: Link<T>,
}

/// A list: the link to its first node, and the number of its nodes.
#[derive(Debug, PartialEq)]
pub struct LinkList<T> {
    size: usize,
    list: Link<T>,
}

/// The elements of the nodes that `link` leads to, in order.
pub closed spec fn chain<T>(link: Option<LinkNode<T>>) -> Seq<T>
    decreases link,
{
    match link {
        None => Seq::empty(),
        Some(node) => seq![*node.elem] + chain(*node.tail),
    }
}

/// The elements of the list that `link` leads to, in order.
pub closed spec fn elements<T>(link: &Link<T>) -> Seq<T> {
    chain(**link)
}

/// The elements of a list are none at its end, and else the element of its
/// first node and then the elements of the list after that node.
proof fn lemma_elements<T>(link: &Link<T>)
    ensures
        match **link {
            None => elements(link) == Seq::<T>::empty(),
            Some(node) => {
                &&& elements(link) == seq![*node.elem] + elements(&node.tail)
                &&& elements(link).len() > 0
                &&& elements(link)[0] == *node.elem
                &&& elements(&node.tail) == elements(link).drop_first()
            },
        },
{
    match **link {
        None => {},
        Some(node) => {
            assert(elements(&node.tail) =~= elements(link).drop_first());
        },
    }
}

/// Another reference to what `link` refers to, by `Rc::clone`: no value is
/// copied, so what it refers to is the same.
#[verifier::external_body]
fn share<T>(link: &Rc<T>) -> (shared: Rc<T>)
    ensures
        shared == link,
{
    Rc::clone(link)
}

impl<T> LinkNode<T> {
    /// The link at the end of a list.
    fn null() -> (link: Link<T>)
        ensures
            elements(&link) == Seq::<T>::empty(),
    {
        Rc::new(None)
    }
}

/// The link to a node with the element `elem` before the nodes of `tail`.
fn cons<T>(elem: Rc<T>, tail: Link<T>) -> (link: Link<T>)
    ensures
        elements(&link) == seq![*elem] + elements(&tail),
{
    Rc::new(Some(LinkNode { elem, tail }))
}

/// The nodes of `source` in reverse order, before the nodes of `target`.
fn reverse_onto<T>(source: &Link<T>, target: Link<T>) -> (link: Link<T>)
    ensures
        elements(&link) == elements(source).reverse() + elements(&target),
{
    let mut result = target;
    let mut cursor: &Link<T> = source;
    let ghost mut done: int = 0;
    proof {
        assert(elements(source).take(0).reverse() + elements(&target) =~= elements(&target));
        assert(elements(source).skip(0) =~= elements(source));
    }
    loop
        invariant
            0 <= done <= elements(source).len(),
            elements(cursor) == elements(source).skip(done),
            elements(&result) == elements(source).take(done).reverse() + elements(&target),
        decreases elements(source).len() - done,
    {
        match &**cursor {
            None => {
                proof {
                    lemma_elements(cursor);
                    assert(elements(source).take(done) =~= elements(source));
                }
                return result;
            },
            Some(node) => {
                result = cons(share(&node.elem), result);
                proof {
                    let all = elements(source);
                    lemma_elements(cursor);
                    assert(all.skip(done)[0] == all[done]);
                    assert(all.skip(done).drop_first() =~= all.skip(done + 1));
                    assert(all.take(done + 1) =~= all.take(done).push(all[done]));
                    assert(all.take(done + 1).reverse() =~= seq![*node.elem] + all.take(
                        done,
                    ).reverse());
                    assert(elements(&result) =~= all.take(done + 1).reverse() + elements(&target));
                    done = done + 1;
                }
                cursor = &node.tail;
            },
        }
    }
}

/// Splits the nodes of `link` after the first `n`: returns those `n` in
/// reverse order, and the link to the others.
fn split<T>(link: &Link<T>, n: usize) -> (parts: (Link<T>, Link<T>))
    requires
        n <= elements(link).len(),
    ensures
        elements(&parts.0) == elements(link).take(n as int).reverse(),
        elements(&parts.1) == elements(link).skip(n as int),
{
    let mut left: Link<T> = LinkNode::null();
    let mut cursor: &Link<T> = link;
    let mut i: usize = 0;
    proof {
        assert(elements(link).take(0).reverse() =~= Seq::<T>::empty());
        assert(elements(link).skip(0) =~= elements(link));
    }
    while i < n
        invariant
            0 <= i <= n <= elements(link).len(),
            elements(cursor) == elements(link).skip(i as int),
            elements(&left) == elements(link).take(i as int).reverse(),
        decreases n - i,
    {
        match &**cursor {
            None => {
                proof {
                    lemma_elements(cursor);
                    assert(elements(link).skip(i as int).len() > 0);
                }
                return (left, share(cursor));
            },
            Some(node) => {
                left = cons(share(&node.elem), left);
                proof {
                    let all = elements(link);
                    lemma_elements(cursor);
                    assert(all.skip(i as int)[0] == all[i as int]);
                    assert(all.skip(i as int).drop_first() =~= all.skip(i + 1));
                    assert(all.take(i + 1) =~= all.take(i as int).push(all[i as int]));
                    assert(all.take(i + 1).reverse() =~= seq![*node.elem] + all.take(
                        i as int,
                    ).reverse());
                }
                cursor = &node.tail;
                i += 1;
            },
        }
    }
    (left, share(cursor))
}

impl<T> Clone for LinkList<T> {
    /// Another list with the same elements, which shares every node with
    /// this one.
    fn clone(&self) -> (list: LinkList<T>)
        ensures
            list@ == self@,
    {
        self.duplicate()
    }
}

impl<T> View for LinkList<T> {
    type V = Seq<T>;

    closed spec fn view(&self) -> Seq<T> {
        elements(&self.list)
    }
}

impl<T> LinkList<T> {
    /// The number of nodes that the list holds is the number of its
    /// elements.
    #[verifier::type_invariant]
    spec fn counted(self) -> bool {
        self.size == elements(&self.list).len()
    }

    /// The empty list.
    pub fn new() -> (list: LinkList<T>)
        ensures
            list@ == Seq::<T>::empty(),
    {
        LinkList { size: 0, list: LinkNode::null() }
    }

    /// The list is empty.
    pub fn is_empty(&self) -> (empty: bool)
        ensures
            empty == (self@.len() == 0),
    {
        match &*self.list {
            Some(_) => false,
            None => true,
        }
    }

    /// The list is not empty.
    pub fn is_not_empty(&self) -> (full: bool)
        ensures
            full == (self@.len() > 0),
    {
        !self.is_empty()
    }

    /// The number of elements.
    pub fn len(&self) -> (length: usize)
        ensures
            length == self@.len(),
    {
        proof {
            use_type_invariant(self);
        }
        self.size
    }

    /// Another list with the same elements, which shares every node with
    /// this one.
    fn duplicate(&self) -> (list: LinkList<T>)
        ensures
            list@ == self@,
    {
        proof {
            use_type_invariant(self);
        }
        LinkList { size: self.size, list: share(&self.list) }
    }

    /// A clone of the first element, or `None` for the empty list.
    pub fn head(&self) -> (first: Option<T>) where T: Clone
        ensures
            self@.len() == 0 ==> first is None,
            self@.len() > 0 ==> first is Some && cloned(self@[0], first->0),
    {
        match &*self.list {
            Some(node) => Some((*node.elem).clone()),
            None => None,
        }
    }

    /// The list after the first element, or `None` for the empty list.
    pub fn tail(&self) -> (rest: Option<LinkList<T>>)
        ensures
            self@.len() == 0 ==> rest is None,
            self@.len() > 0 ==> rest is Some && rest->0@ == self@.drop_first(),
    {
        proof {
            use_type_invariant(self);
        }
        match &*self.list {
            Some(node) => {
                proof {
                    lemma_elements(&self.list);
                }
                Some(LinkList { size: self.size - 1, list: share(&node.tail) })
            },
            None => None,
        }
    }

    /// The list with `elem` before the elements of this one.
    pub fn insert(&self, elem: T) -> (list: LinkList<T>)
        requires
            self@.len() < usize::MAX,
        ensures
            list@ == seq![elem] + self@,
    {
        proof {
            use_type_invariant(self);
        }
        LinkList { size: self.size + 1, list: cons(Rc::new(elem), share(&self.list)) }
    }

    /// The list with the elements of this one in reverse order.
    pub fn reverse(&self) -> (list: LinkList<T>)
        ensures
            list@ == self@.reverse(),
    {
        proof {
            use_type_invariant(self);
        }
        let list = reverse_onto(&self.list, LinkNode::null());
        proof {
            assert(elements(&list) =~= self@.reverse());
        }
        LinkList { size: self.size, list }
    }

    /// The list with `elem` after the elements of this one.
    pub fn append(&self, elem: T) -> (list: LinkList<T>)
        requires
            self@.len() < usize::MAX,
        ensures
            list@ == self@.push(elem),
    {
        proof {
            use_type_invariant(self);
        }
        let reversed = reverse_onto(&self.list, LinkNode::null());
        let list = reverse_onto(&cons(Rc::new(elem), reversed), LinkNode::null());
        proof {
            assert(elements(&list) =~= self@.push(elem));
        }
        LinkList { size: self.size + 1, list }
    }

    /// The list with the elements of this one and then those of `other`.
    pub fn concat(&self, other: &LinkList<T>) -> (list: LinkList<T>)
        requires
            self@.len() + other@.len() <= usize::MAX,
        ensures
            list@ == self@ + other@,
    {
        proof {
            use_type_invariant(self);
            use_type_invariant(other);
        }
        let reversed = reverse_onto(&self.list, LinkNode::null());
        let list = reverse_onto(&reversed, share(&other.list));
        proof {
            assert(elements(&list) =~= self@ + other@);
        }
        LinkList { size: self.size + other.size, list }
    }

    /// The list with `elem` inserted before the element at `index`, or
    /// appended where the list has no such element.
    pub fn insert_at(&self, index: usize, elem: T) -> (list: LinkList<T>)
        requires
            self@.len() < usize::MAX,
        ensures
            list@ == if index >= self@.len() {
                self@.push(elem)
            } else {
                self@.insert(index as int, elem)
            },
    {
        proof {
            use_type_invariant(self);
        }
        if index >= self.size {
            self.append(elem)
        } else {
            let (left, rest) = split(&self.list, index);
            let list = reverse_onto(&left, cons(Rc::new(elem), rest));
            proof {
                assert(elements(&list) =~= self@.insert(index as int, elem));
            }
            LinkList { size: self.size + 1, list }
        }
    }

    /// The list without the element at `index`, or the list as it is where
    /// it has no such element.
    pub fn remove_at(&self, index: usize) -> (list: LinkList<T>)
        ensures
            list@ == if index < self@.len() {
                self@.remove(index as int)
            } else {
                self@
            },
    {
        proof {
            use_type_invariant(self);
        }
        if index >= self.size {
            return self.duplicate();
        }
        let (left, rest) = split(&self.list, index);
        match &*rest {
            None => self.duplicate(),
            Some(node) => {
                let list = reverse_onto(&left, share(&node.tail));
                proof {
                    lemma_elements(&rest);
                    assert(self@.skip(index as int).drop_first() =~= self@.skip(index + 1));
                    assert(elements(&list) =~= self@.remove(index as int));
                }
                LinkList { size: self.size - 1, list }
            },
        }
    }

    /// The list from the element at index `n` on, or the empty list where
    /// the list has no such element.
    pub fn nth(&self, n: usize) -> (list: LinkList<T>)
        ensures
            list@ == if n >= self@.len() {
                Seq::<T>::empty()
            } else {
                self@.skip(n as int)
            },
    {
        proof {
            use_type_invariant(self);
        }
        if n >= self.size {
            return LinkList::new();
        }
        let (_, rest) = split(&self.list, n);
        LinkList { size: self.size - n, list: rest }
    }

    /// The list with the elements at `i` and `j` swapped. Where only one of
    /// the two is an index of the list, the element at that index is
    /// removed; where neither is, the list stays as it is.
    pub fn swap(&self, i: usize, j: usize) -> (list: LinkList<T>)
        ensures
            list@ == if i == j {
                self@
            } else if i < self@.len() && j < self@.len() {
                self@.update(i as int, self@[j as int]).update(j as int, self@[i as int])
            } else if i < self@.len() {
                self@.remove(i as int)
            } else if j < self@.len() {
                self@.remove(j as int)
            } else {
                self@
            },
    {
        proof {
            use_type_invariant(self);
        }
        if i == j {
            return self.duplicate();
        }
        let (low, high) = if i < j {
            (i, j)
        } else {
            (j, i)
        };
        if low >= self.size {
            return self.duplicate();
        }
        if high >= self.size {
            return self.remove_at(low);
        }
        let (left, from_low) = split(&self.list, low);
        match &*from_low {
            None => self.duplicate(),
            Some(low_node) => {
                proof {
                    lemma_elements(&from_low);
                    assert(self@.skip(low as int).drop_first() =~= self@.skip(low + 1));
                    assert(self@.skip(low as int)[0] == self@[low as int]);
                }
                let (middle, from_high) = split(&low_node.tail, high - low - 1);
                match &*from_high {
                    None => self.duplicate(),
                    Some(high_node) => {
                        proof {
                            lemma_elements(&from_high);
                            assert(self@.skip(low + 1).skip(high - low - 1) =~= self@.skip(
                                high as int,
                            ));
                            assert(self@.skip(high as int)[0] == self@[high as int]);
                            assert(self@.skip(high as int).drop_first() =~= self@.skip(high + 1));
                        }
                        let tail = cons(share(&low_node.elem), share(&high_node.tail));
                        let inner = cons(share(&high_node.elem), reverse_onto(&middle, tail));
                        let list = reverse_onto(&left, inner);
                        proof {
                            lemma_swapped(self@, low as int, high as int);
                        }
                        LinkList { size: self.size, list }
                    },
                }
            },
        }
    }
}

/// The index of the first element of `s` that is equal to `x`, or the
/// length of `s` where there is none.
pub open spec fn first_equal<T: PartialEq>(s: Seq<T>, x: T) -> int
    decreases s.len(),
{
    if s.len() == 0 {
        0
    } else if s[0].eq_spec(&x) {
        0
    } else {
        1 + first_equal(s.drop_first(), x)
    }
}

/// The elements of `s` whose flag in `kept` is set, in order.
pub open spec fn selected<T>(s: Seq<T>, kept: Seq<bool>) -> Seq<T>
    decreases s.len(),
{
    if s.len() == 0 || kept.len() != s.len() {
        Seq::empty()
    } else if kept.last() {
        selected(s.drop_last(), kept.drop_last()).push(s.last())
    } else {
        selected(s.drop_last(), kept.drop_last())
    }
}

/// `mapped` holds, for each element of `s`, something that `mapper` may
/// return for it.
pub open spec fn maps_to<T, R, F: Fn(&T) -> R>(mapper: F, s: Seq<T>, mapped: Seq<R>) -> bool {
    &&& mapped.len() == s.len()
    &&& forall|i: int| 0 <= i < s.len() ==> mapper.ensures((&#[trigger] s[i],), mapped[i])
}

/// The nodes of `link` mapped by `mapper`, in reverse order.
fn map_reversed<T, R, F: Fn(&T) -> R>(link: &Link<T>, mapper: &F) -> (mapped: Link<R>)
    requires
        forall|i: int| 0 <= i < elements(link).len() ==> (*mapper).requires((&#[trigger] elements(link)[i],)),
    ensures
        maps_to(*mapper, elements(link), elements(&mapped).reverse()),
{
    let mut result: Link<R> = LinkNode::null();
    let mut cursor: &Link<T> = link;
    let ghost mut done: int = 0;
    let ghost all = elements(link);
    proof {
        assert(all.skip(0) =~= all);
    }
    loop
        invariant
            all == elements(link),
            0 <= done <= all.len(),
            elements(cursor) == all.skip(done),
            forall|i: int| 0 <= i < all.len() ==> (*mapper).requires((&#[trigger] all[i],)),
            elements(&result).len() == done,
            forall|i: int| 0 <= i < done ==> (*mapper).ensures((&#[trigger] all[i],), elements(&result)[done - 1 - i]),
        decreases all.len() - done,
    {
        match &**cursor {
            None => {
                proof {
                    lemma_elements(cursor);
                    let reversed = elements(&result).reverse();
                    assert forall|i: int| 0 <= i < all.len() implies (*mapper).ensures(
                        (&#[trigger] all[i],),
                        reversed[i],
                    ) by {
                        assert(reversed[i] == elements(&result)[done - 1 - i]);
                    }
                }
                return result;
            },
            Some(node) => {
                proof {
                    lemma_elements(cursor);
                    assert(all.skip(done)[0] == all[done]);
                    assert(all.skip(done).drop_first() =~= all.skip(done + 1));
                }
                let ghost before = elements(&result);
                let value = (*mapper)(&*node.elem);
                result = cons(Rc::new(value), result);
                proof {
                    assert forall|i: int| 0 <= i < done + 1 implies (*mapper).ensures(
                        (&#[trigger] all[i],),
                        elements(&result)[done - i],
                    ) by {
                        if i < done {
                            assert(elements(&result)[done - i] == before[done - 1 - i]);
                        }
                    }
                    done = done + 1;
                }
                cursor = &node.tail;
            },
        }
    }
}

impl<T> LinkList<T> {
    /// The list of one element.
    pub fn of_one(elem: T) -> (list: LinkList<T>)
        ensures
            list@ == seq![elem],
    {
        let list = LinkList::new().insert(elem);
        proof {
            assert(list@ =~= seq![elem]);
        }
        list
    }

    /// The list of two elements.
    pub fn of_two(elem: T, elem2: T) -> (list: LinkList<T>)
        ensures
            list@ == seq![elem, elem2],
    {
        let list = LinkList::of_one(elem2).insert(elem);
        proof {
            assert(list@ =~= seq![elem, elem2]);
        }
        list
    }

    /// The list of three elements.
    pub fn of_three(elem: T, elem2: T, elem3: T) -> (list: LinkList<T>)
        ensures
            list@ == seq![elem, elem2, elem3],
    {
        let list = LinkList::of_two(elem2, elem3).insert(elem);
        proof {
            assert(list@ =~= seq![elem, elem2, elem3]);
        }
        list
    }

    /// The list of four elements.
    pub fn of_four(elem: T, elem2: T, elem3: T, elem4: T) -> (list: LinkList<T>)
        ensures
            list@ == seq![elem, elem2, elem3, elem4],
    {
        let list = LinkList::of_three(elem2, elem3, elem4).insert(elem);
        proof {
            assert(list@ =~= seq![elem, elem2, elem3, elem4]);
        }
        list
    }

    /// The list of five elements.
    pub fn of_five(elem: T, elem2: T, elem3: T, elem4: T, elem5: T) -> (list: LinkList<T>)
        ensures
            list@ == seq![elem, elem2, elem3, elem4, elem5],
    {
        let list = LinkList::of_four(elem2, elem3, elem4, elem5).insert(elem);
        proof {
            assert(list@ =~= seq![elem, elem2, elem3, elem4, elem5]);
        }
        list
    }

    /// The list of six elements.
    pub fn of_six(elem: T, elem2: T, elem3: T, elem4: T, elem5: T, elem6: T) -> (list: LinkList<T>)
        ensures
            list@ == seq![elem, elem2, elem3, elem4, elem5, elem6],
    {
        let list = LinkList::of_five(elem2, elem3, elem4, elem5, elem6).insert(elem);
        proof {
            assert(list@ =~= seq![elem, elem2, elem3, elem4, elem5, elem6]);
        }
        list
    }

    /// The list of seven elements.
    pub fn of_seven(elem: T, elem2: T, elem3: T, elem4: T, elem5: T, elem6: T, elem7: T) -> (list:
        LinkList<T>)
        ensures
            list@ == seq![elem, elem2, elem3, elem4, elem5, elem6, elem7],
    {
        let list = LinkList::of_six(elem2, elem3, elem4, elem5, elem6, elem7).insert(elem);
        proof {
            assert(list@ =~= seq![elem, elem2, elem3, elem4, elem5, elem6, elem7]);
        }
        list
    }

    /// The list of eight elements.
    pub fn of_eight(
        elem: T,
        elem2: T,
        elem3: T,
        elem4: T,
        elem5: T,
        elem6: T,
        elem7: T,
        elem8: T,
    ) -> (list: LinkList<T>)
        ensures
            list@ == seq![elem, elem2, elem3, elem4, elem5, elem6, elem7, elem8],
    {
        let list = LinkList::of_seven(elem2, elem3, elem4, elem5, elem6, elem7, elem8).insert(elem);
        proof {
            assert(list@ =~= seq![elem, elem2, elem3, elem4, elem5, elem6, elem7, elem8]);
        }
        list
    }

    /// The list of the items of `items`, in order.
    pub fn from_vec(items: Vec<T>) -> (list: LinkList<T>)
        ensures
            list@ == items@,
    {
        let mut source = items;
        let ghost all = source@;
        let total = source.len();
        let mut list: Link<T> = LinkNode::null();
        let mut size: usize = 0;
        proof {
            assert(all.len() == total);
            assert(all.take(all.len() as int) =~= all);
            assert(elements(&list) =~= all.skip(all.len() as int));
        }
        while source.len() > 0
            invariant
                source.len() <= all.len() <= usize::MAX,
                source@ == all.take(source.len() as int),
                elements(&list) == all.skip(source.len() as int),
                size == all.len() - source.len(),
            decreases source.len(),
        {
            let ghost n = source.len() as int;
            match source.pop() {
                None => {},
                Some(item) => {
                    list = cons(Rc::new(item), list);
                    size += 1;
                    proof {
                        assert(source@ =~= all.take(n - 1));
                        assert(item == all[n - 1]);
                        assert(elements(&list) =~= all.skip(n - 1));
                    }
                },
            }
        }
        proof {
            assert(all.skip(0) =~= all);
        }
        LinkList { size, list }
    }

    /// Clones of the elements of the list, in order.
    pub fn to_vec(&self) -> (items: Vec<T>) where T: Clone
        ensures
            items.len() == self@.len(),
            forall|i: int| 0 <= i < self@.len() ==> cloned(#[trigger] self@[i], items@[i]),
    {
        let mut items: Vec<T> = Vec::new();
        let mut cursor: &Link<T> = &self.list;
        proof {
            assert(self@.skip(0) =~= self@);
        }
        loop
            invariant
                items.len() <= self@.len(),
                elements(cursor) == self@.skip(items.len() as int),
                forall|i: int| 0 <= i < items.len() ==> cloned(#[trigger] self@[i], items@[i]),
            decreases self@.len() - items.len(),
        {
            match &**cursor {
                None => {
                    proof {
                        lemma_elements(cursor);
                    }
                    return items;
                },
                Some(node) => {
                    let ghost done = items.len() as int;
                    proof {
                        lemma_elements(cursor);
                        assert(self@.skip(done)[0] == self@[done]);
                        assert(self@.skip(done).drop_first() =~= self@.skip(done + 1));
                    }
                    items.push((*node.elem).clone());
                    cursor = &node.tail;
                },
            }
        }
    }

    /// The list from the first element on that is equal to `element`, or
    /// the empty list where no element is.
    pub fn find(&self, element: &T) -> (list: LinkList<T>) where T: PartialEq
        ensures
            exists|i: int| 0 <= i <= self@.len() && list@ == self@.skip(i),
            T::obeys_eq_spec() ==> list@ == self@.skip(first_equal(self@, *element)),
    {
        proof {
            use_type_invariant(self);
        }
        let mut cursor: &Link<T> = &self.list;
        let mut left: usize = self.size;
        let ghost mut done: int = 0;
        proof {
            assert(self@.skip(0) =~= self@);
        }
        loop
            invariant
                0 <= done <= self@.len(),
                left == self@.len() - done,
                elements(cursor) == self@.skip(done),
                T::obeys_eq_spec() ==> first_equal(self@, *element) == done + first_equal(
                    self@.skip(done),
                    *element,
                ),
            decreases self@.len() - done,
        {
            match &**cursor {
                None => {
                    proof {
                        lemma_elements(cursor);
                    }
                    return LinkList { size: left, list: share(cursor) };
                },
                Some(node) => {
                    proof {
                        lemma_elements(cursor);
                        assert(self@.skip(done).drop_first() =~= self@.skip(done + 1));
                    }
                    if *node.elem == *element {
                        return LinkList { size: left, list: share(cursor) };
                    }
                    cursor = &node.tail;
                    left -= 1;
                    proof {
                        done = done + 1;
                    }
                },
            }
        }
    }

    /// The list of what `mapper` returns for each element, in order.
    pub fn map<R>(&self, mapper: impl Fn(&T) -> R) -> (list: LinkList<R>)
        requires
            forall|i: int| 0 <= i < self@.len() ==> mapper.requires((&#[trigger] self@[i],)),
        ensures
            maps_to(mapper, self@, list@),
    {
        proof {
            use_type_invariant(self);
        }
        proof {
            assert(self@ == elements(&self.list));
            assert forall|i: int| 0 <= i < elements(&self.list).len() implies mapper.requires(
                (&#[trigger] elements(&self.list)[i],),
            ) by {
                assert(mapper.requires((&self@[i],)));
            }
        }
        let reversed = map_reversed(&self.list, &mapper);
        let list = reverse_onto(&reversed, LinkNode::null());
        proof {
            assert(elements(&list) =~= elements(&reversed).reverse());
        }
        LinkList { size: self.size, list }
    }

    /// The list of the elements that `predicate` accepts, in order.
    pub fn filter(&self, predicate: impl Fn(&T) -> bool) -> (list: LinkList<T>)
        requires
            forall|i: int| 0 <= i < self@.len() ==> predicate.requires((&#[trigger] self@[i],)),
        ensures
            exists|kept: Seq<bool>|
                {
                    &&& #[trigger] maps_to(predicate, self@, kept)
                    &&& list@ == selected(self@, kept)
                },
    {
        proof {
            use_type_invariant(self);
        }
        let mut result: Link<T> = LinkNode::null();
        let mut count: usize = 0;
        let mut cursor: &Link<T> = &self.list;
        let ghost mut kept: Seq<bool> = Seq::empty();
        proof {
            assert(self@.skip(0) =~= self@);
            assert(self@.take(0) =~= Seq::<T>::empty());
            assert(elements(&result).reverse() =~= selected(self@.take(0), kept));
        }
        loop
            invariant
                elements(cursor) == self@.skip(kept.len() as int),
                kept.len() <= self@.len() <= usize::MAX,
                forall|i: int| 0 <= i < self@.len() ==> predicate.requires((&#[trigger] self@[i],)),
                forall|i: int| 0 <= i < kept.len() ==> predicate.ensures((&#[trigger] self@[i],), kept[i]),
                elements(&result).reverse() == selected(self@.take(kept.len() as int), kept),
                count == elements(&result).len(),
                count <= kept.len(),
            decreases self@.len() - kept.len(),
        {
            match &**cursor {
                None => {
                    proof {
                        lemma_elements(cursor);
                        assert(self@.take(kept.len() as int) =~= self@);
                        assert(maps_to(predicate, self@, kept));
                    }
                    let list = reverse_onto(&result, LinkNode::null());
                    proof {
                        assert(elements(&list) =~= elements(&result).reverse());
                    }
                    return LinkList { size: count, list };
                },
                Some(node) => {
                    let ghost done = kept.len() as int;
                    proof {
                        lemma_elements(cursor);
                        assert(self@.skip(done)[0] == self@[done]);
                        assert(self@.skip(done).drop_first() =~= self@.skip(done + 1));
                        assert(self@.take(done + 1).drop_last() =~= self@.take(done));
                    }
                    let keep = predicate(&*node.elem);
                    let ghost before = elements(&result);
                    if keep {
                        result = cons(share(&node.elem), result);
                        count += 1;
                        proof {
                            assert(elements(&result).reverse() =~= before.reverse().push(self@[done]));
                        }
                    }
                    proof {
                        assert(kept.push(keep).drop_last() =~= kept);
                        kept = kept.push(keep);
                    }
                    cursor = &node.tail;
                },
            }
        }
    }

    /// The list of lists that hold one element of this list each.
    pub fn fatten(&self) -> (list: LinkList<LinkList<T>>)
        ensures
            list.deep() == self@.map_values(|x: T| seq![x]),
    {
        proof {
            use_type_invariant(self);
        }
        let mut result: Link<LinkList<T>> = LinkNode::null();
        let mut cursor: &Link<T> = &self.list;
        let ghost mut done: int = 0;
        proof {
            assert(self@.skip(0) =~= self@);
        }
        loop
            invariant
                0 <= done <= self@.len(),
                self.size == self@.len(),
                elements(cursor) == self@.skip(done),
                elements(&result).len() == done,
                forall|i: int| 0 <= i < done ==> (#[trigger] elements(&result)[i])@ == seq![self@[done - 1 - i]],
            decreases self@.len() - done,
        {
            match &**cursor {
                None => {
                    proof {
                        lemma_elements(cursor);
                    }
                    let list = reverse_onto(&result, LinkNode::null());
                    proof {
                        assert(elements(&list) =~= elements(&result).reverse());
                        let whole = LinkList { size: self.size, list };
                        assert(whole.deep() =~= self@.map_values(|x: T| seq![x]));
                    }
                    return LinkList { size: self.size, list };
                },
                Some(node) => {
                    proof {
                        lemma_elements(cursor);
                        assert(self@.skip(done)[0] == self@[done]);
                        assert(self@.skip(done).drop_first() =~= self@.skip(done + 1));
                    }
                    let single = LinkList { size: 1, list: cons(share(&node.elem), LinkNode::null()) };
                    proof {
                        assert(single@ =~= seq![self@[done]]);
                    }
                    let ghost before = elements(&result);
                    result = cons(Rc::new(single), result);
                    proof {
                        assert forall|i: int| 0 <= i < done + 1 implies (#[trigger] elements(
                            &result,
                        )[i])@ == seq![self@[done - i]] by {
                            if i > 0 {
                                assert(elements(&result)[i] == before[i - 1]);
                            }
                        }
                        done = done + 1;
                    }
                    cursor = &node.tail;
                },
            }
        }
    }
}

/// The elements of the lists that the list of `link` holds, list by list.
pub closed spec fn deep_of<T>(link: &Link<LinkList<T>>) -> Seq<Seq<T>> {
    elements(link).map_values(|inner: LinkList<T>| inner@)
}

/// The lists of a list of lists are none at its end, and else the list of
/// its first node and then the lists after that node.
proof fn lemma_deep_of<T>(link: &Link<LinkList<T>>)
    ensures
        deep_of(link).len() == elements(link).len(),
        match **link {
            None => deep_of(link) == Seq::<Seq<T>>::empty(),
            Some(node) => {
                &&& deep_of(link) == seq![node.elem@] + deep_of(&node.tail)
                &&& deep_of(link).len() > 0
                &&& deep_of(link)[0] == node.elem@
                &&& deep_of(&node.tail) == deep_of(link).drop_first()
            },
        },
{
    lemma_elements(link);
    match **link {
        None => {
            assert(deep_of(link) =~= Seq::<Seq<T>>::empty());
        },
        Some(node) => {
            assert(deep_of(link) =~= seq![node.elem@] + deep_of(&node.tail));
            assert(deep_of(&node.tail) =~= deep_of(link).drop_first());
        },
    }
}

impl<T> LinkList<T> {
    /// The list with the element that `elem` refers to before the elements
    /// of this one.
    fn led_by(&self, elem: &Rc<T>) -> (list: LinkList<T>)
        requires
            self@.len() < usize::MAX,
        ensures
            list@ == seq![**elem] + self@,
    {
        proof {
            use_type_invariant(self);
        }
        LinkList { size: self.size + 1, list: cons(share(elem), share(&self.list)) }
    }

    /// The list with the element that `elem` refers to after the elements
    /// of this one.
    fn pushed(&self, elem: &Rc<T>) -> (list: LinkList<T>)
        requires
            self@.len() < usize::MAX,
        ensures
            list@ == self@.push(**elem),
    {
        proof {
            use_type_invariant(self);
        }
        let reversed = reverse_onto(&self.list, LinkNode::null());
        let list = reverse_onto(&cons(share(elem), reversed), LinkNode::null());
        proof {
            assert(elements(&list) =~= self@.push(**elem));
        }
        LinkList { size: self.size + 1, list }
    }

    /// The orderings of the list: none for the empty list.
    pub fn permute(&self) -> (list: LinkList<LinkList<T>>)
        requires
            permutations(self@).len() <= usize::MAX,
        ensures
            list.deep() == permutations(self@),
        decreases self@.len(),
    {
        proof {
            use_type_invariant(self);
        }
        if self.size == 0 {
            let list = LinkList::new();
            proof {
                assert(list.deep() =~= permutations(self@));
            }
            return list;
        }
        if self.size == 1 {
            let list = LinkList::of_one(self.duplicate());
            proof {
                assert(list.deep() =~= permutations(self@));
            }
            return list;
        }
        let mut results: Link<LinkList<T>> = LinkNode::null();
        let mut count: usize = 0;
        let mut cursor: &Link<T> = &self.list;
        let mut i: usize = 0;
        proof {
            assert(self@.skip(0) =~= self@);
            assert(deep_of(&results) =~= choices(self@, 0));
        }
        while i < self.size
            invariant
                0 <= i <= self.size == self@.len(),
                self@.len() >= 2,
                permutations(self@).len() <= usize::MAX,
                elements(cursor) == self@.skip(i as int),
                deep_of(&results) == choices(self@, i as int),
                count == elements(&results).len(),
            decreases self.size - i,
        {
            match &**cursor {
                None => {
                    proof {
                        lemma_elements(cursor);
                    }
                    return LinkList::new();
                },
                Some(node) => {
                    proof {
                        lemma_elements(cursor);
                        assert(self@.skip(i as int)[0] == self@[i as int]);
                        assert(self@.skip(i as int).drop_first() =~= self@.skip(i + 1));
                        lemma_permutations(self@, i + 1);
                        lemma_permutations(self@.remove(i as int), 0);
                    }
                    let others = self.remove_at(i);
                    let right = others.permute();
                    let ghost orderings = permutations(self@.remove(i as int));
                    let ghost first = led(self@[i as int], orderings);
                    let ghost before = deep_of(&results);
                    let mut inner: &Link<LinkList<T>> = &right.list;
                    let ghost mut j: int = 0;
                    proof {
                        assert(right.deep() == deep_of(&right.list));
                        assert(orderings.skip(0) =~= orderings);
                        assert(first.take(0).reverse() + before =~= before);
                    }
                    loop
                        invariant
                            0 <= j <= orderings.len(),
                            first == led(self@[i as int], orderings),
                            *node.elem == self@[i as int],
                            i < self@.len() <= usize::MAX,
                            forall|k: int| 0 <= k < orderings.len() ==> (#[trigger] orderings[k]).len() == self@.len() - 1,
                            before.len() + orderings.len() <= usize::MAX,
                            deep_of(inner) == orderings.skip(j),
                            deep_of(&results) == first.take(j).reverse() + before,
                            count == elements(&results).len(),
                        ensures
                            deep_of(&results) == first.reverse() + before,
                        decreases orderings.len() - j,
                    {
                        match &**inner {
                            None => {
                                proof {
                                    lemma_deep_of(inner);
                                    assert(orderings.skip(j).len() == 0);
                                    assert(first.take(j) =~= first);
                                }
                                break ;
                            },
                            Some(entry) => {
                                proof {
                                    lemma_deep_of(inner);
                                    assert(orderings.skip(j).len() > 0);
                                    assert(orderings.skip(j)[0] == orderings[j]);
                                    assert(orderings.skip(j).drop_first() =~= orderings.skip(j + 1));
                                    lemma_deep_of(&results);
                                }
                                let ordering = entry.elem.led_by(&node.elem);
                                let ghost old_results = deep_of(&results);
                                results = cons(Rc::new(ordering), results);
                                count = count + 1;
                                proof {
                                    lemma_deep_of(&results);
                                    assert(first.take(j + 1).reverse() =~= seq![first[j]] + first.take(
                                        j,
                                    ).reverse());
                                    assert(deep_of(&results) =~= seq![first[j]] + old_results);
                                    assert(deep_of(&results) =~= first.take(j + 1).reverse() + before);
                                    j = j + 1;
                                }
                                inner = &entry.tail;
                            },
                        }
                    }
                    proof {
                        assert(deep_of(&results) =~= choices(self@, i + 1));
                    }
                    cursor = &node.tail;
                    i += 1;
                },
            }
        }
        proof {
            lemma_deep_of(&results);
        }
        LinkList { size: count, list: results }
    }
}

impl<T> LinkList<LinkList<T>> {
    /// Every list that this list holds with every element of `flat` pushed
    /// onto it, the last made first, and their number.
    fn extend_reversed(&self, flat: &LinkList<T>) -> (made: (Link<LinkList<T>>, usize))
        requires
            bounded_by(self.deep(), usize::MAX - 1),
            self.deep().len() * flat@.len() <= usize::MAX,
        ensures
            deep_of(&made.0) == extended(self.deep(), flat@, self.deep().len() as int).reverse(),
            made.1 == elements(&made.0).len(),
    {
        let ghost deep = self.deep();
        let ghost width = flat@.len() as int;
        let mut results: Link<LinkList<T>> = LinkNode::null();
        let mut count: usize = 0;
        let mut outer: &Link<LinkList<T>> = &self.list;
        let ghost mut m: int = 0;
        proof {
            assert(deep.skip(0) =~= deep);
            lemma_deep_of(&results);
            assert(deep_of(&results) =~= extended(deep, flat@, 0).reverse());
            use_type_invariant(flat);
        }
        loop
            invariant
                deep == self.deep(),
                width == flat@.len(),
                flat@ == elements(&flat.list),
                bounded_by(deep, usize::MAX - 1),
                deep.len() * width <= usize::MAX,
                0 <= m <= deep.len(),
                deep_of(outer) == deep.skip(m),
                deep_of(&results) == extended(deep, flat@, m).reverse(),
                count == elements(&results).len(),
            ensures
                deep_of(&results) == extended(deep, flat@, deep.len() as int).reverse(),
                count == elements(&results).len(),
            decreases deep.len() - m,
        {
            match &**outer {
                None => {
                    proof {
                        lemma_deep_of(outer);
                        assert(deep.skip(m).len() == 0);
                    }
                    break ;
                },
                Some(node) => {
                    proof {
                        lemma_deep_of(outer);
                        assert(deep.skip(m).len() > 0);
                        assert(deep.skip(m)[0] == deep[m]);
                        assert(deep.skip(m).drop_first() =~= deep.skip(m + 1));
                        lemma_extended_len(deep, flat@, m);
                        lemma_deep_of(&results);
                        assert((m + 1) * width <= deep.len() * width) by (nonlinear_arith)
                            requires
                                m + 1 <= deep.len(),
                                width >= 0,
                        ;
                        assert((m + 1) * width == m * width + width) by (nonlinear_arith);
                        assert(flat@.skip(0) =~= flat@);
                        assert(appended(deep[m], flat@, 0) =~= Seq::<Seq<T>>::empty());
                        assert(extended(deep, flat@, m) + appended(deep[m], flat@, 0) =~= extended(
                            deep,
                            flat@,
                            m,
                        ));
                    }
                    let ghost made = extended(deep, flat@, m);
                    let mut inner: &Link<T> = &flat.list;
                    let ghost mut j: int = 0;
                    loop
                        invariant
                            width == flat@.len(),
                            flat@ == elements(&flat.list),
                            made == extended(deep, flat@, m),
                            made.len() == m * width,
                            m * width + width <= usize::MAX,
                            0 <= m < deep.len(),
                            node.elem@ == deep[m],
                            deep[m].len() < usize::MAX,
                            0 <= j <= width,
                            elements(inner) == flat@.skip(j),
                            deep_of(&results) == (made + appended(deep[m], flat@, j)).reverse(),
                            count == elements(&results).len(),
                        ensures
                            deep_of(&results) == (made + appended(
                                deep[m],
                                flat@,
                                width,
                            )).reverse(),
                            count == elements(&results).len(),
                        decreases width - j,
                    {
                        match &**inner {
                            None => {
                                proof {
                                    lemma_elements(inner);
                                    assert(flat@.skip(j).len() == 0);
                                }
                                break ;
                            },
                            Some(entry) => {
                                proof {
                                    lemma_elements(inner);
                                    assert(flat@.skip(j).len() > 0);
                                    assert(flat@.skip(j)[0] == flat@[j]);
                                    assert(flat@.skip(j).drop_first() =~= flat@.skip(j + 1));
                                    lemma_deep_of(&results);
                                }
                                let longer = node.elem.pushed(&entry.elem);
                                let ghost old_results = deep_of(&results);
                                results = cons(Rc::new(longer), results);
                                count = count + 1;
                                proof {
                                    lemma_deep_of(&results);
                                    let now = appended(deep[m], flat@, j + 1);
                                    let was = appended(deep[m], flat@, j);
                                    assert(now =~= was.push(deep[m].push(flat@[j])));
                                    assert((made + now).reverse() =~= seq![deep[m].push(flat@[j])] + (
                                    made + was).reverse());
                                    assert(deep_of(&results) =~= (made + now).reverse());
                                    j = j + 1;
                                }
                                inner = &entry.tail;
                            },
                        }
                    }
                    proof {
                        m = m + 1;
                    }
                    outer = &node.tail;
                },
            }
        }
        (results, count)
    }

    /// Every list that this list holds with every element of `flatlist`
    /// pushed onto it, the last made first. Where `flatlist` is empty, the
    /// list as it is; where this list is empty, a list for each element of
    /// `flatlist`.
    pub fn combine(&self, flatlist: LinkList<T>) -> (list: LinkList<LinkList<T>>)
        requires
            bounded_by(self.deep(), usize::MAX - 1),
            self.deep().len() * flatlist@.len() <= usize::MAX,
        ensures
            list.deep() == combined(self.deep(), flatlist@),
    {
        if flatlist.is_empty() {
            return self.duplicate();
        }
        proof {
            lemma_deep_of(&self.list);
        }
        if self.is_empty() {
            return flatlist.fatten();
        }
        let (list, size) = self.extend_reversed(&flatlist);
        LinkList { size, list }
    }

    /// The lists of `accumulator`, each extended by one element of each of
    /// the lists that this list holds, in every way.
    pub fn accumulate_combinations(&self, accumulator: LinkList<LinkList<T>>) -> (list: LinkList<
        LinkList<T>,
    >)
        requires
            bounded_by(accumulator.deep(), usize::MAX - self.deep().len()),
            accumulation_fits(accumulator.deep(), self.deep()),
        ensures
            list.deep() == accumulated(accumulator.deep(), self.deep(), self.deep().len() as int),
    {
        let ghost deep = self.deep();
        let ghost start = accumulator.deep();
        let mut result = accumulator;
        let mut cursor: &Link<LinkList<T>> = &self.list;
        let ghost mut n: int = 0;
        proof {
            assert(deep.skip(0) =~= deep);
        }
        loop
            invariant
                deep == self.deep(),
                start == accumulator.deep(),
                bounded_by(start, usize::MAX - deep.len()),
                accumulation_fits(start, deep),
                0 <= n <= deep.len(),
                deep_of(cursor) == deep.skip(n),
                result.deep() == accumulated(start, deep, n),
            decreases deep.len() - n,
        {
            match &**cursor {
                None => {
                    proof {
                        lemma_deep_of(cursor);
                        assert(deep.skip(n).len() == 0);
                    }
                    return result;
                },
                Some(node) => {
                    proof {
                        lemma_deep_of(cursor);
                        assert(deep.skip(n).len() > 0);
                        assert(deep.skip(n)[0] == deep[n]);
                        assert(deep.skip(n).drop_first() =~= deep.skip(n + 1));
                        lemma_accumulated_bound(start, deep, n, usize::MAX - deep.len());
                        assert(accumulated(start, deep, n).len() * deep[n].len() <= usize::MAX);
                    }
                    let (reversed, size) = result.extend_reversed(&*node.elem);
                    let list = reverse_onto(&reversed, LinkNode::null());
                    proof {
                        lemma_deep_of(&reversed);
                        lemma_deep_of(&list);
                        assert(elements(&list) =~= elements(&reversed).reverse());
                        assert(deep_of(&list) =~= deep_of(&reversed).reverse());
                        let made = extended(result.deep(), deep[n], result.deep().len() as int);
                        assert(made.reverse().reverse() =~= made);
                    }
                    result = LinkList { size, list };
                    proof {
                        n = n + 1;
                    }
                    cursor = &node.tail;
                },
            }
        }
    }

    /// Every list that takes one element from each of the lists that this
    /// list holds, in order: one empty list where this list is empty, and
    /// none where one of its lists is.
    pub fn combinations(&self) -> (list: LinkList<LinkList<T>>)
        requires
            accumulation_fits(seq![Seq::<T>::empty()], self.deep()),
        ensures
            list.deep() == cartesian(self.deep()),
    {
        let start: LinkList<LinkList<T>> = LinkList::of_one(LinkList::new());
        proof {
            lemma_deep_of(&start.list);
            assert(start.deep() =~= seq![Seq::<T>::empty()]);
            lemma_deep_of(&self.list);
            use_type_invariant(self);
        }
        self.accumulate_combinations(start)
    }

    /// The elements of the lists that this list holds, list by list.
    pub closed spec fn deep(&self) -> Seq<Seq<T>> {
        deep_of(&self.list)
    }

    /// The lists that the list holds are those whose elements `deep` gives.
    pub proof fn lemma_deep(&self)
        ensures
            self.deep().len() == self@.len(),
            forall|i: int| 0 <= i < self@.len() ==> (#[trigger] self.deep()[i]) == self@[i]@,
    {
    }

    /// The list of the elements of the lists that this list holds.
    pub fn flatten(&self) -> (list: LinkList<T>)
        requires
            self.deep().flatten().len() <= usize::MAX,
        ensures
            list@ == self.deep().flatten(),
    {
        let ghost deep = self.deep();
        let mut result: LinkList<T> = LinkList::new();
        let mut cursor: &Link<LinkList<T>> = &self.list;
        let ghost mut done: int = 0;
        proof {
            assert(deep.skip(0) =~= deep);
            assert(deep.take(0) =~= Seq::<Seq<T>>::empty());
        }
        loop
            invariant
                deep == self.deep(),
                deep.flatten().len() <= usize::MAX,
                0 <= done <= deep.len(),
                deep_of(cursor) == deep.skip(done),
                result@ == deep.take(done).flatten(),
            decreases deep.len() - done,
        {
            match &**cursor {
                None => {
                    proof {
                        lemma_deep_of(cursor);
                        assert(deep.skip(done).len() == 0);
                        assert(deep.take(done) =~= deep);
                    }
                    return result;
                },
                Some(node) => {
                    proof {
                        lemma_deep_of(cursor);
                        assert(deep.skip(done).len() > 0);
                        assert(deep.skip(done)[0] == deep[done]);
                        assert(deep.skip(done).drop_first() =~= deep.skip(done + 1));
                        assert(deep.take(done + 1) =~= deep.take(done).push(deep[done]));
                        deep.take(done).lemma_flatten_push(deep[done]);
                        lemma_total_len(deep, done + 1);
                    }
                    result = result.concat(&*node.elem);
                    proof {
                        assert(result@ =~= deep.take(done + 1).flatten());
                        done = done + 1;
                    }
                    cursor = &node.tail;
                },
            }
        }
    }

    /// The list of what `mapper` returns for each element of each of the
    /// lists that this list holds.
    pub fn flatmap<R>(&self, mapper: impl Fn(&T) -> R) -> (list: LinkList<R>)
        requires
            self.deep().flatten().len() <= usize::MAX,
            forall|i: int, j: int|
                0 <= i < self.deep().len() && 0 <= j < self.deep()[i].len() ==> mapper.requires(
                    (&#[trigger] self.deep()[i][j],),
                ),
        ensures
            exists|mapped: Seq<Seq<R>>|
                {
                    &&& mapped.len() == self.deep().len()
                    &&& forall|i: int| 0 <= i < mapped.len() ==> maps_to(mapper, self.deep()[i], #[trigger] mapped[i])
                    &&& list@ == mapped.flatten()
                },
    {
        let ghost deep = self.deep();
        let mut result: LinkList<R> = LinkList::new();
        let mut cursor: &Link<LinkList<T>> = &self.list;
        let ghost mut mapped: Seq<Seq<R>> = Seq::empty();
        proof {
            assert(deep.skip(0) =~= deep);
        }
        loop
            invariant
                deep == self.deep(),
                deep.flatten().len() <= usize::MAX,
                forall|i: int, j: int|
                    0 <= i < deep.len() && 0 <= j < deep[i].len() ==> mapper.requires(
                        (&#[trigger] deep[i][j],),
                    ),
                mapped.len() <= deep.len(),
                deep_of(cursor) == deep.skip(mapped.len() as int),
                forall|i: int| 0 <= i < mapped.len() ==> maps_to(mapper, deep[i], #[trigger] mapped[i]),
                result@ == mapped.flatten(),
            decreases deep.len() - mapped.len(),
        {
            match &**cursor {
                None => {
                    proof {
                        lemma_deep_of(cursor);
                        assert(deep.skip(mapped.len() as int).len() == 0);
                    }
                    return result;
                },
                Some(node) => {
                    let ghost done = mapped.len() as int;
                    proof {
                        lemma_deep_of(cursor);
                        assert(deep.skip(done).len() > 0);
                        assert(deep.skip(done)[0] == deep[done]);
                        assert(deep.skip(done).drop_first() =~= deep.skip(done + 1));
                        use_type_invariant(&*node.elem);
                        assert(node.elem@ == elements(&node.elem.list));
                        assert forall|j: int| 0 <= j < elements(&node.elem.list).len() implies mapper.requires(
                            (&#[trigger] elements(&node.elem.list)[j],),
                        ) by {
                            assert(mapper.requires((&deep[done][j],)));
                        }
                    }
                    let reversed = map_reversed(&node.elem.list, &mapper);
                    let images = LinkList {
                        size: node.elem.size,
                        list: reverse_onto(&reversed, LinkNode::null()),
                    };
                    proof {
                        assert(images@ =~= elements(&reversed).reverse());
                        mapped.lemma_flatten_push(images@);
                        let next = mapped.push(images@);
                        lemma_total_len(deep, done + 1);
                        assert(deep.take(done + 1).len() == next.len());
                        assert forall|i: int| 0 <= i < next.len() implies (#[trigger] deep.take(
                            done + 1,
                        )[i]).len() == next[i].len() by {
                            if i < done {
                                assert(maps_to(mapper, deep[i], mapped[i]));
                            }
                        }
                        lemma_total_len_shape(deep.take(done + 1), next);
                        lemma_flatten_len(next);
                    }
                    result = result.concat(&images);
                    proof {
                        mapped = mapped.push(images@);
                    }
                    cursor = &node.tail;
                },
            }
        }
    }
}

/// A sequence put together again from its parts, with the elements at
/// `low` and `high` in each other's place, is the sequence with the two
/// swapped.
proof fn lemma_swapped<T>(all: Seq<T>, low: int, high: int)
    requires
        0 <= low < high < all.len(),
    ensures
        all.take(low).reverse().reverse() + (seq![all[high]] + (all.skip(low + 1).take(
            high - low - 1,
        ).reverse().reverse() + (seq![all[low]] + all.skip(high + 1)))) == all.update(
            low,
            all[high],
        ).update(high, all[low]),
        all.update(low, all[high]).update(high, all[low]) == all.update(high, all[low]).update(
            low,
            all[high],
        ),
{
    let middle = all.skip(low + 1).take(high - low - 1);
    assert(all.take(low).reverse().reverse() =~= all.take(low));
    assert(middle.reverse().reverse() =~= middle);
    assert(all.take(low) + (seq![all[high]] + (middle + (seq![all[low]] + all.skip(high + 1))))
        =~= all.update(low, all[high]).update(high, all[low]));
    assert(all.update(low, all[high]).update(high, all[low]) =~= all.update(high, all[low]).update(
        low,
        all[high],
    ));
}

} // verus!
