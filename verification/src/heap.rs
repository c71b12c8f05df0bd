//! A binary max-heap.

use crate::order::{gt, is_total_order, le, lt};
use vstd::multiset::Multiset;
use vstd::prelude::*;
use vstd::seq_lib::{to_multiset_build, to_multiset_contains, to_multiset_len, to_multiset_update};

verus! {

/// A max-heap stored level by level: the children of the entry `i` are the entries
/// `2 i + 1` and `2 i + 2`.
pub struct Heap<T: Ord> {
    xs: Vec<T>,
}

/// Every entry but the first is at most its parent.
pub open spec fn heap_ordered<T: PartialOrd>(s: Seq<T>) -> bool {
    forall|c: int| 0 < c < s.len() ==> le(#[trigger] s[c], s[(c - 1) / 2])
}

/// Every entry but the first and the entry `i` is at most its parent.
spec fn ordered_but_at<T: PartialOrd>(s: Seq<T>, i: int) -> bool {
    forall|c: int| 0 < c < s.len() && c != i ==> le(#[trigger] s[c], s[(c - 1) / 2])
}

/// Every entry whose parent is not the entry `i` is at most its parent.
spec fn ordered_but_below<T: PartialOrd>(s: Seq<T>, i: int) -> bool {
    forall|c: int| 0 < c < s.len() && (c - 1) / 2 != i ==> le(#[trigger] s[c], s[(c - 1) / 2])
}

/// The children of the entry `i` are at most the parent of `i`.
spec fn bridged<T: PartialOrd>(s: Seq<T>, i: int) -> bool {
    forall|c: int| 0 < c < s.len() && (c - 1) / 2 == i && i > 0 ==> le(#[trigger] s[c], s[(i - 1) / 2])
}

/// `s` with the entries `i` and `j` exchanged.
spec fn swapped<T>(s: Seq<T>, i: int, j: int) -> Seq<T> {
    s.update(i, s[j]).update(j, s[i])
}

/// `top` is an element of `m`, and every element of `m` is at most `top`.
pub open spec fn is_greatest<T: PartialOrd>(m: Multiset<T>, top: T) -> bool {
    &&& m.contains(top)
    &&& forall|y: T| m.contains(y) ==> #[trigger] le(y, top)
}

/// Exchanging two entries keeps the elements.
proof fn lemma_swap_keeps_elements<T>(s: Seq<T>, i: int, j: int)
    requires
        0 <= i < s.len(),
        0 <= j < s.len(),
    ensures
        swapped(s, i, j).to_multiset() == s.to_multiset(),
{
    let mid = s.update(i, s[j]);
    to_multiset_update(s, i, s[j]);
    to_multiset_update(mid, j, s[i]);
    to_multiset_contains(s, s[i]);
    to_multiset_contains(s, s[j]);
    assert(s.contains(s[i]));
    assert(s.contains(s[j]));
    assert(swapped(s, i, j).to_multiset() =~= s.to_multiset());
}

/// Dropping the last entry takes one element out, the one that the entry held.
proof fn lemma_drop_last_removes<T>(s: Seq<T>)
    requires
        s.len() > 0,
    ensures
        s.drop_last().to_multiset() == s.to_multiset().remove(s.last()),
{
    to_multiset_build(s.drop_last(), s.last());
    assert(s.drop_last().push(s.last()) =~= s);
    assert(s.drop_last().to_multiset() =~= s.to_multiset().remove(s.last()));
}

/// In a heap every entry is at most the first.
proof fn lemma_first_is_greatest<T: PartialOrd>(s: Seq<T>, c: int)
    requires
        is_total_order::<T>(),
        heap_ordered(s),
        0 <= c < s.len(),
    ensures
        le(s[c], s[0]),
    decreases c,
{
    if c > 0 {
        lemma_first_is_greatest(s, (c - 1) / 2);
        assert(le(s[c], s[(c - 1) / 2]));
    } else {
        assert(le(s[0], s[0]) || le(s[0], s[0]));
    }
}

/// `<[T]>::swap` on the contents of a vector: the two entries change places, and all
/// others stay.
#[verifier::external_body]
fn swap_entries<T>(xs: &mut Vec<T>, i: usize, j: usize)
    requires
        i < old(xs).len(),
        j < old(xs).len(),
    ensures
        final(xs)@ == swapped(old(xs)@, i as int, j as int),
{
    xs.swap(i, j)
}

impl<T: Ord> View for Heap<T> {
    type V = Multiset<T>;

    /// The elements of the heap, each as often as it was put in and not yet taken out.
    closed spec fn view(&self) -> Multiset<T> {
        self.xs@.to_multiset()
    }
}

impl<T: Ord> Heap<T> {
    /// Where the element type is totally ordered, no entry is greater than its parent.
    pub closed spec fn wf(&self) -> bool {
        is_total_order::<T>() ==> heap_ordered(self.xs@)
    }

    /// The parent of index 'i' in a perfectly balanced binary tree or 'None' if
    /// 'i' is the root.
    pub fn parent(i: usize) -> (p: Option<usize>)
        ensures
            i == 0 ==> p is None,
            i > 0 ==> p == Some(((i - 1) / 2) as usize),
    {
        if i == 0 {
            return None;
        } else {
            return Some((i - 1) / 2);
        }
    }

    /// The left child index 'i' in a perfectly balanced binary tree or 'None'
    /// if this access is out of bounds.
    pub fn left_child(&self, i: usize) -> (child: Option<usize>)
        ensures
            2 * i + 1 < self@.len() ==> child == Some((2 * i + 1) as usize),
            2 * i + 1 >= self@.len() ==> child is None,
    {
        proof {
            to_multiset_len(self.xs@);
        }
        let n = self.xs.len();
        if i > (usize::MAX - 1) / 2 {
            return None;
        }
        let j = 2 * i + 1;
        if j >= n {
            return None;
        } else {
            return Some(j);
        }
    }

    /// The right child index 'i' in a perfectly balanced binary tree or 'None'
    /// if this access is out of bounds.
    pub fn right_child(&self, i: usize) -> (child: Option<usize>)
        ensures
            2 * i + 2 < self@.len() ==> child == Some((2 * i + 2) as usize),
            2 * i + 2 >= self@.len() ==> child is None,
    {
        proof {
            to_multiset_len(self.xs@);
        }
        let n = self.xs.len();
        if i > (usize::MAX - 2) / 2 {
            return None;
        }
        let j = 2 * i + 2;
        if j >= n {
            return None;
        } else {
            return Some(j);
        }
    }

    /// The entries of the heap in the order in which it stores them.
    pub fn entries(&self) -> (entries: &Vec<T>)
        ensures
            entries@.to_multiset() == self@,
            self.wf() && is_total_order::<T>() ==> heap_ordered(entries@),
    {
        &self.xs
    }

    /// Create an empty max-heap.
    ///
    /// Time complexity: O(1)
    pub fn new() -> (heap: Self)
        ensures
            heap.wf(),
            heap@ == Multiset::<T>::empty(),
    {
        let heap = Heap { xs: Vec::new() };
        assert(heap.xs@.to_multiset() =~= Multiset::<T>::empty()) by {
            to_multiset_len(heap.xs@);
        }
        heap
    }

    /// True if heap is empty, false otherwise.
    ///
    /// Time complexity: O(1)
    pub fn empty(&self) -> (none: bool)
        ensures
            none <==> self@.len() == 0,
    {
        proof {
            to_multiset_len(self.xs@);
        }
        self.xs.len() == 0
    }

    /// Insert an element into the max-heap.
    ///
    /// Time complexity: O(log n)
    pub fn push(&mut self, x: T)
        requires
            old(self).wf(),
        ensures
            final(self).wf(),
            final(self)@ == old(self)@.insert(x),
    {
        let ghost start = self.xs@;
        self.xs.push(x);
        proof {
            to_multiset_build(start, x);
            if is_total_order::<T>() {
                assert forall|c: int| 0 < c < self.xs@.len() && c != start.len() implies le(
                    #[trigger] self.xs@[c],
                    self.xs@[(c - 1) / 2],
                ) by {
                    assert(le(start[c], start[(c - 1) / 2]));
                }
            }
        }
        let mut i = self.xs.len() - 1;
        loop
            invariant_except_break
                i < self.xs.len(),
                self.xs@.to_multiset() == start.to_multiset().insert(x),
                is_total_order::<T>() ==> ordered_but_at(self.xs@, i as int) && bridged(self.xs@, i as int),
            ensures
                self.xs@.to_multiset() == start.to_multiset().insert(x),
                is_total_order::<T>() ==> heap_ordered(self.xs@),
            decreases i,
        {
            match Self::parent(i) {
                None => {
                    break ;
                },
                Some(j) => {
                    let ghost s = self.xs@;
                    if self.xs[i] > self.xs[j] {
                        swap_entries(&mut self.xs, i, j);
                        proof {
                            lemma_swap_keeps_elements(s, i as int, j as int);
                            if is_total_order::<T>() {
                                let t = self.xs@;
                                assert(gt(s[i as int], s[j as int]));
                                assert(le(s[j as int], s[i as int]) || le(s[i as int], s[j as int]));
                                assert forall|c: int| 0 < c < t.len() && c != j implies le(
                                    #[trigger] t[c],
                                    t[(c - 1) / 2],
                                ) by {
                                    let p = (c - 1) / 2;
                                    if c == i {
                                    } else if p == j {
                                        assert(le(s[c], s[j as int]));
                                    } else if p == i {
                                        assert(le(s[c], s[(i - 1) / 2]));
                                    } else {
                                        assert(le(s[c], s[p]));
                                    }
                                }
                                assert forall|c: int| 0 < c < t.len() && (c - 1) / 2 == j && j > 0 implies le(
                                    #[trigger] t[c],
                                    t[(j - 1) / 2],
                                ) by {
                                    assert(le(s[j as int], s[(j - 1) / 2]));
                                    if c != i {
                                        assert(le(s[c], s[j as int]));
                                    }
                                }
                            }
                        }
                        i = j;
                    } else {
                        proof {
                            if is_total_order::<T>() {
                                assert(!gt(s[i as int], s[j as int]));
                                assert forall|c: int| 0 < c < s.len() implies le(#[trigger] s[c], s[(c - 1) / 2]) by {
                                    if c != i {
                                        assert(le(s[c], s[(c - 1) / 2]));
                                    }
                                }
                            }
                        }
                        break ;
                    }
                },
            }
        }
    }

    /// Get a reference to the largest element in the heap or 'None' if heap is
    /// empty.
    ///
    /// Time complexity: O(1)
    pub fn peek(&self) -> (top: Option<&T>)
        requires
            self.wf(),
        ensures
            top is None <==> self@.len() == 0,
            top matches Some(x) ==> self@.contains(*x),
            top matches Some(x) ==> (is_total_order::<T>() ==> is_greatest(self@, *x)),
    {
        proof {
            to_multiset_len(self.xs@);
        }
        if self.xs.len() == 0 {
            return None;
        } else {
            proof {
                self.lemma_first_entry_is_greatest();
            }
            return Some(&self.xs[0]);
        }
    }

    /// The first entry of a heap that is not empty is one of its greatest elements.
    proof fn lemma_first_entry_is_greatest(&self)
        requires
            self.wf(),
            self.xs@.len() > 0,
        ensures
            self@.contains(self.xs@[0]),
            is_total_order::<T>() ==> is_greatest(self@, self.xs@[0]),
    {
        let s = self.xs@;
        to_multiset_contains(s, s[0]);
        assert(s.contains(s[0]));
        if is_total_order::<T>() {
            assert forall|y: T| self@.contains(y) implies #[trigger] le(y, s[0]) by {
                to_multiset_contains(s, y);
                let k = choose|k: int| 0 <= k < s.len() && s[k] == y;
                lemma_first_is_greatest(s, k);
            }
        }
    }

    /// Remove the largest element in the heap. Returns the removed element or
    /// 'None' in case the heap was empty.
    ///
    /// Time complexity: O(log n)
    pub fn pop(&mut self) -> (top: Option<T>)
        requires
            old(self).wf(),
        ensures
            final(self).wf(),
            top is None <==> old(self)@.len() == 0,
            top is None ==> final(self)@ == old(self)@,
            top matches Some(x) ==> old(self)@.contains(x) && final(self)@ == old(self)@.remove(x),
            top matches Some(x) ==> (is_total_order::<T>() ==> is_greatest(old(self)@, x)),
    {
        proof {
            to_multiset_len(self.xs@);
        }
        if self.xs.len() == 0 {
            return None;
        } else {
            let ghost start = self.xs@;
            proof {
                self.lemma_first_entry_is_greatest();
            }
            let n = self.xs.len();
            swap_entries(&mut self.xs, 0, n - 1);
            let ghost turned = self.xs@;
            let popped_elem = self.xs.pop();
            proof {
                lemma_swap_keeps_elements(start, 0, n - 1);
                lemma_drop_last_removes(turned);
                assert(popped_elem == Some(start[0]));
                let s = self.xs@;
                if is_total_order::<T>() {
                    assert forall|c: int| 0 < c < s.len() && (c - 1) / 2 != 0 implies le(
                        #[trigger] s[c],
                        s[(c - 1) / 2],
                    ) by {
                        assert(le(start[c], start[(c - 1) / 2]));
                    }
                }
            }

            let mut i: usize = 0;
            loop
                invariant_except_break
                    self.xs@.len() == n - 1,
                    self.xs@.to_multiset() == start.to_multiset().remove(start[0]),
                    is_total_order::<T>() ==> ordered_but_below(self.xs@, i as int) && bridged(self.xs@, i as int),
                ensures
                    self.xs@.to_multiset() == start.to_multiset().remove(start[0]),
                    is_total_order::<T>() ==> heap_ordered(self.xs@),
                decreases n - i,
            {
                let ghost s = self.xs@;
                proof {
                    to_multiset_len(s);
                }
                match self.left_child(i) {
                    None => {
                        proof {
                            if is_total_order::<T>() {
                                assert forall|c: int| 0 < c < s.len() implies le(#[trigger] s[c], s[(c - 1) / 2]) by {
                                    if (c - 1) / 2 != i {
                                        assert(le(s[c], s[(c - 1) / 2]));
                                    }
                                }
                            }
                        }
                        break ;
                    },
                    Some(l) => {
                        let big = match self.right_child(i) {
                            Some(r) => if self.xs[l] < self.xs[r] {
                                r
                            } else {
                                l
                            },
                            None => l,
                        };
                        proof {
                            if is_total_order::<T>() {
                                if 2 * i + 2 < s.len() {
                                    let r = 2 * i + 2;
                                    assert(lt(s[l as int], s[r]) <==> !le(s[r], s[l as int]));
                                    assert(le(s[l as int], s[r]) || le(s[r], s[l as int]));
                                }
                                assert(le(s[big as int], s[big as int]) || le(s[big as int], s[big as int]));
                                assert forall|c: int| 0 < c < s.len() && (c - 1) / 2 == i implies le(
                                    #[trigger] s[c],
                                    s[big as int],
                                ) by {
                                    assert(c == 2 * i + 1 || c == 2 * i + 2);
                                }
                            }
                        }
                        if self.xs[i] < self.xs[big] {
                            swap_entries(&mut self.xs, i, big);
                            proof {
                                lemma_swap_keeps_elements(s, i as int, big as int);
                                if is_total_order::<T>() {
                                    let t = self.xs@;
                                    assert(lt(s[i as int], s[big as int]));
                                    assert(le(s[i as int], s[big as int]) || le(s[big as int], s[i as int]));
                                    assert forall|c: int| 0 < c < t.len() && (c - 1) / 2 != big implies le(
                                        #[trigger] t[c],
                                        t[(c - 1) / 2],
                                    ) by {
                                        let p = (c - 1) / 2;
                                        if c == big {
                                        } else if p == i {
                                            assert(le(s[c], s[big as int]));
                                        } else if c == i {
                                            assert(le(s[big as int], s[(i - 1) / 2]));
                                        } else {
                                            assert(le(s[c], s[p]));
                                        }
                                    }
                                    assert forall|c: int|
                                        0 < c < t.len() && (c - 1) / 2 == big && big > 0 implies le(
                                        #[trigger] t[c],
                                        t[(big - 1) / 2],
                                    ) by {
                                        assert(le(s[c], s[(c - 1) / 2]));
                                    }
                                }
                            }
                            i = big;
                        } else {
                            proof {
                                if is_total_order::<T>() {
                                    assert(!lt(s[i as int], s[big as int]));
                                    assert forall|c: int| 0 < c < s.len() implies le(
                                        #[trigger] s[c],
                                        s[(c - 1) / 2],
                                    ) by {
                                        if (c - 1) / 2 != i {
                                            assert(le(s[c], s[(c - 1) / 2]));
                                        } else {
                                            assert(le(s[c], s[big as int]));
                                        }
                                    }
                                }
                            }
                            break ;
                        }
                    },
                }
            }
            popped_elem
        }
    }
}

} // verus!
