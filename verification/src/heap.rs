use vstd::prelude::*;
use vstd::multiset::Multiset;
use vstd::arithmetic::power2::pow2;
use std::collections::VecDeque;
use std::fmt::Display;
use vstd::string::to_string_from_display_ensures;
use crate::text::{dump, layout};
use crate::tree::tree_text;
use crate::order::{total_order, le, lemma_le_trans, lemma_le_total};
use crate::sums::{total, lemma_total_update, lemma_total_all_empty, lemma_total_contains};
use crate::shape::{
    HeapShape, Shape, leaf_shape, empty_shape, take_in, place, bucket, gather, slots_for,
    consolidated_shape, popped_shape, merged_shape,
};
use crate::extraction::is_least;
use crate::tree::{
    shapes, InternalTree, forest_elems, forest_parts, forest_wf, lemma_forest_empty, lemma_forest_push,
    lemma_forest_concat, lemma_forest_first, lemma_forest_part,
};

verus! {

/// A mergeable minimum-priority queue: the tree with the smallest key under
/// `min_pointer`, every other tree in `children_list`.
#[derive(Debug)]
pub struct FibonacciHeap<T: Ord> {
    pub children_list: VecDeque<InternalTree<T>>,
    pub size: usize,
    pub min_pointer: Option<InternalTree<T>>,
}

/// The shapes of the trees in the slots of the degree table, slot by slot.
pub open spec fn slot_shapes<T: Ord>(slots: Seq<Option<InternalTree<T>>>) -> Seq<
    Option<Shape<T>>,
> {
    Seq::new(
        slots.len(),
        |i: int|
            match slots[i] {
                Some(tree) => Some(tree@),
                None => None,
            },
    )
}

/// The keys held by one slot of the degree table.
pub open spec fn slot_elems<T: Ord>(slot: Option<InternalTree<T>>) -> Multiset<T> {
    match slot {
        Some(tree) => tree.elems(),
        None => Multiset::empty(),
    }
}

/// The keys held by each slot of the degree table, slot by slot.
pub open spec fn slots_parts<T: Ord>(slots: Seq<Option<InternalTree<T>>>) -> Seq<Multiset<T>> {
    Seq::new(slots.len(), |i: int| slot_elems(slots[i]))
}

/// Slot `d` of the degree table holds nothing or a well-formed binomial tree
/// of degree `d`.
pub open spec fn slots_wf<T: Ord>(slots: Seq<Option<InternalTree<T>>>) -> bool {
    forall|d: int|
        0 <= d < slots.len() ==> match #[trigger] slots[d] {
            Some(tree) => tree.wf() && tree.binomial() && tree.degree == d,
            None => true,
        }
}

/// The number of slots the degree table needs for `n` keys: the position of
/// the highest set bit of `n`, counted from one.
pub fn slot_count(n: usize) -> (r: usize)
    requires
        n > 0,
    ensures
        r == slots_for(n as nat),
        1 <= r <= 64,
        pow2((r - 1) as nat) <= n < pow2(r as nat),
{
    let mut r: usize = 0;
    let mut rest: usize = n;
    proof {
        vstd::arithmetic::power2::lemma2_to64();
    }
    while rest > 0
        invariant
            r <= 64,
            rest * pow2(r as nat) <= n < (rest + 1) * pow2(r as nat),
            rest > 0 ==> r < 64,
            rest < n ==> r >= 1 && pow2((r - 1) as nat) <= n,
            r + slots_for(rest as nat) == slots_for(n as nat),
            n > 0,
        decreases rest,
    {
        let ghost p = pow2(r as nat) as int;
        let ghost before = rest as int;
        rest = rest / 2;
        r = r + 1;
        proof {
            vstd::arithmetic::power2::lemma_pow2_unfold(r as nat);
            vstd::arithmetic::power2::lemma_pow2_pos((r - 1) as nat);
            vstd::arithmetic::power2::lemma2_to64();
            let after = rest as int;
            assert(2 * after <= before < 2 * after + 2);
            assert(after * (2 * p) <= before * p) by (nonlinear_arith)
                requires
                    2 * after <= before,
                    p > 0,
            ;
            assert((before + 1) * p <= (after + 1) * (2 * p)) by (nonlinear_arith)
                requires
                    before + 1 <= 2 * after + 2,
                    p > 0,
            ;
            assert(p <= before * p) by (nonlinear_arith)
                requires
                    before >= 1,
                    p > 0,
            ;
            if rest > 0 {
                assert(2 * p <= after * (2 * p)) by (nonlinear_arith)
                    requires
                        after >= 1,
                        p > 0,
                ;
                if r >= 64 {
                    vstd::arithmetic::power2::lemma_pow2_strictly_increases(63, r as nat);
                }
            }
        }
    }
    proof {
        let p = pow2(r as nat) as int;
        assert((rest + 1) * p == p) by (nonlinear_arith)
            requires
                rest == 0,
        ;
    }
    r
}

impl<T: Ord> View for FibonacciHeap<T> {
    type V = HeapShape<T>;

    /// The shape of the heap.
    open spec fn view(&self) -> HeapShape<T> {
        HeapShape {
            least: match self.min_pointer {
                Some(tree) => Some(tree@),
                None => None,
            },
            roots: shapes(self.children_list@),
        }
    }
}

impl<T: Ord> FibonacciHeap<T> {
    /// All keys of the heap, with multiplicity.
    pub open spec fn keys(&self) -> Multiset<T> {
        slot_elems(self.min_pointer).add(forest_elems(self.children_list@))
    }

    /// The key under `min_pointer`. Meaningful only on a non-empty heap.
    pub open spec fn min_key(&self) -> T {
        self.min_pointer->0.key()
    }

    /// Every tree is well formed and binomial, and a heap without a minimum
    /// has no trees at all.
    pub open spec fn trees_wf(&self) -> bool {
        &&& forest_wf(self.children_list@)
        &&& match self.min_pointer {
            Some(tree) => tree.wf() && tree.binomial(),
            None => self.children_list@.len() == 0,
        }
    }

    /// `size` is the number of keys.
    pub open spec fn counted(&self) -> bool {
        self.size == self.keys().len()
    }

    /// No root has a smaller key than the tree under `min_pointer`.
    pub open spec fn ordered(&self) -> bool {
        self.min_pointer is Some ==> forall|i: int|
            0 <= i < self.children_list@.len() ==> le(
                self.min_key(),
                (#[trigger] self.children_list@[i]).key(),
            )
    }

    /// What every operation but the choice of the minimum relies on.
    pub open spec fn shaped(&self) -> bool {
        self.trees_wf() && self.counted()
    }

    /// The heap's invariant.
    pub open spec fn wf(&self) -> bool {
        self.shaped() && self.ordered()
    }

    /// No two trees of the heap, the one under `min_pointer` included, have
    /// the same degree.
    pub open spec fn consolidated(&self) -> bool {
        &&& forall|i: int, j: int|
            0 <= i < j < self.children_list@.len() ==> (#[trigger] self.children_list@[i]).degree
                != (#[trigger] self.children_list@[j]).degree
        &&& self.min_pointer is Some ==> forall|i: int|
            0 <= i < self.children_list@.len() ==> (#[trigger] self.children_list@[i]).degree
                != self.min_pointer->0.degree
    }

    /// Every tree of the heap has a degree below `bound`.
    pub open spec fn degrees_below(&self, bound: int) -> bool {
        &&& forall|i: int|
            0 <= i < self.children_list@.len() ==> (#[trigger] self.children_list@[i]).degree
                < bound
        &&& self.min_pointer is Some ==> self.min_pointer->0.degree < bound
    }

    /// A tree of degree d stands for 2^d keys of the heap: no degree exceeds
    /// the binary logarithm of `size`, which is below its logarithm to the
    /// base of the golden ratio.
    pub open spec fn degree_bounded(&self) -> bool {
        &&& self.min_pointer is Some ==> pow2(self.min_pointer->0.degree as nat) <= self.size
        &&& forall|i: int|
            0 <= i < self.children_list@.len() ==> pow2(
                (#[trigger] self.children_list@[i]).degree as nat,
            ) <= self.size
    }

    /// A heap whose trees are well formed holds a key exactly when it has a
    /// minimum, and then holds the minimum's key.
    pub proof fn lemma_nonempty(&self)
        requires
            self.trees_wf(),
        ensures
            self.min_pointer is Some <==> self.keys().len() > 0,
            self.min_pointer is Some ==> self.keys().contains(self.min_key()),
    {
        match self.min_pointer {
            Some(tree) => {
                tree.lemma_elems();
            },
            None => {
                assert(self.children_list@ =~= Seq::empty());
                lemma_forest_empty::<T>();
            },
        }
    }

    /// On a well-formed heap the key under `min_pointer` is the least key.
    pub proof fn lemma_min_is_least(&self)
        requires
            total_order::<T>(),
            self.wf(),
            self.min_pointer is Some,
        ensures
            is_least(self.min_key(), self.keys()),
    {
        self.lemma_nonempty();
        let m = self.min_pointer->0;
        m.lemma_root_is_least();
        assert forall|x: T| self.keys().contains(x) implies le(self.min_key(), x) by {
            if !m.elems().contains(x) {
                let parts = forest_parts(self.children_list@);
                assert(total(parts).contains(x));
                let i = lemma_total_contains(parts, x);
                let root = self.children_list@[i];
                root.lemma_root_is_least();
                lemma_le_trans(m.key(), root.key(), x);
            }
        }
    }

    /// The empty heap.
    pub fn init() -> (r: Self)
        ensures
            r.size == 0,
            r.min_pointer is None,
            r.children_list@ == Seq::<InternalTree<T>>::empty(),
            r.keys() == Multiset::<T>::empty(),
            r@ == empty_shape::<T>(),
            r.wf(),
            r.consolidated(),
    {
        let r = FibonacciHeap { children_list: VecDeque::new(), size: 0, min_pointer: None };
        proof {
            assert(r@ =~= empty_shape::<T>());
            lemma_forest_empty::<T>();
            assert(r.keys() =~= Multiset::<T>::empty());
        }
        r
    }

    /// Whether the heap holds no key.
    pub fn is_empty(&self) -> (r: bool)
        ensures
            r == (self.size == 0),
    {
        self.size == 0
    }

    /// The number of keys.
    pub fn size(&self) -> (r: usize)
        ensures
            r == self.size,
    {
        self.size
    }

    /// Takes `tree` in as a root: it becomes the minimum if the heap has none
    /// or if its key is not larger than the minimum's, in which case the
    /// former minimum joins the other roots; otherwise it joins them itself.
    fn adopt(&mut self, tree: InternalTree<T>)
        requires
            total_order::<T>(),
            old(self).trees_wf(),
            old(self).ordered(),
            tree.wf(),
            tree.binomial(),
        ensures
            final(self).size == old(self).size,
            match old(self).min_pointer {
                None => {
                    &&& final(self).min_pointer == Some(tree)
                    &&& final(self).children_list@ == old(self).children_list@
                },
                Some(least) => if le(tree.key(), least.key()) {
                    &&& final(self).min_pointer == Some(tree)
                    &&& final(self).children_list@ == old(self).children_list@.push(least)
                } else {
                    &&& final(self).min_pointer == Some(least)
                    &&& final(self).children_list@ == old(self).children_list@.push(tree)
                },
            },
            final(self).trees_wf(),
            final(self).ordered(),
            final(self).keys() == old(self).keys().add(tree.elems()),
            final(self)@ == take_in(old(self)@, tree@),
    {
        if self.min_pointer.is_none() {
            self.min_pointer = Some(tree);
            proof {
                assert(self.keys() =~= old(self).keys().add(tree.elems()));
                assert(self@ =~= take_in(old(self)@, tree@));
            }
        } else {
            let ghost least = self.min_pointer->0;
            if InternalTree::is_smaller_or_equal(&tree, self.min_pointer.as_ref().unwrap()) {
                let temp = self.min_pointer.take().unwrap();
                self.min_pointer = Some(tree);
                self.children_list.push_back(temp);
                proof {
                    lemma_forest_push(old(self).children_list@, least);
                    assert(self.keys() =~= old(self).keys().add(tree.elems()));
                    assert(shapes(self.children_list@) =~= shapes(old(self).children_list@).push(
                        least@,
                    ));
                    assert(self@ =~= take_in(old(self)@, tree@));
                    assert forall|i: int| 0 <= i < self.children_list@.len() implies le(
                        self.min_key(),
                        (#[trigger] self.children_list@[i]).key(),
                    ) by {
                        if i < old(self).children_list@.len() {
                            lemma_le_trans(
                                tree.key(),
                                least.key(),
                                old(self).children_list@[i].key(),
                            );
                        }
                    }
                }
            } else {
                self.children_list.push_back(tree);
                proof {
                    lemma_le_total(tree.key(), least.key());
                    lemma_forest_push(old(self).children_list@, tree);
                    assert(self.keys() =~= old(self).keys().add(tree.elems()));
                    assert(shapes(self.children_list@) =~= shapes(old(self).children_list@).push(
                        tree@,
                    ));
                    assert(self@ =~= take_in(old(self)@, tree@));
                }
            }
        }
    }

    /// Adds one key.
    pub fn push(&mut self, payload: T)
        requires
            total_order::<T>(),
            old(self).wf(),
            old(self).size < usize::MAX,
        ensures
            final(self).size == old(self).size + 1,
            final(self).keys() == old(self).keys().insert(payload),
            final(self)@ == take_in(old(self)@, leaf_shape(payload)),
            final(self).wf(),
    {
        let new_node = InternalTree::init(payload);
        self.adopt(new_node);
        self.size += 1;
        proof {
            assert(self.keys() =~= old(self).keys().insert(payload));
        }
    }

    /// Moves every tree of `trees` to the end of the root list, in order.
    fn absorb(&mut self, trees: &mut Vec<InternalTree<T>>)
        ensures
            final(self).children_list@ == old(self).children_list@ + old(trees)@,
            final(self).size == old(self).size,
            final(self).min_pointer == old(self).min_pointer,
            final(trees)@.len() == 0,
    {
        while trees.len() > 0
            invariant
                self.children_list@ + trees@ == old(self).children_list@ + old(trees)@,
                self.size == old(self).size,
                self.min_pointer == old(self).min_pointer,
            decreases trees@.len(),
        {
            let ghost roots = self.children_list@;
            let ghost rest = trees@;
            let child = trees.remove(0);
            self.children_list.push_back(child);
            proof {
                assert(self.children_list@ + trees@ =~= roots + rest);
            }
        }
        proof {
            assert(self.children_list@ + trees@ =~= self.children_list@);
        }
    }

    /// Joins two heaps into one that holds the keys of both. An empty operand
    /// leaves the other one as it is. Otherwise the roots of the second follow
    /// the roots of the first and the smaller minimum is the minimum, on equal
    /// keys the second. A first minimum that gives way becomes the last root.
    /// A second minimum that is larger is taken apart: its children become
    /// roots, and its key is pushed.
    pub fn merge(fibonacci_heap_1: Self, fibonacci_heap_2: Self) -> (r: Self)
        requires
            total_order::<T>(),
            fibonacci_heap_1.wf(),
            fibonacci_heap_2.wf(),
            fibonacci_heap_1.size + fibonacci_heap_2.size <= usize::MAX,
        ensures
            r.wf(),
            r.size == fibonacci_heap_1.size + fibonacci_heap_2.size,
            r.keys() == fibonacci_heap_1.keys().add(fibonacci_heap_2.keys()),
            r@ == merged_shape(fibonacci_heap_1@, fibonacci_heap_2@),
            fibonacci_heap_1.size > 0 && fibonacci_heap_2.size > 0 ==> r.min_key() == if le(
                fibonacci_heap_2.min_key(),
                fibonacci_heap_1.min_key(),
            ) {
                fibonacci_heap_2.min_key()
            } else {
                fibonacci_heap_1.min_key()
            },
    {
        let mut fibonacci_heap_1 = fibonacci_heap_1;
        let mut fibonacci_heap_2 = fibonacci_heap_2;
        let ghost first = fibonacci_heap_1;
        let ghost second = fibonacci_heap_2;
        proof {
            first.lemma_nonempty();
            second.lemma_nonempty();
        }
        if fibonacci_heap_2.is_empty() {
            proof {
                assert(first.keys().add(second.keys()) =~= first.keys());
            }
            return fibonacci_heap_1;
        }
        if fibonacci_heap_1.is_empty() {
            proof {
                assert(first.keys().add(second.keys()) =~= second.keys());
            }
            return fibonacci_heap_2;
        }
        fibonacci_heap_1.children_list.append(&mut fibonacci_heap_2.children_list);
        let ghost joined = first.children_list@ + second.children_list@;
        proof {
            lemma_forest_concat(first.children_list@, second.children_list@);
        }
        if InternalTree::is_smaller_or_equal(
            fibonacci_heap_2.min_pointer.as_ref().unwrap(),
            fibonacci_heap_1.min_pointer.as_ref().unwrap(),
        ) {
            let temp = fibonacci_heap_1.min_pointer.take().unwrap();
            fibonacci_heap_1.min_pointer = fibonacci_heap_2.min_pointer.take();
            fibonacci_heap_1.children_list.push_back(temp);
            fibonacci_heap_1.size += fibonacci_heap_2.size;
            proof {
                lemma_forest_push(joined, temp);
                assert(fibonacci_heap_1.keys() =~= first.keys().add(second.keys()));
                assert(shapes(fibonacci_heap_1.children_list@) =~= (first@.roots
                    + second@.roots).push(temp@));
                assert forall|i: int|
                    0 <= i < fibonacci_heap_1.children_list@.len() implies le(
                    fibonacci_heap_1.min_key(),
                    (#[trigger] fibonacci_heap_1.children_list@[i]).key(),
                ) by {
                    if i < first.children_list@.len() {
                        lemma_le_trans(
                            second.min_key(),
                            first.min_key(),
                            first.children_list@[i].key(),
                        );
                    } else if i < joined.len() {
                        assert(joined[i] == second.children_list@[i - first.children_list@.len()]);
                    }
                }
            }
        } else {
            let mut second_min = fibonacci_heap_2.min_pointer.take().unwrap();
            let ghost orphans = second_min.children_list@;
            fibonacci_heap_1.absorb(&mut second_min.children_list);
            let payload = second_min.get_payload();
            fibonacci_heap_1.size += fibonacci_heap_2.size - 1;
            proof {
                let least = second.min_pointer->0;
                least.lemma_elems();
                lemma_le_total(second.min_key(), first.min_key());
                lemma_forest_concat(joined, orphans);
                assert(fibonacci_heap_1.keys().insert(payload) =~= first.keys().add(second.keys()));
                assert forall|i: int|
                    0 <= i < fibonacci_heap_1.children_list@.len() implies le(
                    fibonacci_heap_1.min_key(),
                    (#[trigger] fibonacci_heap_1.children_list@[i]).key(),
                ) && fibonacci_heap_1.children_list@[i].wf()
                    && fibonacci_heap_1.children_list@[i].binomial() by {
                    let root = fibonacci_heap_1.children_list@[i];
                    if i < first.children_list@.len() {
                    } else if i < joined.len() {
                        let j = i - first.children_list@.len();
                        assert(root == second.children_list@[j]);
                        lemma_le_trans(first.min_key(), second.min_key(), root.key());
                    } else {
                        let j = i - joined.len();
                        assert(root == least.children_list@[j]);
                        lemma_le_trans(first.min_key(), second.min_key(), root.key());
                    }
                }
            }
            let ghost grown = fibonacci_heap_1@;
            proof {
                second.min_pointer->0.lemma_shape();
                assert(grown.roots =~= first@.roots + second@.roots
                    + second.min_pointer->0@.kids);
            }
            fibonacci_heap_1.push(payload);
        }
        fibonacci_heap_1
    }

    /// In a heap of well-formed binomial trees a tree of degree d accounts for
    /// 2^d of the keys, so no degree exceeds the binary logarithm of `size`.
    pub proof fn lemma_degree_bound(&self)
        requires
            self.shaped(),
        ensures
            self.degree_bounded(),
    {
        if self.min_pointer is Some {
            self.min_pointer->0.lemma_count();
        }
        assert forall|i: int| 0 <= i < self.children_list@.len() implies pow2(
            (#[trigger] self.children_list@[i]).degree as nat,
        ) <= self.size by {
            self.children_list@[i].lemma_count();
            lemma_forest_part(self.children_list@, i);
        }
    }

    /// Rebuilds the root list so that no two trees have the same degree, and
    /// puts the tree with the smallest key under `min_pointer`. Trees of equal
    /// degree are joined pairwise, front to back, until none are left.
    pub fn consolidate(&mut self)
        requires
            total_order::<T>(),
            old(self).shaped(),
        ensures
            final(self).size == old(self).size,
            final(self).keys() == old(self).keys(),
            final(self)@ == consolidated_shape(
                old(self)@,
                slots_for(old(self).size as nat),
            ),
            final(self).wf(),
            final(self).consolidated(),
            final(self).degree_bounded(),
    {
        proof {
            self.lemma_nonempty();
            self.lemma_degree_bound();
        }
        if self.is_empty() {
            return;
        }
        let ghost all = self.keys();
        let ghost start = self@;
        let array_size = slot_count(self.size);
        let mut a: Vec<Option<InternalTree<T>>> = Vec::with_capacity(array_size);
        let mut filled: usize = 0;
        while filled < array_size
            invariant
                filled <= array_size,
                a@.len() == filled,
                forall|j: int| 0 <= j < a@.len() ==> a@[j] is None,
            decreases array_size - filled,
        {
            a.push(None);
            filled += 1;
        }
        let least = self.min_pointer.take().unwrap();
        self.children_list.push_front(least);
        proof {
            lemma_forest_first(self.children_list@);
            assert(self.children_list@.subrange(1, self.children_list@.len() as int) =~= old(
                self,
            ).children_list@);
            lemma_total_all_empty(slots_parts(a@));
            assert(total(slots_parts(a@)).add(forest_elems(self.children_list@)) =~= all);
            assert(slot_shapes(a@) =~= Seq::new(array_size as nat, |i: int| None));
            assert(shapes(self.children_list@) =~= seq![start.least->0] + start.roots);
        }
        let ghost table = bucket(slot_shapes(a@), shapes(self.children_list@));
        while self.children_list.len() > 0
            invariant
                total_order::<T>(),
                a@.len() == array_size,
                array_size <= 64,
                all.len() < pow2(array_size as nat),
                slots_wf(a@),
                forest_wf(self.children_list@),
                total(slots_parts(a@)).add(forest_elems(self.children_list@)) == all,
                bucket(slot_shapes(a@), shapes(self.children_list@)) == table,
                self.size == old(self).size,
                self.min_pointer is None,
            decreases self.children_list@.len(),
        {
            let ghost before = self.children_list@;
            let mut x = self.children_list.pop_front().unwrap();
            let ghost rest = self.children_list@;
            let mut d = x.degree();
            let ghost placed = place(slot_shapes(a@), x@, d as int);
            proof {
                x.lemma_shape();
                assert(shapes(before).drop_first() =~= shapes(rest));
                assert(shapes(before)[0] == x@);
                assert(bucket(placed, shapes(rest)) == table);
                lemma_forest_first(before);
                x.lemma_count();
                assert(total(slots_parts(a@)).add(x.elems()).add(forest_elems(rest)) =~= all);
                if d >= array_size {
                    if d > array_size {
                        vstd::arithmetic::power2::lemma_pow2_strictly_increases(
                            array_size as nat,
                            d as nat,
                        );
                    }
                }
            }
            while a[d].is_some()
                invariant
                    total_order::<T>(),
                    a@.len() == array_size,
                    array_size <= 64,
                    all.len() < pow2(array_size as nat),
                    slots_wf(a@),
                    x.wf(),
                    x.binomial(),
                    x.degree == d,
                    d < array_size,
                    total(slots_parts(a@)).add(x.elems()).add(forest_elems(rest)) == all,
                    place(slot_shapes(a@), x@, d as int) == placed,
                    self.children_list@ == rest,
                    forest_wf(rest),
                    self.size == old(self).size,
                    self.min_pointer is None,
                decreases array_size - d,
            {
                let ghost slots = a@;
                let y = a[d].take().unwrap();
                proof {
                    assert(a@ =~= slots.update(d as int, None));
                    assert(slots_parts(a@) =~= slots_parts(slots).update(
                        d as int,
                        Multiset::empty(),
                    ));
                    lemma_total_update(slots_parts(slots), d as int, Multiset::empty());
                    assert(total(slots_parts(a@)).add(y.elems()) =~= total(slots_parts(slots)));
                    assert(slot_shapes(a@) =~= slot_shapes(slots).update(d as int, None));
                    assert(slot_shapes(slots)[d as int] == Some(y@));
                }
                x = InternalTree::merge(x, y);
                d += 1;
                proof {
                    x.lemma_count();
                    assert(total(slots_parts(a@)).add(x.elems()).add(forest_elems(rest)) =~= all);
                }
            }
            let ghost slots = a@;
            a[d] = Some(x);
            proof {
                assert(a@ =~= slots.update(d as int, Some(x)));
                assert(slots_parts(a@) =~= slots_parts(slots).update(d as int, x.elems()));
                lemma_total_update(slots_parts(slots), d as int, x.elems());
                assert(total(slots_parts(a@)).add(forest_elems(rest)) =~= all);
                assert(slot_shapes(slots)[d as int] is None);
                assert(slot_shapes(a@) =~= slot_shapes(slots).update(d as int, Some(x@)));
                assert(slot_shapes(a@) == placed);
            }
        }
        proof {
            assert(self.children_list@ =~= Seq::empty());
            lemma_forest_empty::<T>();
            assert(self.keys().add(total(slots_parts(a@))) =~= all);
            assert(shapes(self.children_list@) =~= Seq::empty());
            assert(slot_shapes(a@) == table);
            assert(self@ =~= empty_shape::<T>());
        }
        let mut i: usize = 0;
        while i < array_size
            invariant
                total_order::<T>(),
                i <= array_size,
                a@.len() == array_size,
                slots_wf(a@),
                forall|j: int| 0 <= j < i ==> a@[j] is None,
                self.trees_wf(),
                self.ordered(),
                self.consolidated(),
                self.degrees_below(i as int),
                self.keys().add(total(slots_parts(a@))) == all,
                table.len() == array_size,
                forall|j: int| i <= j < array_size ==> slot_shapes(a@)[j] == table[j],
                gather(table, i as int, self@) == gather(table, 0, empty_shape::<T>()),
                self.size == old(self).size,
            decreases array_size - i,
        {
            proof {
                assert(slot_shapes(a@)[i as int] == table[i as int]);
            }
            if a[i].is_some() {
                let ghost slots = a@;
                let ghost roots = self.children_list@;
                let tree = a[i].take().unwrap();
                proof {
                    assert(a@ =~= slots.update(i as int, None));
                    assert(slots_parts(a@) =~= slots_parts(slots).update(
                        i as int,
                        Multiset::empty(),
                    ));
                    lemma_total_update(slots_parts(slots), i as int, Multiset::empty());
                    assert(total(slots_parts(a@)).add(tree.elems()) =~= total(slots_parts(slots)));
                    assert(slot_shapes(slots)[i as int] == Some(tree@));
                    assert(forall|j: int|
                        i < j < array_size ==> slot_shapes(a@)[j] == slot_shapes(slots)[j]);
                }
                self.adopt(tree);
                proof {
                    assert(self.keys().add(total(slots_parts(a@))) =~= all);
                    assert(self.children_list@.len() == roots.len() || self.children_list@.len()
                        == roots.len() + 1);
                    assert(forall|j: int| 0 <= j < roots.len() ==> self.children_list@[j] == roots[j]);
                }
            }
            i += 1;
        }
        proof {
            lemma_total_all_empty(slots_parts(a@));
            assert(self.keys() =~= all);
            self.lemma_degree_bound();
        }
    }

    /// Removes the smallest key and returns it, or returns `None` on an empty
    /// heap. The children of the removed root become roots, and the root list
    /// is consolidated.
    pub fn pop(&mut self) -> (r: Option<T>)
        requires
            total_order::<T>(),
            old(self).wf(),
        ensures
            old(self).size == 0 ==> r is None && *final(self) == *old(self),
            old(self).size > 0 ==> {
                &&& r == Some(old(self).min_key())
                &&& is_least(old(self).min_key(), old(self).keys())
                &&& final(self).keys() == old(self).keys().remove(old(self).min_key())
                &&& final(self).size == old(self).size - 1
                &&& final(self)@ == popped_shape(
                    old(self)@,
                    slots_for((old(self).size - 1) as nat),
                )
            },
            final(self).wf(),
            final(self).consolidated(),
            final(self).degree_bounded(),
    {
        proof {
            self.lemma_nonempty();
            self.lemma_degree_bound();
        }
        if self.is_empty() {
            return None;
        }
        proof {
            self.lemma_min_is_least();
        }
        let mut min_node = self.min_pointer.take().unwrap();
        let ghost least = min_node;
        self.size -= 1;
        self.absorb(&mut min_node.children_list);
        let payload = min_node.get_payload();
        proof {
            least.lemma_shape();
            assert(shapes(self.children_list@) =~= old(self)@.roots + least@.kids);
            least.lemma_elems();
            lemma_forest_concat(old(self).children_list@, least.children_list@);
            assert(forest_elems(self.children_list@) =~= old(self).keys().remove(payload));
            assert forall|i: int| 0 <= i < self.children_list@.len() implies (
            #[trigger] self.children_list@[i]).wf() && self.children_list@[i].binomial() by {
                if i >= old(self).children_list@.len() {
                    assert(self.children_list@[i] == least.children_list@[i - old(
                        self,
                    ).children_list@.len()]);
                }
            }
            if self.children_list@.len() > 0 {
                lemma_forest_part(self.children_list@, 0);
                self.children_list@[0].lemma_elems();
            } else {
                lemma_forest_empty::<T>();
            }
        }
        if !self.is_empty() {
            let ghost roots = self.children_list@;
            self.min_pointer = self.children_list.pop_front();
            proof {
                lemma_forest_first(roots);
                assert(self.keys() =~= old(self).keys().remove(payload));
                assert(shapes(self.children_list@) =~= shapes(roots).drop_first());
                assert(self@ =~= (HeapShape {
                    least: Some(shapes(roots)[0]),
                    roots: shapes(roots).drop_first(),
                }));
            }
            self.consolidate();
        } else {
            proof {
                assert(self.keys() =~= old(self).keys().remove(payload));
                self.lemma_degree_bound();
                assert(self@ =~= empty_shape::<T>());
            }
        }
        Some(payload)
    }
}

/// `min_text`, `labels` and `texts` are a rendering of `heap`: the text of
/// the minimum tree where there is one, and for each root its number, counted
/// from one, and its text.
pub open spec fn lined<T: Ord + Display>(
    heap: FibonacciHeap<T>,
    min_text: Option<String>,
    labels: Seq<String>,
    texts: Seq<String>,
) -> bool {
    &&& match heap.min_pointer {
        Some(tree) => min_text is Some && tree_text(tree, min_text->0@),
        None => min_text is None,
    }
    &&& labels.len() == heap.children_list@.len()
    &&& texts.len() == heap.children_list@.len()
    &&& forall|i: int|
        0 <= i < heap.children_list@.len() ==> {
            &&& to_string_from_display_ensures::<usize>(&((i + 1) as usize), #[trigger] labels[i])
            &&& tree_text(heap.children_list@[i], texts[i]@)
        }
}

/// `text` is the dump of `heap`: a line `Min: ...` for the minimum tree, then
/// a line `Tree k: ...` for the k-th root, each with the tree's keys in
/// depth-first order.
pub open spec fn heap_text<T: Ord + Display>(heap: FibonacciHeap<T>, text: Seq<char>) -> bool {
    exists|min_text: Option<String>, labels: Seq<String>, texts: Seq<String>|
        #[trigger] lined(heap, min_text, labels, texts) && text == dump(min_text, labels, texts)
}

impl<T: Ord + Display> FibonacciHeap<T> {
    /// A dump of the heap's shape, one line for each tree; the empty string
    /// for an empty heap.
    pub fn preorder(fibonacci_heap: &FibonacciHeap<T>) -> (r: String)
        requires
            fibonacci_heap.trees_wf(),
        ensures
            heap_text(*fibonacci_heap, r@),
    {
        let min_text = match &fibonacci_heap.min_pointer {
            Some(tree) => {
                proof {
                    tree.lemma_wf_intact();
                }
                Some(InternalTree::preorder(tree))
            },
            None => None,
        };
        let mut labels: Vec<String> = Vec::new();
        let mut texts: Vec<String> = Vec::new();
        let mut index: usize = 0;
        while index < fibonacci_heap.children_list.len()
            invariant
                forest_wf(fibonacci_heap.children_list@),
                index <= fibonacci_heap.children_list@.len(),
                labels@.len() == index,
                texts@.len() == index,
                forall|i: int|
                    0 <= i < index ==> {
                        &&& to_string_from_display_ensures::<usize>(
                            &((i + 1) as usize),
                            #[trigger] labels@[i],
                        )
                        &&& tree_text(fibonacci_heap.children_list@[i], texts@[i]@)
                    },
            decreases fibonacci_heap.children_list@.len() - index,
        {
            let number: usize = index + 1;
            let label = number.to_string();
            proof {
                fibonacci_heap.children_list@[index as int].lemma_wf_intact();
            }
            let text = InternalTree::preorder(&fibonacci_heap.children_list[index]);
            let ghost shown = labels@;
            let ghost written = texts@;
            labels.push(label);
            texts.push(text);
            proof {
                assert(number == ((index as int + 1) as usize));
                assert forall|i: int| 0 <= i < index + 1 implies {
                    &&& to_string_from_display_ensures::<usize>(
                        &((i + 1) as usize),
                        #[trigger] labels@[i],
                    )
                    &&& tree_text(fibonacci_heap.children_list@[i], texts@[i]@)
                } by {
                    if i < index {
                        assert(labels@[i] == shown[i]);
                        assert(texts@[i] == written[i]);
                    }
                }
            }
            index += 1;
        }
        proof {
            assert(lined(*fibonacci_heap, min_text, labels@, texts@));
        }
        layout(&min_text, &labels, &texts)
    }
}

} // verus!
