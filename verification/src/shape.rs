use vstd::prelude::*;
use crate::order::le;
use crate::sums::concat;

verus! {

/// The shape of a tree: the key at its root and the shapes of its children,
/// oldest first.
#[verifier::ext_equal]
pub struct Shape<T> {
    pub key: T,
    pub kids: Seq<Shape<T>>,
}

impl<T> Shape<T> {
    /// The keys in depth-first order: a node before its children, the
    /// children oldest first.
    pub open spec fn preorder(self) -> Seq<T>
        decreases self, 1nat,
    {
        seq![self.key] + concat(self.kid_preorders())
    }

    /// The depth-first key order of each child, child by child.
    pub open spec fn kid_preorders(self) -> Seq<Seq<T>>
        decreases self, 0nat,
    {
        Seq::new(
            self.kids.len(),
            |i: int|
                if 0 <= i < self.kids.len() {
                    self.kids[i].preorder()
                } else {
                    Seq::empty()
                },
        )
    }
}

/// The shape of a tree that holds `key` and nothing else.
pub open spec fn leaf_shape<T>(key: T) -> Shape<T> {
    Shape { key, kids: Seq::empty() }
}

/// Two trees joined into one: the tree with the smaller key takes the other
/// as its last child; on equal keys the first one does.
pub open spec fn link<T: Ord>(a: Shape<T>, b: Shape<T>) -> Shape<T> {
    if le(a.key, b.key) {
        Shape { key: a.key, kids: a.kids.push(b) }
    } else {
        Shape { key: b.key, kids: b.kids.push(a) }
    }
}

/// The shape of a heap: the shape of the tree under `min_pointer`, if any, and
/// the shapes of the roots in list order.
#[verifier::ext_equal]
pub struct HeapShape<T> {
    pub least: Option<Shape<T>>,
    pub roots: Seq<Shape<T>>,
}

/// The shape of the heap without keys.
pub open spec fn empty_shape<T>() -> HeapShape<T> {
    HeapShape { least: None, roots: Seq::empty() }
}

/// A heap that takes in one more tree: the tree becomes the minimum if there
/// is none or if its key is not larger than the minimum's, and then the
/// former minimum becomes the last root; otherwise the tree does.
pub open spec fn take_in<T: Ord>(heap: HeapShape<T>, tree: Shape<T>) -> HeapShape<T> {
    match heap.least {
        None => HeapShape { least: Some(tree), roots: heap.roots },
        Some(least) => if le(tree.key, least.key) {
            HeapShape { least: Some(tree), roots: heap.roots.push(least) }
        } else {
            HeapShape { least: Some(least), roots: heap.roots.push(tree) }
        },
    }
}

/// The degree table after `tree` was put in at slot `d`: while the slot is
/// taken, the tree is joined with the slot's tree and moves one slot up.
pub open spec fn place<T: Ord>(slots: Seq<Option<Shape<T>>>, tree: Shape<T>, d: int) -> Seq<
    Option<Shape<T>>,
>
    decreases slots.len() - d,
{
    if 0 <= d < slots.len() {
        match slots[d] {
            Some(other) => place(slots.update(d, None), link(tree, other), d + 1),
            None => slots.update(d, Some(tree)),
        }
    } else {
        slots
    }
}

/// The degree table after every tree of `trees` was put in, front to back,
/// each at the slot of its degree.
pub open spec fn bucket<T: Ord>(slots: Seq<Option<Shape<T>>>, trees: Seq<Shape<T>>) -> Seq<
    Option<Shape<T>>,
>
    decreases trees.len(),
{
    if trees.len() == 0 {
        slots
    } else {
        bucket(place(slots, trees[0], trees[0].kids.len() as int), trees.drop_first())
    }
}

/// The heap that has taken in the trees of the slots from `from` on, in
/// ascending order of the slots.
pub open spec fn gather<T: Ord>(
    slots: Seq<Option<Shape<T>>>,
    from: int,
    heap: HeapShape<T>,
) -> HeapShape<T>
    decreases slots.len() - from,
{
    if 0 <= from < slots.len() {
        gather(
            slots,
            from + 1,
            match slots[from] {
                Some(tree) => take_in(heap, tree),
                None => heap,
            },
        )
    } else {
        heap
    }
}

/// The number of binary digits of `n`.
pub open spec fn slots_for(n: nat) -> nat
    decreases n,
{
    if n == 0 {
        0
    } else {
        1 + slots_for(n / 2)
    }
}

/// The consolidated heap: the minimum tree and then the roots, front to back,
/// go through a degree table of `slots` empty slots, and the heap is gathered
/// from the table.
pub open spec fn consolidated_shape<T: Ord>(heap: HeapShape<T>, slots: nat) -> HeapShape<T> {
    match heap.least {
        None => heap,
        Some(least) => gather(
            bucket(Seq::new(slots, |i: int| None), seq![least] + heap.roots),
            0,
            empty_shape(),
        ),
    }
}

/// The heap after its minimum was taken out: the children of the minimum
/// tree follow the roots, the first tree of that list stands in as minimum,
/// and the heap is consolidated.
pub open spec fn popped_shape<T: Ord>(heap: HeapShape<T>, slots: nat) -> HeapShape<T> {
    let orphans = heap.roots + heap.least->0.kids;
    if orphans.len() == 0 {
        empty_shape()
    } else {
        consolidated_shape(
            HeapShape { least: Some(orphans[0]), roots: orphans.drop_first() },
            slots,
        )
    }
}

/// Two heaps joined. An empty one leaves the other as it is. Otherwise the
/// roots of the second follow the roots of the first; if the second
/// minimum's key is not larger than the first's, the second minimum tree
/// becomes the minimum and the first becomes the last root; if it is larger,
/// the children of the second minimum tree follow the roots, and its key
/// follows them as a tree of its own.
pub open spec fn merged_shape<T: Ord>(a: HeapShape<T>, b: HeapShape<T>) -> HeapShape<T> {
    if b.least is None {
        a
    } else if a.least is None {
        b
    } else if le(b.least->0.key, a.least->0.key) {
        HeapShape { least: b.least, roots: (a.roots + b.roots).push(a.least->0) }
    } else {
        HeapShape {
            least: a.least,
            roots: (a.roots + b.roots + b.least->0.kids).push(leaf_shape(b.least->0.key)),
        }
    }
}

} // verus!
