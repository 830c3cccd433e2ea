use vstd::prelude::*;
use vstd::multiset::Multiset;
use vstd::arithmetic::power2::pow2;
use vstd::string::to_string_from_display_ensures;
use std::fmt::Display;
use crate::text::{spaced, join_words};
use crate::shape::{Shape, leaf_shape, link};
use crate::order::{total_order, le, key_le, lemma_le_refl, lemma_le_trans};
use crate::sums::{concat, lemma_concat_push, total, lemma_total_push, lemma_total_contains, lemma_total_concat, lemma_total_first, lemma_total_part};

verus! {

/// One tree of a heap: a key and the subtrees hanging below it, oldest first.
#[derive(Debug)]
pub struct InternalTree<T: Ord> {
    pub degree: usize,
    pub payload: Option<T>,
    pub children_list: Vec<InternalTree<T>>,
}

/// The shapes of the trees of a list, tree by tree.
pub open spec fn shapes<T: Ord>(trees: Seq<InternalTree<T>>) -> Seq<Shape<T>> {
    Seq::new(trees.len(), |i: int| trees[i]@)
}

/// The keys of each tree of a list, tree by tree.
pub open spec fn forest_parts<T: Ord>(trees: Seq<InternalTree<T>>) -> Seq<Multiset<T>> {
    Seq::new(trees.len(), |i: int| trees[i].elems())
}

/// All keys held by a list of trees.
pub open spec fn forest_elems<T: Ord>(trees: Seq<InternalTree<T>>) -> Multiset<T> {
    total(forest_parts(trees))
}

/// Every tree of the list is well formed and has the binomial shape.
pub open spec fn forest_wf<T: Ord>(trees: Seq<InternalTree<T>>) -> bool {
    forall|i: int| 0 <= i < trees.len() ==> (#[trigger] trees[i]).wf() && trees[i].binomial()
}

/// A list without trees holds no keys.
pub proof fn lemma_forest_empty<T: Ord>()
    ensures
        forest_elems(Seq::<InternalTree<T>>::empty()) == Multiset::<T>::empty(),
{
    assert(forest_parts(Seq::<InternalTree<T>>::empty()) =~= Seq::empty());
}

/// A tree appended to a list adds its keys to the list's.
pub proof fn lemma_forest_push<T: Ord>(trees: Seq<InternalTree<T>>, tree: InternalTree<T>)
    ensures
        forest_elems(trees.push(tree)) == forest_elems(trees).add(tree.elems()),
{
    assert(forest_parts(trees.push(tree)) =~= forest_parts(trees).push(tree.elems()));
    lemma_total_push(forest_parts(trees), tree.elems());
}

/// Two lists joined hold the keys of both.
pub proof fn lemma_forest_concat<T: Ord>(a: Seq<InternalTree<T>>, b: Seq<InternalTree<T>>)
    ensures
        forest_elems(a + b) == forest_elems(a).add(forest_elems(b)),
{
    assert(forest_parts(a + b) =~= forest_parts(a) + forest_parts(b));
    lemma_total_concat(forest_parts(a), forest_parts(b));
}

/// A list holds the keys of its first tree and those of the trees after it.
pub proof fn lemma_forest_first<T: Ord>(trees: Seq<InternalTree<T>>)
    requires
        trees.len() > 0,
    ensures
        forest_elems(trees) == trees[0].elems().add(
            forest_elems(trees.subrange(1, trees.len() as int)),
        ),
{
    assert(forest_parts(trees).drop_first() =~= forest_parts(
        trees.subrange(1, trees.len() as int),
    ));
    lemma_total_first(forest_parts(trees));
}

/// Each tree of a list holds no more keys than the whole list.
pub proof fn lemma_forest_part<T: Ord>(trees: Seq<InternalTree<T>>, i: int)
    requires
        0 <= i < trees.len(),
    ensures
        trees[i].elems().subset_of(forest_elems(trees)),
        trees[i].elems().len() <= forest_elems(trees).len(),
{
    lemma_total_part(forest_parts(trees), i);
}

impl<T: Ord> View for InternalTree<T> {
    type V = Shape<T>;

    open spec fn view(&self) -> Shape<T> {
        self.shape()
    }
}

impl<T: Ord> InternalTree<T> {
    /// The key at the root and, child by child, the shapes of the children.
    pub open spec fn shape(&self) -> Shape<T>
        decreases self,
    {
        Shape {
            key: self.key(),
            kids: Seq::new(
                self.children_list@.len(),
                |i: int|
                    if 0 <= i < self.children_list@.len() {
                        self.children_list@[i].shape()
                    } else {
                        leaf_shape(self.key())
                    },
            ),
        }
    }

    /// The shape of a tree lists the shapes of its children.
    pub proof fn lemma_shape(&self)
        ensures
            self@.key == self.key(),
            self@.kids == shapes(self.children_list@),
    {
        assert(self@.kids =~= shapes(self.children_list@));
    }

    /// The key at the root. Meaningful only while the payload is present.
    pub open spec fn key(&self) -> T {
        self.payload->0
    }

    /// A tree that holds the key `k` and nothing else.
    pub open spec fn is_leaf(&self, k: T) -> bool {
        &&& self.degree == 0
        &&& self.payload == Some(k)
        &&& self.children_list@.len() == 0
    }

    /// The payload is present at every node, `degree` counts the children at
    /// every node, and no child's key is smaller than its parent's.
    pub open spec fn wf(&self) -> bool
        decreases self,
    {
        &&& self.payload is Some
        &&& self.degree == self.children_list@.len()
        &&& forall|i: int|
            0 <= i < self.children_list@.len() ==> {
                &&& (#[trigger] self.children_list@[i]).wf()
                &&& le(self.key(), self.children_list@[i].key())
            }
    }

    /// The payload is present at every node.
    pub open spec fn intact(&self) -> bool
        decreases self,
    {
        &&& self.payload is Some
        &&& forall|i: int|
            0 <= i < self.children_list@.len() ==> (#[trigger] self.children_list@[i]).intact()
    }

    /// A well-formed tree has every payload in place.
    pub proof fn lemma_wf_intact(&self)
        requires
            self.wf(),
        ensures
            self.intact(),
        decreases self,
    {
        assert forall|i: int| 0 <= i < self.children_list@.len() implies (
        #[trigger] self.children_list@[i]).intact() by {
            self.children_list@[i].lemma_wf_intact();
        }
    }

    /// At every node the i-th child has degree i.
    pub open spec fn binomial(&self) -> bool
        decreases self,
    {
        forall|i: int|
            0 <= i < self.children_list@.len() ==> {
                &&& (#[trigger] self.children_list@[i]).binomial()
                &&& self.children_list@[i].degree == i
            }
    }

    /// All keys of the tree, with multiplicity.
    pub open spec fn elems(&self) -> Multiset<T>
        decreases self, 1nat,
    {
        Multiset::singleton(self.key()).add(total(self.child_elems()))
    }

    /// The keys below each child, child by child.
    pub open spec fn child_elems(&self) -> Seq<Multiset<T>>
        decreases self, 0nat,
    {
        Seq::new(
            self.children_list@.len(),
            |i: int|
                if 0 <= i < self.children_list@.len() {
                    self.children_list@[i].elems()
                } else {
                    Multiset::empty()
                },
        )
    }

    /// The keys in depth-first order: a node before its children, the
    /// children in list order.
    pub open spec fn preorder_seq(&self) -> Seq<T>
        decreases self, 1nat,
    {
        seq![self.key()] + concat(self.child_preorders())
    }

    /// The depth-first key order of each child, child by child.
    pub open spec fn child_preorders(&self) -> Seq<Seq<T>>
        decreases self, 0nat,
    {
        Seq::new(
            self.children_list@.len(),
            |i: int|
                if 0 <= i < self.children_list@.len() {
                    self.children_list@[i].preorder_seq()
                } else {
                    Seq::empty()
                },
        )
    }

    /// The depth-first key order of a tree is that of its shape.
    pub proof fn lemma_preorder(&self)
        ensures
            self.preorder_seq() == self@.preorder(),
        decreases self,
    {
        self.lemma_shape();
        assert forall|i: int| 0 <= i < self.children_list@.len() implies (
        #[trigger] self.child_preorders()[i]) == self@.kid_preorders()[i] by {
            self.children_list@[i].lemma_preorder();
        }
        assert(self.child_preorders() =~= self@.kid_preorders());
    }

    /// The keys of a tree are its root key and the keys of its children.
    pub proof fn lemma_elems(&self)
        ensures
            self.elems() == Multiset::singleton(self.key()).add(
                forest_elems(self.children_list@),
            ),
    {
        assert(self.child_elems() =~= forest_parts(self.children_list@));
    }

    /// In a well-formed tree no key is smaller than the root's.
    pub proof fn lemma_root_is_least(&self)
        requires
            total_order::<T>(),
            self.wf(),
        ensures
            self.elems().contains(self.key()),
            forall|x: T| self.elems().contains(x) ==> le(self.key(), x),
        decreases self,
    {
        self.lemma_elems();
        assert forall|x: T| self.elems().contains(x) implies le(self.key(), x) by {
            if x == self.key() {
                lemma_le_refl(x);
            } else {
                let parts = forest_parts(self.children_list@);
                assert(total(parts).contains(x));
                let i = lemma_total_contains(parts, x);
                let child = self.children_list@[i];
                child.lemma_root_is_least();
                lemma_le_trans(self.key(), child.key(), x);
            }
        }
    }

    /// The keys of the first `k` children of a well-formed binomial tree
    /// number one less than the k-th power of two.
    pub proof fn lemma_children_count(&self, k: nat)
        requires
            self.wf(),
            self.binomial(),
            k <= self.children_list@.len(),
        ensures
            forest_elems(self.children_list@.take(k as int)).len() + 1 == pow2(k),
        decreases self, 0nat, k,
    {
        let prefix = self.children_list@.take(k as int);
        if k == 0 {
            vstd::arithmetic::power2::lemma2_to64();
            assert(forest_parts(prefix) =~= Seq::empty());
        } else {
            let shorter = self.children_list@.take(k - 1);
            let child = self.children_list@[k - 1];
            self.lemma_children_count((k - 1) as nat);
            child.lemma_count();
            assert(forest_parts(prefix) =~= forest_parts(shorter).push(child.elems()));
            lemma_total_push(forest_parts(shorter), child.elems());
            vstd::arithmetic::power2::lemma_pow2_unfold(k);
        }
    }

    /// A well-formed binomial tree of degree d holds exactly 2^d keys.
    pub proof fn lemma_count(&self)
        requires
            self.wf(),
            self.binomial(),
        ensures
            self.elems().len() == pow2(self.degree as nat),
        decreases self, 1nat, 0nat,
    {
        self.lemma_elems();
        self.lemma_children_count(self.degree as nat);
        assert(self.children_list@.take(self.degree as int) =~= self.children_list@);
    }

    /// A tree of one key and no children.
    pub fn init(payload: T) -> (r: Self)
        ensures
            r.is_leaf(payload),
            r@ == leaf_shape(payload),
            r.wf(),
            r.binomial(),
            r.elems() == Multiset::singleton(payload),
            r.preorder_seq() == seq![payload],
    {
        let r = InternalTree { degree: 0, payload: Some(payload), children_list: Vec::new() };
        proof {
            r.lemma_elems();
            r.lemma_shape();
            assert(r@.kids =~= Seq::empty());
            assert(r@ =~= leaf_shape(payload));
            assert(forest_parts(r.children_list@) =~= Seq::empty());
            assert(r.elems() =~= Multiset::singleton(payload));
            assert(r.child_preorders() =~= Seq::empty());
            assert(r.preorder_seq() =~= seq![payload]);
        }
        r
    }

    /// Whether the first tree's key is smaller than or equal to the second's.
    pub fn is_smaller_or_equal(internal_tree_1: &Self, internal_tree_2: &Self) -> (r: bool)
        requires
            total_order::<T>(),
            internal_tree_1.payload is Some,
            internal_tree_2.payload is Some,
        ensures
            r == le(internal_tree_1.key(), internal_tree_2.key()),
    {
        match (internal_tree_1.peek_payload(), internal_tree_2.peek_payload()) {
            (Some(payload1), Some(payload2)) => key_le(payload1, payload2),
            _ => false,
        }
    }

    /// Appends `internal_tree` as the last child.
    pub fn add_child(&mut self, internal_tree: Self)
        requires
            old(self).degree < usize::MAX,
        ensures
            final(self).payload == old(self).payload,
            final(self).degree == old(self).degree + 1,
            final(self).children_list@ == old(self).children_list@.push(internal_tree),
            final(self).elems() == old(self).elems().add(internal_tree.elems()),
            final(self)@ == (Shape {
                key: old(self)@.key,
                kids: old(self)@.kids.push(internal_tree@),
            }),
    {
        proof {
            self.lemma_elems();
            self.lemma_shape();
        }
        self.children_list.push(internal_tree);
        self.degree += 1;
        proof {
            self.lemma_elems();
            assert(forest_parts(self.children_list@) =~= forest_parts(
                old(self).children_list@,
            ).push(internal_tree.elems()));
            lemma_total_push(forest_parts(old(self).children_list@), internal_tree.elems());
            assert(self.elems() =~= old(self).elems().add(internal_tree.elems()));
            self.lemma_shape();
            assert(shapes(self.children_list@) =~= shapes(old(self).children_list@).push(
                internal_tree@,
            ));
            assert(self@ =~= (Shape {
                key: old(self)@.key,
                kids: old(self)@.kids.push(internal_tree@),
            }));
        }
    }

    /// Joins two trees into one: the tree with the smaller key becomes the
    /// parent and takes the other as its last child; on equal keys the first
    /// one is the parent.
    pub fn merge(internal_tree_1: Self, internal_tree_2: Self) -> (r: Self)
        requires
            total_order::<T>(),
            internal_tree_1.payload is Some,
            internal_tree_2.payload is Some,
            internal_tree_1.degree < usize::MAX,
            internal_tree_2.degree < usize::MAX,
        ensures
            le(internal_tree_1.key(), internal_tree_2.key()) ==> {
                &&& r.payload == internal_tree_1.payload
                &&& r.degree == internal_tree_1.degree + 1
                &&& r.children_list@ == internal_tree_1.children_list@.push(internal_tree_2)
            },
            !le(internal_tree_1.key(), internal_tree_2.key()) ==> {
                &&& r.payload == internal_tree_2.payload
                &&& r.degree == internal_tree_2.degree + 1
                &&& r.children_list@ == internal_tree_2.children_list@.push(internal_tree_1)
            },
            r@ == link(internal_tree_1@, internal_tree_2@),
            r.elems() == internal_tree_1.elems().add(internal_tree_2.elems()),
            internal_tree_1.wf() && internal_tree_2.wf() ==> r.wf(),
            internal_tree_1.wf() && internal_tree_2.wf() && internal_tree_1.binomial()
                && internal_tree_2.binomial() && internal_tree_1.degree == internal_tree_2.degree
                ==> r.binomial(),
    {
        let mut internal_tree_1 = internal_tree_1;
        let mut internal_tree_2 = internal_tree_2;
        let ghost first = internal_tree_1;
        let ghost second = internal_tree_2;
        if Self::is_smaller_or_equal(&internal_tree_1, &internal_tree_2) {
            internal_tree_1.add_child(internal_tree_2);
            internal_tree_1
        } else {
            proof {
                crate::order::lemma_le_total(first.key(), second.key());
            }
            internal_tree_2.add_child(internal_tree_1);
            proof {
                assert(internal_tree_2.elems() =~= first.elems().add(second.elems()));
            }
            internal_tree_2
        }
    }

    /// The number of children.
    pub fn degree(&self) -> (r: usize)
        ensures
            r == self.degree,
    {
        self.degree
    }

    /// The payload, left in place.
    pub fn peek_payload(&self) -> (r: &Option<T>)
        ensures
            *r == self.payload,
    {
        &self.payload
    }

    /// Takes the payload out of the node, which holds none afterwards.
    pub fn get_payload(&mut self) -> (r: T)
        requires
            old(self).payload is Some,
        ensures
            r == old(self).key(),
            final(self).payload is None,
            final(self).degree == old(self).degree,
            final(self).children_list == old(self).children_list,
    {
        self.payload.take().unwrap()
    }

    /// The children, oldest first, open to change. `degree` is left as it is.
    pub fn children_list_mut(&mut self) -> (r: &mut Vec<InternalTree<T>>)
        ensures
            *r == old(self).children_list,
            final(self).children_list == *final(r),
            final(self).degree == old(self).degree,
            final(self).payload == old(self).payload,
    {
        &mut self.children_list
    }

    /// The children, oldest first.
    pub fn children_list(&self) -> (r: &Vec<InternalTree<T>>)
        ensures
            *r == self.children_list,
    {
        &self.children_list
    }
}

/// `words` holds, key by key, what the key type's `Display` gave for `keys`.
pub open spec fn rendered<T: Display>(keys: Seq<T>, words: Seq<String>) -> bool {
    &&& keys.len() == words.len()
    &&& forall|i: int|
        0 <= i < keys.len() ==> to_string_from_display_ensures::<T>(
            &#[trigger] keys[i],
            words[i],
        )
}

/// `text` is the keys of `tree` in depth-first order, each as its `Display`
/// gave it, joined by single spaces.
pub open spec fn tree_text<T: Ord + Display>(tree: InternalTree<T>, text: Seq<char>) -> bool {
    exists|words: Seq<String>| #[trigger] rendered(tree.preorder_seq(), words) && text == spaced(words)
}

impl<T: Ord + Display> InternalTree<T> {
    /// Appends to `words` the rendering of every key of `node`, in
    /// depth-first order.
    fn _preorder(node: &InternalTree<T>, words: &mut Vec<String>)
        requires
            node.intact(),
        ensures
            final(words)@.len() == old(words)@.len() + node.preorder_seq().len(),
            final(words)@.take(old(words)@.len() as int) == old(words)@,
            rendered(node.preorder_seq(), final(words)@.skip(old(words)@.len() as int)),
        decreases node,
    {
        let ghost start = words@.len() as int;
        match node.peek_payload() {
            Some(value) => words.push(value.to_string()),
            None => {},
        }
        let children = node.children_list();
        let mut i: usize = 0;
        proof {
            assert(node.child_preorders().take(0) =~= Seq::empty());
            assert(words@.skip(start) =~= seq![words@[start]]);
            assert(words@.take(start) =~= old(words)@);
        }
        while i < children.len()
            invariant
                node.intact(),
                *children == node.children_list,
                i <= children.len(),
                start == old(words)@.len(),
                words@.len() == start + 1 + concat(node.child_preorders().take(i as int)).len(),
                words@.take(start) == old(words)@,
                rendered(
                    seq![node.key()] + concat(node.child_preorders().take(i as int)),
                    words@.skip(start),
                ),
            decreases children.len() - i,
        {
            let ghost before = words@;
            let ghost done = seq![node.key()] + concat(node.child_preorders().take(i as int));
            Self::_preorder(&children[i], words);
            proof {
                let child = node.children_list@[i as int];
                let parts = node.child_preorders();
                assert(parts.take(i + 1) =~= parts.take(i as int).push(child.preorder_seq()));
                lemma_concat_push(parts.take(i as int), child.preorder_seq());
                let now = seq![node.key()] + concat(parts.take(i + 1));
                assert(now =~= done + child.preorder_seq());
                assert(words@.take(start) =~= before.take(start)) by {
                    assert(words@.take(before.len() as int).take(start) =~= words@.take(start));
                }
                let shown = words@.skip(start);
                let fresh = words@.skip(before.len() as int);
                assert forall|k: int| 0 <= k < now.len() implies to_string_from_display_ensures::<
                    T,
                >(&#[trigger] now[k], shown[k]) by {
                    if k < done.len() {
                        assert(shown[k] == words@.take(before.len() as int)[start + k]);
                        assert(before.skip(start)[k] == before[start + k]);
                        assert(now[k] == done[k]);
                    } else {
                        assert(shown[k] == fresh[k - done.len()]);
                        assert(now[k] == child.preorder_seq()[k - done.len()]);
                    }
                }
            }
            i += 1;
        }
        proof {
            assert(node.child_preorders().take(children@.len() as int) =~= node.child_preorders());
        }
    }

    /// The keys of the tree in depth-first order, a node before its children,
    /// each written by its `Display` and separated by single spaces.
    pub fn preorder(internal_tree: &InternalTree<T>) -> (r: String)
        requires
            internal_tree.intact(),
        ensures
            tree_text(*internal_tree, r@),
    {
        let mut words: Vec<String> = Vec::new();
        Self::_preorder(internal_tree, &mut words);
        proof {
            assert(words@.skip(0) =~= words@);
            assert(rendered(internal_tree.preorder_seq(), words@));
        }
        join_words(&words)
    }
}

} // verus!
