use vstd::prelude::*;
use std::collections::VecDeque;
use crate::ordering::{greater, le, lemma_le_reflexive, less, same, total_order};

verus! {

/// A node of a binary search tree: an element and two subtrees.
pub struct Node<T: Copy + PartialOrd> {
    pub elem: T,
    pub left: Option<Box<Node<T>>>,
    pub right: Option<Box<Node<T>>>,
}

/// A binary search tree: a binary tree in which the elements of the left
/// subtree of a node are less than the element of the node, and those of
/// the right subtree are greater.
pub struct BinarySearchTree<T: Copy + PartialOrd> {
    pub root: Option<Box<Node<T>>>,
}

/// The tree that results from inserting `elem` into `tree`: the element
/// goes down to the left of every greater element and to the right of
/// every lesser one, and becomes a leaf where the way ends; if it meets an
/// element equal to it, nothing changes.
pub open spec fn inserted<T: Copy + PartialOrd>(tree: Option<Box<Node<T>>>, elem: T) -> Option<
    Box<Node<T>>,
>
    decreases tree,
{
    match tree {
        None => Some(Box::new(Node { elem, left: None, right: None })),
        Some(node) => if !le(node.elem, elem) {
            Some(Box::new(Node { elem: node.elem, left: inserted(node.left, elem), right: node.right }))
        } else if !le(elem, node.elem) {
            Some(Box::new(Node { elem: node.elem, left: node.left, right: inserted(node.right, elem) }))
        } else {
            tree
        },
    }
}

/// Whether the search for `elem` in `tree` meets an element equal to it:
/// the search goes left at every greater element and right at every
/// other one.
pub open spec fn found<T: Copy + PartialOrd>(tree: Option<Box<Node<T>>>, elem: T) -> bool
    decreases tree,
{
    match tree {
        None => false,
        Some(node) => if le(node.elem, elem) && le(elem, node.elem) {
            true
        } else if !le(node.elem, elem) {
            found(node.left, elem)
        } else {
            found(node.right, elem)
        },
    }
}

/// The elements of `tree`: each node before its subtrees.
pub open spec fn pre_order<T: Copy + PartialOrd>(tree: Option<Box<Node<T>>>) -> Seq<T>
    decreases tree,
{
    match tree {
        None => Seq::empty(),
        Some(node) => seq![node.elem] + pre_order(node.left) + pre_order(node.right),
    }
}

/// The elements of `tree`: each node after its subtrees.
pub open spec fn post_order<T: Copy + PartialOrd>(tree: Option<Box<Node<T>>>) -> Seq<T>
    decreases tree,
{
    match tree {
        None => Seq::empty(),
        Some(node) => post_order(node.left) + post_order(node.right) + seq![node.elem],
    }
}

/// The elements of `tree`: each node between its subtrees.
pub open spec fn in_order<T: Copy + PartialOrd>(tree: Option<Box<Node<T>>>) -> Seq<T>
    decreases tree,
{
    match tree {
        None => Seq::empty(),
        Some(node) => in_order(node.left) + seq![node.elem] + in_order(node.right),
    }
}

/// The number of nodes of `tree`.
pub open spec fn size<T: Copy + PartialOrd>(tree: Option<Box<Node<T>>>) -> nat
    decreases tree,
{
    match tree {
        None => 0,
        Some(node) => 1 + size(node.left) + size(node.right),
    }
}

/// What is left to do for a queue of trees: one step for each tree and
/// two for each of their nodes.
pub open spec fn work<T: Copy + PartialOrd>(queue: Seq<Option<Box<Node<T>>>>) -> nat
    decreases queue.len(),
{
    if queue.len() == 0 {
        0
    } else {
        work(queue.drop_last()) + 2 * size(queue[queue.len() - 1]) + 1
    }
}

/// Taking the first tree out of a queue takes its share out of the work.
pub proof fn lemma_work_front<T: Copy + PartialOrd>(queue: Seq<Option<Box<Node<T>>>>)
    requires
        queue.len() > 0,
    ensures
        work(queue) == work(queue.drop_first()) + 2 * size(queue[0]) + 1,
    decreases queue.len(),
{
    if queue.len() == 1 {
        assert(queue.drop_last() =~= Seq::empty());
        assert(queue.drop_first() =~= Seq::empty());
        assert(work(queue.drop_last()) == 0);
    } else {
        lemma_work_front(queue.drop_last());
        assert(queue.drop_last().drop_first() =~= queue.drop_first().drop_last());
        assert(queue.drop_first()[queue.len() - 2] == queue[queue.len() - 1]);
        assert(queue.drop_last()[0] == queue[0]);
    }
}

/// The elements of the trees of `queue`, level by level: the root of the
/// first tree, then what follows once its subtrees have joined the end of
/// the queue.
pub open spec fn level_order<T: Copy + PartialOrd>(queue: Seq<Option<Box<Node<T>>>>) -> Seq<T>
    decreases work(queue),
    via level_order_decreases::<T>
{
    if queue.len() == 0 {
        Seq::empty()
    } else {
        match queue[0] {
            None => level_order(queue.drop_first()),
            Some(node) => seq![node.elem] + level_order(
                queue.drop_first().push(node.left).push(node.right),
            ),
        }
    }
}

#[via_fn]
proof fn level_order_decreases<T: Copy + PartialOrd>(queue: Seq<Option<Box<Node<T>>>>) {
    if queue.len() > 0 {
        lemma_work_front(queue);
        match queue[0] {
            None => {},
            Some(node) => {
                lemma_work_next(queue);
            },
        }
    }
}

/// Replacing the first tree of a queue by its two subtrees at the end
/// leaves one step less to do.
pub proof fn lemma_work_next<T: Copy + PartialOrd>(queue: Seq<Option<Box<Node<T>>>>)
    requires
        queue.len() > 0,
        queue[0] is Some,
    ensures
        work(queue.drop_first().push(queue[0].unwrap().left).push(queue[0].unwrap().right)) + 1
            == work(queue),
{
    let node = queue[0].unwrap();
    let rest = queue.drop_first();
    let one = rest.push(node.left);
    let two = one.push(node.right);
    lemma_work_front(queue);
    assert(two.drop_last() =~= one);
    assert(one.drop_last() =~= rest);
    assert(work(two) == work(one) + 2 * size(node.right) + 1);
    assert(work(one) == work(rest) + 2 * size(node.left) + 1);
    assert(size(queue[0]) == 1 + size(node.left) + size(node.right));
}

/// Whether `value` is an element of `tree`.
pub open spec fn holds<T: Copy + PartialOrd>(tree: Option<Box<Node<T>>>, value: T) -> bool
    decreases tree,
{
    match tree {
        None => false,
        Some(node) => node.elem == value || holds(node.left, value) || holds(node.right, value),
    }
}

/// The order of a binary search tree: at every node, the elements of the
/// left subtree are less than the element of the node and those of the
/// right subtree are greater.
pub open spec fn is_search_tree<T: Copy + PartialOrd>(tree: Option<Box<Node<T>>>) -> bool
    decreases tree,
{
    match tree {
        None => true,
        Some(node) => {
            &&& is_search_tree(node.left)
            &&& is_search_tree(node.right)
            &&& forall|x: T| holds(node.left, x) ==> !le(node.elem, x)
            &&& forall|x: T| holds(node.right, x) ==> !le(x, node.elem)
        },
    }
}

/// Inserting an element adds at most that element, and the search finds
/// it afterwards.
pub proof fn lemma_inserted_elements<T: Copy + PartialOrd>(tree: Option<Box<Node<T>>>, elem: T)
    requires
        total_order::<T>(),
    ensures
        forall|x: T| holds(tree, x) ==> holds(inserted(tree, elem), x),
        forall|x: T| holds(inserted(tree, elem), x) ==> holds(tree, x) || x == elem,
        found(inserted(tree, elem), elem),
    decreases tree,
{
    lemma_le_reflexive(elem);
    let after = inserted(tree, elem);
    match tree {
        None => {
            let leaf = after.unwrap();
            assert(leaf.elem == elem && leaf.left is None && leaf.right is None);
            assert forall|x: T| holds(after, x) implies x == elem by {
                assert(!holds(leaf.left, x) && !holds(leaf.right, x));
            }
            assert(holds(after, elem));
        },
        Some(node) => {
            lemma_inserted_elements(node.left, elem);
            lemma_inserted_elements(node.right, elem);
            assert(le(node.elem, elem) || le(elem, node.elem));
            let grown = after.unwrap();
            let goes_left = !le(node.elem, elem);
            let goes_right = le(node.elem, elem) && !le(elem, node.elem);
            assert(grown.elem == node.elem);
            assert(grown.left == if goes_left {
                inserted(node.left, elem)
            } else {
                node.left
            });
            assert(grown.right == if goes_right {
                inserted(node.right, elem)
            } else {
                node.right
            });
            assert forall|x: T| holds(tree, x) implies holds(after, x) by {
                if x == node.elem {
                } else if holds(node.left, x) {
                    if goes_left {
                        assert(holds(inserted(node.left, elem), x));
                    }
                    assert(holds(grown.left, x));
                } else {
                    assert(holds(node.right, x));
                    if goes_right {
                        assert(holds(inserted(node.right, elem), x));
                    }
                    assert(holds(grown.right, x));
                }
            }
            assert forall|x: T| holds(after, x) implies holds(tree, x) || x == elem by {
                if x == grown.elem {
                } else if holds(grown.left, x) {
                    if goes_left {
                        assert(holds(inserted(node.left, elem), x));
                        assert(holds(node.left, x) || x == elem);
                    }
                } else {
                    assert(holds(grown.right, x));
                    if goes_right {
                        assert(holds(inserted(node.right, elem), x));
                        assert(holds(node.right, x) || x == elem);
                    }
                }
            }
            if goes_left {
                assert(found(inserted(node.left, elem), elem));
            }
            if goes_right {
                assert(found(inserted(node.right, elem), elem));
            }
        },
    }
}

/// Inserting an element into a binary search tree gives a binary search
/// tree.
pub proof fn lemma_inserted_is_search_tree<T: Copy + PartialOrd>(
    tree: Option<Box<Node<T>>>,
    elem: T,
)
    requires
        total_order::<T>(),
        is_search_tree(tree),
    ensures
        is_search_tree(inserted(tree, elem)),
    decreases tree,
{
    match tree {
        None => {
            let leaf = inserted(tree, elem).unwrap();
            assert(leaf.left is None && leaf.right is None);
            assert(is_search_tree(leaf.left) && is_search_tree(leaf.right));
            assert forall|x: T| !holds(leaf.left, x) && !holds(leaf.right, x) by {}
        },
        Some(node) => {
            lemma_inserted_is_search_tree(node.left, elem);
            lemma_inserted_is_search_tree(node.right, elem);
            lemma_inserted_elements(node.left, elem);
            lemma_inserted_elements(node.right, elem);
        },
    }
}

/// In a binary search tree the search finds exactly the elements that
/// are equal to an element of the tree.
pub proof fn lemma_found_in_search_tree<T: Copy + PartialOrd>(tree: Option<Box<Node<T>>>, elem: T)
    requires
        total_order::<T>(),
        is_search_tree(tree),
    ensures
        found(tree, elem) <==> exists|x: T| holds(tree, x) && le(x, elem) && le(elem, x),
    decreases tree,
{
    match tree {
        None => {},
        Some(node) => {
            lemma_found_in_search_tree(node.left, elem);
            lemma_found_in_search_tree(node.right, elem);
            if found(tree, elem) {
                if le(node.elem, elem) && le(elem, node.elem) {
                    assert(holds(tree, node.elem));
                } else if !le(node.elem, elem) {
                    let x = choose|x: T| holds(node.left, x) && le(x, elem) && le(elem, x);
                    assert(holds(tree, x));
                } else {
                    let x = choose|x: T| holds(node.right, x) && le(x, elem) && le(elem, x);
                    assert(holds(tree, x));
                }
            }
            if exists|x: T| holds(tree, x) && le(x, elem) && le(elem, x) {
                let x = choose|x: T| holds(tree, x) && le(x, elem) && le(elem, x);
                if le(node.elem, elem) && le(elem, node.elem) {
                } else if x == node.elem {
                } else if holds(node.left, x) {
                    assert(!le(node.elem, x));
                    if le(node.elem, elem) {
                        assert(le(node.elem, elem) && le(elem, x));
                    }
                } else {
                    assert(holds(node.right, x));
                    assert(!le(x, node.elem));
                    if !le(node.elem, elem) {
                        assert(le(elem, node.elem) || le(node.elem, elem));
                        assert(le(x, elem) && le(elem, node.elem));
                    }
                }
            }
        },
    }
}

impl<T: Copy + PartialOrd> Node<T> {
    /// Creates a node without subtrees.
    pub fn new(elem: T) -> (node: Self)
        ensures
            node.elem == elem,
            node.left is None,
            node.right is None,
    {
        Self { elem, left: None, right: None }
    }
}

/// Inserts `elem` into `tree`.
fn insert_at<T: Copy + PartialOrd>(tree: &mut Option<Box<Node<T>>>, elem: T)
    requires
        total_order::<T>(),
    ensures
        *final(tree) == inserted(*old(tree), elem),
    decreases *old(tree),
{
    match tree.take() {
        None => {
            *tree = Some(Box::new(Node::new(elem)));
        },
        Some(boxed) => {
            let mut node = boxed;
            if less(&elem, &node.elem) {
                insert_at(&mut node.left, elem);
            } else if greater(&elem, &node.elem) {
                insert_at(&mut node.right, elem);
            }
            *tree = Some(node);
        },
    }
}

/// Appends the elements of `tree` to `result`, each node before its
/// subtrees.
fn traverse_depth_first_pre_order<T: Copy + PartialOrd>(
    tree: &Option<Box<Node<T>>>,
    result: &mut Vec<T>,
)
    ensures
        final(result)@ == old(result)@ + pre_order(*tree),
    decreases *tree,
{
    match tree {
        None => {
            assert(result@ + pre_order(*tree) =~= result@);
        },
        Some(node) => {
            result.push(node.elem);
            traverse_depth_first_pre_order(&node.left, result);
            traverse_depth_first_pre_order(&node.right, result);
            assert(result@ =~= old(result)@ + pre_order(*tree));
        },
    }
}

/// Appends the elements of `tree` to `result`, each node after its
/// subtrees.
fn traverse_depth_first_post_order<T: Copy + PartialOrd>(
    tree: &Option<Box<Node<T>>>,
    result: &mut Vec<T>,
)
    ensures
        final(result)@ == old(result)@ + post_order(*tree),
    decreases *tree,
{
    match tree {
        None => {
            assert(result@ + post_order(*tree) =~= result@);
        },
        Some(node) => {
            traverse_depth_first_post_order(&node.left, result);
            traverse_depth_first_post_order(&node.right, result);
            result.push(node.elem);
            assert(result@ =~= old(result)@ + post_order(*tree));
        },
    }
}

/// Appends the elements of `tree` to `result`, each node between its
/// subtrees.
fn traverse_depth_first_in_order<T: Copy + PartialOrd>(
    tree: &Option<Box<Node<T>>>,
    result: &mut Vec<T>,
)
    ensures
        final(result)@ == old(result)@ + in_order(*tree),
    decreases *tree,
{
    match tree {
        None => {
            assert(result@ + in_order(*tree) =~= result@);
        },
        Some(node) => {
            traverse_depth_first_in_order(&node.left, result);
            result.push(node.elem);
            traverse_depth_first_in_order(&node.right, result);
            assert(result@ =~= old(result)@ + in_order(*tree));
        },
    }
}

impl<T: Copy + PartialOrd> BinarySearchTree<T> {
    /// Creates an empty tree.
    pub fn new() -> (tree: Self)
        ensures
            tree.root is None,
    {
        Self { root: None }
    }

    /// Inserts `elem` into the tree; an element equal to one that the
    /// search meets on its way is ignored.
    pub fn insert(&mut self, elem: T)
        requires
            total_order::<T>(),
        ensures
            final(self).root == inserted(old(self).root, elem),
            is_search_tree(old(self).root) ==> is_search_tree(final(self).root),
    {
        proof {
            if is_search_tree(self.root) {
                lemma_inserted_is_search_tree(self.root, elem);
            }
        }
        insert_at(&mut self.root, elem);
    }

    /// Searches the tree for `elem` and returns it if an element equal to
    /// it is met.
    pub fn find(&self, elem: T) -> (result: Option<T>)
        requires
            total_order::<T>(),
        ensures
            result == (if found(self.root, elem) {
                Some(elem)
            } else {
                None::<T>
            }),
    {
        let mut current: &Option<Box<Node<T>>> = &self.root;
        loop
            invariant
                total_order::<T>(),
                found(self.root, elem) == found(*current, elem),
            decreases *current,
        {
            match current {
                None => {
                    return None;
                },
                Some(node) => {
                    if same(&node.elem, &elem) {
                        return Some(elem);
                    } else if less(&elem, &node.elem) {
                        current = &node.left;
                    } else {
                        proof {
                            assert(le(node.elem, elem) || le(elem, node.elem));
                        }
                        current = &node.right;
                    }
                },
            }
        }
    }

    /// Returns the elements of the tree level by level, each level from
    /// left to right.
    pub fn breadth_first(&self) -> (result: Vec<T>)
        ensures
            result@ == level_order(seq![self.root]),
    {
        let mut result: Vec<T> = Vec::new();
        let mut queue: VecDeque<&Option<Box<Node<T>>>> = VecDeque::new();
        queue.push_back(&self.root);
        let ghost mut pending: Seq<Option<Box<Node<T>>>> = seq![self.root];
        loop
            invariant
                pending.len() == queue@.len(),
                forall|i: int| 0 <= i < pending.len() ==> *(#[trigger] queue@[i]) == pending[i],
                result@ + level_order(pending) == level_order(seq![self.root]),
            ensures
                result@ == level_order(seq![self.root]),
            decreases work(pending),
        {
            match queue.pop_front() {
                None => {
                    proof {
                        assert(result@ + level_order(pending) =~= result@);
                    }
                    break ;
                },
                Some(queue_head) => {
                    let ghost before = pending;
                    proof {
                        lemma_work_front(before);
                        assert(*queue_head == before[0]);
                    }
                    match queue_head {
                        None => {
                            proof {
                                pending = before.drop_first();
                            }
                        },
                        Some(node) => {
                            let ghost shown = result@;
                            result.push(node.elem);
                            queue.push_back(&node.left);
                            queue.push_back(&node.right);
                            proof {
                                lemma_work_next(before);
                                pending = before.drop_first().push(node.left).push(node.right);
                                assert(result@ + level_order(pending) =~= shown + level_order(
                                    before,
                                ));
                            }
                        },
                    }
                },
            }
        }
        result
    }

    /// Returns the elements of the tree, each node before its subtrees.
    pub fn depth_first_pre_order(&self) -> (result: Vec<T>)
        ensures
            result@ == pre_order(self.root),
    {
        let mut result: Vec<T> = Vec::new();
        traverse_depth_first_pre_order(&self.root, &mut result);
        assert(result@ =~= pre_order(self.root));
        result
    }

    /// Returns the elements of the tree, each node after its subtrees.
    pub fn depth_first_post_order(&self) -> (result: Vec<T>)
        ensures
            result@ == post_order(self.root),
    {
        let mut result: Vec<T> = Vec::new();
        traverse_depth_first_post_order(&self.root, &mut result);
        assert(result@ =~= post_order(self.root));
        result
    }

    /// Returns the elements of the tree, each node between its subtrees:
    /// in ascending order if the tree is a binary search tree.
    pub fn depth_first_in_order(&self) -> (result: Vec<T>)
        ensures
            result@ == in_order(self.root),
    {
        let mut result: Vec<T> = Vec::new();
        traverse_depth_first_in_order(&self.root, &mut result);
        assert(result@ =~= in_order(self.root));
        result
    }
}

} // verus!
