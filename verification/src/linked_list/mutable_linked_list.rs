use vstd::prelude::*;

verus! {

struct Node<T> {
    elem: T,
    next: Option<Box<Node<T>>>,
}

/// A singly linked list that grows and shrinks at its head.
pub struct List<T> {
    head: Option<Box<Node<T>>>,
}

/// An iterator that takes the elements out of a list, head first.
pub struct IntoIter<T>(List<T>);

/// An iterator over the elements of a list, head first.
pub struct Iter<'a, T> {
    next: Option<&'a Node<T>>,
}

/// An iterator over the elements of a list, head first, that hands each
/// element out for change.
pub struct IterMut<'a, T> {
    next: Option<&'a mut Node<T>>,
}

/// The elements of the chain of nodes that starts at `link`.
spec fn elements<T>(link: Option<Box<Node<T>>>) -> Seq<T>
    decreases link,
{
    match link {
        None => Seq::empty(),
        Some(node) => seq![node.elem] + elements(node.next),
    }
}

/// The elements of the chain of nodes that starts at `node`.
spec fn elements_from<T>(node: Option<&Node<T>>) -> Seq<T> {
    match node {
        None => Seq::empty(),
        Some(node) => seq![node.elem] + elements(node.next),
    }
}

impl<T> View for List<T> {
    type V = Seq<T>;

    /// The elements of the list, head first.
    closed spec fn view(&self) -> Seq<T> {
        elements(self.head)
    }
}

impl<T> View for IntoIter<T> {
    type V = Seq<T>;

    /// The elements that are still to come.
    closed spec fn view(&self) -> Seq<T> {
        self.0@
    }
}

impl<'a, T> View for Iter<'a, T> {
    type V = Seq<T>;

    /// The elements that are still to come.
    closed spec fn view(&self) -> Seq<T> {
        elements_from(self.next)
    }
}

impl<'a, T> View for IterMut<'a, T> {
    type V = Seq<T>;

    /// The elements that are still to come, as they are now.
    closed spec fn view(&self) -> Seq<T> {
        match self.next {
            None => Seq::empty(),
            Some(node) => seq![node.elem] + elements(node.next),
        }
    }
}

impl<T> List<T> {
    /// Creates an empty list.
    pub fn new() -> (list: Self)
        ensures
            list@ == Seq::<T>::empty(),
    {
        List { head: None }
    }

    /// Puts `elem` at the head of the list.
    pub fn unshift(&mut self, elem: T)
        ensures
            final(self)@ == seq![elem] + old(self)@,
    {
        let new_node = Box::new(Node { elem: elem, next: self.head.take() });
        self.head = Some(new_node);
    }

    /// Takes the element at the head out of the list and returns it, or
    /// returns `None` if the list is empty.
    pub fn shift(&mut self) -> (taken: Option<T>)
        ensures
            match taken {
                Some(elem) => old(self)@.len() > 0 && elem == old(self)@[0] && final(self)@
                    == old(self)@.drop_first(),
                None => old(self)@.len() == 0 && final(self)@ == old(self)@,
            },
    {
        match self.head.take() {
            None => None,
            Some(head) => {
                let node = *head;
                self.head = node.next;
                proof {
                    assert(old(self)@.drop_first() =~= elements(node.next));
                }
                Some(node.elem)
            },
        }
    }

    /// Returns the element at the head of the list, if any.
    pub fn peek(&self) -> (head: Option<&T>)
        ensures
            match head {
                Some(elem) => self@.len() > 0 && *elem == self@[0],
                None => self@.len() == 0,
            },
    {
        match &self.head {
            None => None,
            Some(node) => Some(&node.elem),
        }
    }

    /// Returns the element at the head of the list for change, if any.
    pub fn peek_mut(&mut self) -> (head: Option<&mut T>)
        ensures
            match head {
                Some(elem) => old(self)@.len() > 0 && *elem == old(self)@[0] && final(self)@
                    == old(self)@.update(0, *final(elem)),
                None => old(self)@.len() == 0 && final(self)@ == old(self)@,
            },
    {
        match &mut self.head {
            None => None,
            Some(node) => {
                proof {
                    assert(old(self)@.update(0, node.elem) =~= old(self)@);
                }
                Some(&mut node.elem)
            },
        }
    }

    /// Turns the list into an iterator that takes its elements out.
    pub fn into_iter(self) -> (iter: IntoIter<T>)
        ensures
            iter@ == self@,
    {
        IntoIter(self)
    }

    /// Returns an iterator that hands the elements of the list out for
    /// change.
    pub fn iter_mut<'a>(&'a mut self) -> (iter: IterMut<'a, T>)
        ensures
            iter@ == old(self)@,
    {
        match &mut self.head {
            None => IterMut { next: None },
            Some(node) => IterMut { next: Some(&mut **node) },
        }
    }

    /// Returns an iterator over the elements of the list.
    pub fn iter<'a>(&'a self) -> (iter: Iter<'a, T>)
        ensures
            iter@ == self@,
    {
        match &self.head {
            None => Iter { next: None },
            Some(node) => Iter { next: Some(&**node) },
        }
    }
}

impl<'a, T> IterMut<'a, T> {
    /// Hands the next element of the list out for change, if any is left.
    pub fn next(&mut self) -> (item: Option<&'a mut T>)
        ensures
            match item {
                Some(elem) => old(self)@.len() > 0 && *elem == old(self)@[0] && final(self)@
                    == old(self)@.drop_first(),
                None => old(self)@.len() == 0 && final(self)@ == old(self)@,
            },
    {
        match self.next.take() {
            None => None,
            Some(node) => {
                proof {
                    assert(old(self)@.drop_first() =~= elements(node.next));
                }
                self.next = match &mut node.next {
                    None => None,
                    Some(following) => Some(&mut **following),
                };
                Some(&mut node.elem)
            },
        }
    }
}

impl<T> IntoIter<T> {
    /// Takes the next element out of the list, if any is left.
    pub fn next(&mut self) -> (item: Option<T>)
        ensures
            match item {
                Some(elem) => old(self)@.len() > 0 && elem == old(self)@[0] && final(self)@
                    == old(self)@.drop_first(),
                None => old(self)@.len() == 0 && final(self)@ == old(self)@,
            },
    {
        self.0.shift()
    }
}

impl<'a, T> Iter<'a, T> {
    /// Returns the next element of the list, if any is left.
    pub fn next(&mut self) -> (item: Option<&'a T>)
        ensures
            match item {
                Some(elem) => old(self)@.len() > 0 && *elem == old(self)@[0] && final(self)@
                    == old(self)@.drop_first(),
                None => old(self)@.len() == 0 && final(self)@ == old(self)@,
            },
    {
        match self.next {
            None => None,
            Some(node) => {
                self.next = match &node.next {
                    None => None,
                    Some(following) => Some(&**following),
                };
                proof {
                    assert(old(self)@.drop_first() =~= elements(node.next));
                }
                Some(&node.elem)
            },
        }
    }
}

impl<T> Drop for List<T> {
    /// Takes the list apart node by node, so that dropping a long list
    /// does not nest one call for each node.
    fn drop(&mut self)
        opens_invariants none
        no_unwind
    {
        let mut cur_link: Option<Box<Node<T>>> = None;
        core::mem::swap(&mut self.head, &mut cur_link);
        let mut done = false;
        while !done
            invariant
                done ==> cur_link is None,
            decreases elements(cur_link).len() + if done { 0int } else { 1int },
        {
            match cur_link {
                None => {
                    cur_link = None;
                    done = true;
                },
                Some(mut boxed_node) => {
                    let mut next: Option<Box<Node<T>>> = None;
                    core::mem::swap(&mut boxed_node.next, &mut next);
                    cur_link = next;
                },
            }
        }
    }
}

} // verus!
