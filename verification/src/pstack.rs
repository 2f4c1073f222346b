//! A persistent stack: pushing and popping return new stacks that share
//! their tail with the old one through reference counting.
use vstd::prelude::*;
use std::rc::Rc;

verus! {

/// One link of the shared chain.  The bottom of every stack is a sentinel
/// node with no value and no predecessor.
pub struct Node<T> {
    pub value: Option<T>,
    pub size: usize,
    pub previous: Option<Rc<Node<T>>>,
}

/// Relies on Rc::clone: the returned handle is the same shared value.
#[verifier::external_body]
fn rc_clone<T>(rc: &Rc<T>) -> (r: Rc<T>)
    ensures
        r == *rc,
{
    Rc::clone(rc)
}

/// The values reachable from a node, most recently pushed first.
pub open spec fn node_seq<T>(n: Node<T>) -> Seq<T>
    decreases n,
{
    match n.previous {
        Option::None => Seq::empty(),
        Option::Some(p) => seq![n.value.unwrap()] + node_seq(*p),
    }
}

/// A node chain is well formed when only the sentinel lacks a value and
/// every size field counts the values below it.
pub open spec fn node_wf<T>(n: Node<T>) -> bool
    decreases n,
{
    match n.previous {
        Option::None => n.value is None && n.size == 0,
        Option::Some(p) => n.value is Some && n.size == node_seq(*p).len() + 1 && node_wf(*p),
    }
}

proof fn lemma_node_seq_len<T>(n: &Node<T>)
    requires
        node_wf(*n),
    ensures
        node_seq(*n).len() == n.size,
    decreases *n,
{
    match &n.previous {
        Option::None => {},
        Option::Some(p) => {
            lemma_node_seq_len(&**p);
        },
    }
}

impl<T> Node<T> {
    /// The sentinel node at the bottom of every stack.
    pub fn default() -> (r: Self)
        ensures
            node_wf(r),
            node_seq(r) == Seq::<T>::empty(),
            r.size == 0,
    {
        Self { value: None, size: 0, previous: None }
    }

    /// A node holding one value and not yet linked to a chain.
    pub fn new(value: T) -> (r: Self)
        ensures
            r.value == Some(value),
            r.size == 1,
            r.previous is None,
    {
        Self { value: Some(value), size: 1, previous: None }
    }
}

/// A shared handle to a node.
pub struct PRef<T> {
    pub rc_node: Rc<Node<T>>,
}

impl<T> PRef<T> {
    /// A handle to a fresh sentinel.
    pub fn default() -> (r: Self)
        ensures
            node_wf(*r.rc_node),
            node_seq(*r.rc_node) == Seq::<T>::empty(),
    {
        Self { rc_node: Rc::new(Node::<T>::default()) }
    }

    pub fn new(rc_node: Rc<Node<T>>) -> (r: Self)
        ensures
            r.rc_node == rc_node,
    {
        Self { rc_node }
    }

    /// The value this handle points at.
    pub fn value(&self) -> (r: &T)
        requires
            (*self.rc_node).value is Some,
        ensures
            *r == (*self.rc_node).value.unwrap(),
    {
        match &(*self.rc_node).value {
            Some(v) => v,
            None => vstd::pervasive::unreached(),
        }
    }
}

/// The persistent stack itself: a handle to the top node.
pub struct PStack<T> {
    pub head: PRef<T>,
}

impl<T> PStack<T> {
    /// The stored values, most recently pushed first.
    pub open spec fn view(self) -> Seq<T> {
        node_seq(*self.head.rc_node)
    }

    pub open spec fn wf(self) -> bool {
        node_wf(*self.head.rc_node)
    }

    pub fn new() -> (r: Self)
        ensures
            r.wf(),
            r.view() == Seq::<T>::empty(),
    {
        Self { head: PRef::<T>::default() }
    }

    /// A stack sharing the chain that `other_head` points at.
    pub fn from_p_ref(other_head: &PRef<T>) -> (r: Self)
        ensures
            r.head.rc_node == other_head.rc_node,
    {
        Self { head: PRef { rc_node: rc_clone(&other_head.rc_node) } }
    }

    /// A stack with `value` on top of this one; this stack is unchanged.
    pub fn push(&self, value: T) -> (r: Self)
        requires
            self.wf(),
            self.view().len() < usize::MAX,
        ensures
            r.wf(),
            r.view() == seq![value] + self.view(),
    {
        proof {
            lemma_node_seq_len(&*self.head.rc_node);
        }
        let old_size = (*self.head.rc_node).size;
        let mut new_node = Node::<T>::new(value);
        new_node.size = old_size + 1;
        new_node.previous = Some(rc_clone(&self.head.rc_node));
        let r = Self { head: PRef { rc_node: Rc::new(new_node) } };
        r
    }

    /// Splits the top value off, handing back a handle to it and the stack
    /// below; `None` on the empty stack.
    pub fn pop(&self) -> (r: Option<(PRef<T>, Self)>)
        requires
            self.wf(),
        ensures
            self.view().len() == 0 ==> r is None,
            self.view().len() > 0 ==> match r {
                Some(p) => (*p.0.rc_node).value == Some(self.view()[0]) && p.1.wf() && p.1.view()
                    == self.view().skip(1),
                None => false,
            },
    {
        match &(*self.head.rc_node).previous {
            None => None,
            Some(prev) => {
                let top = PRef::<T>::new(rc_clone(&self.head.rc_node));
                let rest = Self { head: PRef::new(rc_clone(prev)) };
                proof {
                    assert(self.view().skip(1) =~= node_seq(**prev));
                }
                Some((top, rest))
            },
        }
    }

    pub fn len(&self) -> (r: usize)
        requires
            self.wf(),
        ensures
            r == self.view().len(),
    {
        proof {
            lemma_node_seq_len(&*self.head.rc_node);
        }
        (*self.head.rc_node).size
    }

    pub fn is_empty(&self) -> (r: bool)
        requires
            self.wf(),
        ensures
            r == (self.view().len() == 0),
    {
        proof {
            lemma_node_seq_len(&*self.head.rc_node);
        }
        (*self.head.rc_node).size == 0
    }

    /// A cursor over the stack, from the top down.
    pub fn iter(&self) -> (r: PStackIterator<T>)
        ensures
            r.head.rc_node == self.head.rc_node,
    {
        PStackIterator::<T>::new(self)
    }
}

/// Walks a stack from the top down, one handle at a time.
pub struct PStackIterator<T> {
    pub head: PRef<T>,
}

impl<T> PStackIterator<T> {
    pub fn new(stack: &PStack<T>) -> (r: Self)
        ensures
            r.head.rc_node == stack.head.rc_node,
    {
        Self { head: PRef::<T>::new(rc_clone(&stack.head.rc_node)) }
    }

    /// The next handle down the chain, or `None` past the sentinel.
    pub fn next(&mut self) -> (r: Option<PRef<T>>)
        requires
            node_wf(*old(self).head.rc_node),
        ensures
            node_wf(*final(self).head.rc_node),
            node_seq(*old(self).head.rc_node).len() == 0 ==> r is None && final(self).head.rc_node
                == old(self).head.rc_node,
            node_seq(*old(self).head.rc_node).len() > 0 ==> match r {
                Some(p) => (*p.rc_node).value == Some(node_seq(*old(self).head.rc_node)[0])
                    && node_seq(*final(self).head.rc_node) == node_seq(
                    *old(self).head.rc_node,
                ).skip(1),
                None => false,
            },
    {
        match &(*self.head.rc_node).previous {
            None => None,
            Some(prev) => {
                let next_head = rc_clone(prev);
                let top = rc_clone(&self.head.rc_node);
                self.head = PRef::<T>::new(next_head);
                proof {
                    assert(node_seq(*old(self).head.rc_node).skip(1) =~= node_seq(
                        *self.head.rc_node,
                    ));
                }
                Some(PRef::<T>::new(top))
            },
        }
    }
}

} // verus!
