//! In-order traversal of a rope's elements with an explicit stack.

use vstd::prelude::*;
use std::hash::Hash;
use std::rc::Rc;
use crate::node::Node;

verus! {

/// A cursor over the elements of a rope, from first to last. It borrows
/// the rope's nodes and never changes them.
pub struct Values<'a, T, M> {
    /// The internal nodes whose left subtree is being visited or is done
    /// and whose right subtree is still to come, innermost last.
    stack: Vec<&'a Rc<Node<T, M>>>,
    /// The elements of the leaf being consumed.
    leaf: &'a Vec<T>,
    /// How many elements of `leaf` were handed out.
    pos: usize,
}

/// The elements still to come from the right subtrees of the nodes on the
/// stack, innermost node first.
pub(crate) open spec fn pending<T: Clone, M: Eq + Hash + Copy>(
    stack: Seq<&Rc<Node<T, M>>>,
) -> Seq<T>
    decreases stack.len(),
{
    if stack.len() == 0 {
        Seq::empty()
    } else {
        (**stack.last())->right.elems() + pending(stack.drop_last())
    }
}

/// The number of leaves still to be entered from the stack.
pub(crate) open spec fn pending_leaves<T: Clone, M: Eq + Hash + Copy>(
    stack: Seq<&Rc<Node<T, M>>>,
) -> nat
    decreases stack.len(),
{
    if stack.len() == 0 {
        0
    } else {
        (**stack.last())->right.leaves() + pending_leaves(stack.drop_last())
    }
}

/// Every node on the stack is a valid internal node.
pub(crate) open spec fn stack_wf<T: Clone, M: Eq + Hash + Copy>(
    stack: Seq<&Rc<Node<T, M>>>,
) -> bool {
    forall|i: int| 0 <= i < stack.len() ==> (**#[trigger] stack[i]) is Concat && stack[i].wf()
}

impl<'a, T: Clone, M: Eq + Hash + Copy> Values<'a, T, M> {
    /// The elements that the cursor has yet to hand out, in order.
    pub closed spec fn remaining(&self) -> Seq<T> {
        self.leaf@.skip(self.pos as int) + pending(self.stack@)
    }

    /// The cursor is valid: it stands inside its leaf, over a stack of
    /// valid internal nodes.
    pub closed spec fn wf(&self) -> bool {
        &&& self.pos <= self.leaf@.len()
        &&& stack_wf(self.stack@)
    }

    /// A cursor at the first element under `root`.
    pub(crate) fn new(root: &'a Rc<Node<T, M>>) -> (values: Self)
        requires
            root.wf(),
        ensures
            values.wf(),
            values.remaining() == root.elems(),
    {
        let mut stack: Vec<&'a Rc<Node<T, M>>> = Vec::with_capacity(root.depth());
        let mut current: &'a Rc<Node<T, M>> = root;
        assert(current.elems() + pending(stack@) =~= root.elems());
        loop
            invariant
                current.wf(),
                stack_wf(stack@),
                current.elems() + pending(stack@) == root.elems(),
            decreases current.height(),
        {
            match &**current {
                Node::Flat { data, .. } => {
                    assert(data@.skip(0) =~= data@);
                    return Values { stack, leaf: data, pos: 0 };
                },
                Node::Concat { left, .. } => {
                    let ghost below = stack@;
                    stack.push(current);
                    proof {
                        assert(stack@.drop_last() =~= below);
                        assert(stack@.last() == current);
                        assert(left.elems() + pending(stack@) =~= current.elems() + pending(
                            below,
                        ));
                    }
                    current = left;
                },
            }
        }
    }

    /// Hands out the next element, or `None` once all were handed out.
    /// Empty leaves are passed over.
    pub fn next(&mut self) -> (item: Option<&'a T>)
        requires
            old(self).wf(),
        ensures
            final(self).wf(),
            old(self).remaining().len() > 0 ==> item == Some(&old(self).remaining()[0])
                && final(self).remaining() == old(self).remaining().skip(1),
            old(self).remaining().len() == 0 ==> item.is_none() && final(self).remaining()
                == old(self).remaining(),
    {
        loop
            invariant
                self.wf(),
                self.remaining() == old(self).remaining(),
            decreases pending_leaves(self.stack@),
        {
            if self.pos < self.leaf.len() {
                let item = &self.leaf[self.pos];
                proof {
                    assert(self.remaining()[0] == self.leaf@[self.pos as int]);
                    assert(self.leaf@.skip(self.pos + 1) + pending(self.stack@)
                        =~= self.remaining().skip(1));
                }
                self.pos += 1;
                return Some(item);
            }
            let ghost full = self.stack@;
            assert(self.leaf@.skip(self.pos as int) =~= Seq::<T>::empty());
            match self.stack.pop() {
                None => {
                    assert(self.remaining() =~= Seq::<T>::empty());
                    return None;
                },
                Some(node) => {
                    let ghost rest = self.stack@;
                    assert(rest =~= full.drop_last() && node == full.last());
                    match &**node {
                        Node::Flat { .. } => {
                            // Only internal nodes are ever stacked.
                            assert(false);
                            return None;
                        },
                        Node::Concat { right, .. } => {
                            let mut current: &'a Rc<Node<T, M>> = right;
                            assert(current.elems() + pending(self.stack@) =~= old(
                                self,
                            ).remaining());
                            loop
                                invariant
                                    current.wf(),
                                    stack_wf(self.stack@),
                                    self.pos <= self.leaf@.len(),
                                    current.elems() + pending(self.stack@) == old(
                                        self,
                                    ).remaining(),
                                    current.leaves() + pending_leaves(self.stack@)
                                        == pending_leaves(full),
                                ensures
                                    self.wf(),
                                    self.remaining() == old(self).remaining(),
                                    pending_leaves(self.stack@) < pending_leaves(full),
                                decreases current.height(),
                            {
                                match &**current {
                                    Node::Flat { data, .. } => {
                                        self.leaf = data;
                                        self.pos = 0;
                                        assert(data@.skip(0) =~= data@);
                                        break ;
                                    },
                                    Node::Concat { left, .. } => {
                                        let ghost below = self.stack@;
                                        self.stack.push(current);
                                        proof {
                                            assert(self.stack@.drop_last() =~= below);
                                            assert(self.stack@.last() == current);
                                            assert(left.elems() + pending(self.stack@)
                                                =~= current.elems() + pending(below));
                                        }
                                        current = left;
                                    },
                                }
                            }
                        },
                    }
                },
            }
        }
    }
}

} // verus!
