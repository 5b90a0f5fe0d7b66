//! The matching automaton: a tree of states over digit transitions.
//!
//! Each state is tagged `Root`, `Exact(d)` or `Repeatable(d)`; a
//! repeatable state consumes further occurrences of its digit by looping
//! on itself.  Insertion merges new token sequences into the existing
//! tree, upgrading an exact state to a repeatable one when a later
//! registration needs repetition on the same transition.

use vstd::prelude::*;

use crate::model::{node_view, NodeView};
use crate::tokenizer::{Token, TokenKind};

verus! {

broadcast use crate::model::lemma_node_view;

/// The transition tag of an automaton state.
#[derive(Debug, Clone, Copy, PartialEq, Eq, Structural)]
pub enum NodeType {
    /// The unique entry state; it claims no digit of its own.
    Root,
    /// A state entered by exactly one occurrence of its digit.
    Exact(u8),
    /// A self-looping state entered by one or more occurrences of its digit.
    Repeatable(u8),
}

/// How an existing tag absorbs a newly requested tag for the same
/// transition: an exact tag is upgraded to a repeatable one; nothing is
/// ever downgraded.
pub open spec fn spec_merge(nt: NodeType, other: NodeType) -> NodeType {
    match (nt, other) {
        (NodeType::Exact(_), NodeType::Repeatable(_)) => other,
        _ => nt,
    }
}

/// The tag that a token asks of the automaton state consuming it.
pub open spec fn spec_node_type_of(t: Token) -> NodeType {
    match t.kind {
        TokenKind::Single => NodeType::Exact(t.digit),
        TokenKind::AtLeastOne => NodeType::Repeatable(t.digit),
    }
}

impl From<&Token> for NodeType {
    fn from(t: &Token) -> (nt: NodeType)
        ensures
            nt == spec_node_type_of(*t),
    {
        match t.kind {
            TokenKind::Single => NodeType::Exact(t.digit),
            TokenKind::AtLeastOne => NodeType::Repeatable(t.digit),
        }
    }
}

impl vstd::std_specs::convert::FromSpecImpl<&Token> for NodeType {
    open spec fn obeys_from_spec() -> bool {
        true
    }

    open spec fn from_spec(t: &Token) -> NodeType {
        spec_node_type_of(*t)
    }
}

/// One automaton state, exclusively owning its child states.
#[derive(Debug)]
pub struct Node<T> {
    pub children: Vec<Node<T>>,
    pub value: Option<T>,
    pub node_type: NodeType,
}

impl<T> View for Node<T> {
    type V = NodeView<T>;

    open spec fn view(&self) -> NodeView<T> {
        node_view(*self)
    }
}

impl<T> Node<T> {
    /// The entry state of a fresh automaton: no children, no value.
    pub fn root() -> (n: Node<T>)
        ensures
            n@ == (NodeView::<T> { node_type: NodeType::Root, children: Seq::empty(), value: None }),
    {
        let n = Node { children: Vec::new(), value: None, node_type: NodeType::Root };
        proof {
            assert(n@ =~= NodeView::<T> {
                node_type: NodeType::Root,
                children: Seq::empty(),
                value: None,
            });
        }
        n
    }

    /// A fresh state with the given tag: no children, no value.
    pub fn new(node_type: NodeType) -> (n: Node<T>)
        ensures
            n@ == (NodeView::<T> { node_type, children: Seq::empty(), value: None }),
    {
        let n = Node { children: Vec::new(), value: None, node_type };
        proof {
            assert(n@ =~= NodeView::<T> { node_type, children: Seq::empty(), value: None });
        }
        n
    }

    /// Stores `value` in this state, replacing any previous value.
    pub fn set_value(&mut self, value: T)
        ensures
            final(self)@ == (NodeView { value: Some(value), ..old(self)@ }),
    {
        self.value = Some(value);
        proof {
            crate::model::lemma_same_children(*self, *old(self));
            assert(self@ =~= NodeView { value: Some(value), ..old(self)@ });
        }
    }

    /// The value stored in this state, if any.
    pub fn get_value(&self) -> (r: Option<&T>)
        ensures
            match r {
                Some(v) => self@.value == Some(*v),
                None => self@.value is None,
            },
    {
        self.value.as_ref()
    }

    /// Whether this state accepts `digit`.
    pub fn can_handle(&self, digit: u8) -> (r: bool)
        ensures
            r == self@.can_handle(digit),
        decreases *self, 1int,
    {
        match self.node_type {
            NodeType::Root => false,
            NodeType::Exact(d) => d == digit,
            NodeType::Repeatable(d) => {
                if d == digit {
                    true
                } else {
                    let r = self.can_handle_index(digit);
                    proof {
                        crate::model::lemma_chi_first(self@, digit, 0);
                    }
                    r.is_some()
                }
            },
        }
    }

    /// The index of the first child that accepts `digit`, if any.
    pub fn can_handle_index(&self, digit: u8) -> (r: Option<usize>)
        ensures
            match r {
                Some(i) => self@.chi(digit) == Some(i as int) && i < self.children.len(),
                None => self@.chi(digit) is None,
            },
        decreases *self, 0int,
    {
        let n = self.children.len();
        let mut i: usize = 0;
        while i < n
            invariant
                i <= n,
                n == self.children.len(),
                self@.chi(digit) == self@.chi_from(digit, i as int),
            decreases n - i,
        {
            if self.children[i].can_handle(digit) {
                return Some(i);
            }
            i = i + 1;
        }
        None
    }

    /// Advances into the child that accepts `digit`, creating one with
    /// the requested tag when none does; an accepting exact child asked
    /// to become repeatable is upgraded on the way in.
    pub fn add_if_missing(&mut self, digit: u8, node_type: NodeType) -> (ret: &mut Node<T>)
        ensures
            match old(self)@.chi(digit) {
                Some(i) => {
                    &&& crate::model::merged_into(old(self)@.children[i], node_type, (*ret)@)
                    &&& crate::model::child_updated(old(self)@, i, final(ret)@, final(self)@)
                },
                None => {
                    &&& crate::model::fresh_node(node_type, (*ret)@)
                    &&& crate::model::child_appended(old(self)@, final(ret)@, final(self)@)
                },
            },
    {
        let idx = self.can_handle_index(digit);
        if let Some(i) = idx {
            let c = &mut self.children[i];
            c.merge(&node_type);
            return c;
        }
        self.children.push(Node::new(node_type));
        let n = self.children.len() - 1;
        &mut self.children[n]
    }

    /// One insertion step for `digit`: a repeatable state consumes its
    /// own digit by staying where it is; any other state descends into
    /// (creating or upgrading as needed) the child that accepts the
    /// digit.
    pub fn add_with(&mut self, digit: u8, node_type: NodeType) -> (ret: &mut Node<T>)
        ensures
            old(self)@.node_type == NodeType::Repeatable(digit) ==> {
                &&& *ret == *old(self)
                &&& *final(self) == *final(ret)
            },
            old(self)@.node_type != NodeType::Repeatable(digit) ==> match old(self)@.chi(digit) {
                Some(i) => {
                    &&& crate::model::merged_into(old(self)@.children[i], node_type, (*ret)@)
                    &&& crate::model::child_updated(old(self)@, i, final(ret)@, final(self)@)
                },
                None => {
                    &&& crate::model::fresh_node(node_type, (*ret)@)
                    &&& crate::model::child_appended(old(self)@, final(ret)@, final(self)@)
                },
            },
    {
        match self.node_type {
            NodeType::Exact(_) | NodeType::Root => self.add_if_missing(digit, node_type),
            NodeType::Repeatable(my_digit) => {
                if my_digit == digit {
                    self
                } else {
                    self.add_if_missing(digit, node_type)
                }
            },
        }
    }

    /// One query step: the first child that accepts `digit`, else this
    /// state itself when it is repeatable on `digit`, else nothing.
    pub fn get(&self, digit: u8) -> (r: Option<&Node<T>>)
        ensures
            match r {
                Some(n) => self@.get_step(digit) == Some(n@),
                None => self@.get_step(digit) is None,
            },
    {
        let idx = self.can_handle_index(digit);
        if let Some(i) = idx {
            return Some(&self.children[i]);
        }
        match self.node_type {
            NodeType::Repeatable(d) => {
                if d == digit {
                    Some(self)
                } else {
                    None
                }
            },
            _ => None,
        }
    }

    /// Absorbs a newly requested tag: an exact state asked to become
    /// repeatable is upgraded in place; any other request leaves the tag
    /// unchanged.
    pub fn merge(&mut self, other: &NodeType)
        ensures
            final(self)@ == (NodeView {
                node_type: spec_merge(old(self)@.node_type, *other),
                ..old(self)@
            }),
    {
        if let (NodeType::Exact(_), NodeType::Repeatable(_)) = (&self.node_type, other) {
            self.node_type = *other;
        }
        proof {
            crate::model::lemma_same_children(*self, *old(self));
            assert(self@ =~= NodeView {
                node_type: spec_merge(old(self)@.node_type, *other),
                ..old(self)@
            });
        }
    }
}

} // verus!
