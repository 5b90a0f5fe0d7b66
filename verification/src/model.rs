//! The mathematical model of the automaton: abstract trees and the
//! functions over them that the contracts speak of.

use vstd::prelude::*;

use vstd::std_specs::cmp::PartialEqSpec;

use crate::digits::spec_digit_of;
use crate::error::MapError;
use crate::node::{spec_merge, spec_node_type_of, Node, NodeType};
use crate::tokenizer::Token;

verus! {

/// The mathematical shape of an automaton state: the same tree, with the
/// children as a sequence.
#[verifier::ext_equal]
pub ghost struct NodeView<T> {
    pub node_type: NodeType,
    pub children: Seq<NodeView<T>>,
    pub value: Option<T>,
}

/// The abstract tree of a state.
pub open spec fn node_view<T>(n: Node<T>) -> NodeView<T>
    decreases n, 0int,
{
    NodeView {
        node_type: n.node_type,
        children: children_views(n.children, 0),
        value: n.value,
    }
}

/// The abstract trees of the children in `v`, from index `i` on.
pub open spec fn children_views<T>(v: Vec<Node<T>>, i: int) -> Seq<NodeView<T>>
    decreases v, v.len() - i,
{
    if i < 0 || i >= v.len() {
        Seq::empty()
    } else {
        seq![node_view(v[i])] + children_views(v, i + 1)
    }
}

/// The shape of `children_views`: one abstract tree per child, in order.
pub broadcast proof fn lemma_children_views<T>(v: Vec<Node<T>>, i: int)
    requires
        0 <= i <= v.len(),
    ensures
        (#[trigger] children_views(v, i)).len() == v.len() - i,
        forall|j: int| i <= j < v.len() ==> children_views(v, i)[j - i] == node_view(v[j]),
    decreases v.len() - i,
{
    if i < v.len() {
        lemma_children_views(v, i + 1);
    }
}

/// The abstract tree of a state, field by field.
pub broadcast proof fn lemma_node_view<T>(n: Node<T>)
    ensures
        (#[trigger] node_view(n)).node_type == n.node_type,
        node_view(n).value == n.value,
        node_view(n).children.len() == n.children.len(),
        forall|j: int| 0 <= j < n.children.len() ==> node_view(n).children[j] == node_view(
            n.children[j],
        ),
{
    lemma_children_views(n.children, 0);
}

/// Two states with equal children vectors have equal abstract child
/// sequences.
pub proof fn lemma_same_children<T>(a: Node<T>, b: Node<T>)
    requires
        a.children == b.children,
    ensures
        node_view(a).children == node_view(b).children,
{
    broadcast use lemma_node_view;

    assert(node_view(a).children =~= node_view(b).children);
}

impl<T> NodeView<T> {
    /// Whether this state accepts `digit`: an exact state accepts its own
    /// digit, a repeatable state accepts its own digit or any digit that
    /// one of its children accepts, and the root accepts none.
    pub open spec fn can_handle(self, digit: u8) -> bool
        decreases self,
    {
        match self.node_type {
            NodeType::Root => false,
            NodeType::Exact(d) => d == digit,
            NodeType::Repeatable(d) => d == digit || exists|i: int|
                0 <= i < self.children.len() && self.children[i].can_handle(digit),
        }
    }

    /// The first index at or after `i` of a child that accepts `digit`.
    pub open spec fn chi_from(self, digit: u8, i: int) -> Option<int>
        decreases self.children.len() - i,
    {
        if i < 0 || i >= self.children.len() {
            None
        } else if self.children[i].can_handle(digit) {
            Some(i)
        } else {
            self.chi_from(digit, i + 1)
        }
    }

    /// The index of the first child that accepts `digit`, if any.
    pub open spec fn chi(self, digit: u8) -> Option<int> {
        self.chi_from(digit, 0)
    }

    /// One step of a query walk: the first child that accepts `digit`,
    /// else this state itself when it is repeatable on `digit`, else
    /// nothing.
    pub open spec fn get_step(self, digit: u8) -> Option<NodeView<T>> {
        if self.chi(digit) is Some {
            Some(self.children[self.chi(digit).unwrap()])
        } else if self.node_type == NodeType::Repeatable(digit) {
            Some(self)
        } else {
            None
        }
    }
}

impl<T> NodeView<T> {
    /// The state reached from this one by consuming the digits `ds`, one
    /// `get_step` at a time, if the walk never gets stuck.
    pub open spec fn walk(self, ds: Seq<u8>) -> Option<NodeView<T>>
        decreases ds.len(),
    {
        if ds.len() == 0 {
            Some(self)
        } else {
            match self.get_step(ds[0]) {
                Some(n2) => n2.walk(ds.drop_first()),
                None => None,
            }
        }
    }
}

/// One token sequence inserted below `n`: the new tree, and whether the
/// terminal state accepted `value` (it does when it stored nothing yet or
/// already stores an equal value).
pub open spec fn spec_insert<T: PartialEq>(n: NodeView<T>, tokens: Seq<Token>, value: T) -> (
    NodeView<T>,
    bool,
)
    decreases tokens.len(),
{
    if tokens.len() == 0 {
        match n.value {
            None => (NodeView { value: Some(value), ..n }, true),
            Some(w) => (n, w.eq_spec(&value)),
        }
    } else {
        let t = tokens[0];
        let nt = spec_node_type_of(t);
        if n.node_type == NodeType::Repeatable(t.digit) {
            spec_insert(n, tokens.drop_first(), value)
        } else if n.chi(t.digit) is Some {
            let i = n.chi(t.digit).unwrap();
            let c1 = NodeView {
                node_type: spec_merge(n.children[i].node_type, nt),
                ..n.children[i]
            };
            let r = spec_insert(c1, tokens.drop_first(), value);
            (NodeView { children: n.children.update(i, r.0), ..n }, r.1)
        } else {
            let c1 = NodeView { node_type: nt, children: Seq::empty(), value: None };
            let r = spec_insert(c1, tokens.drop_first(), value);
            (NodeView { children: n.children.push(r.0), ..n }, r.1)
        }
    }
}

/// Every sequence of `vs` inserted in order, stopping at the first
/// conflict; the mutations of the sequences before it remain.
pub open spec fn spec_insert_all<T: PartialEq>(n: NodeView<T>, vs: Seq<Seq<Token>>, value: T) -> (
    NodeView<T>,
    bool,
)
    decreases vs.len(),
{
    if vs.len() == 0 {
        (n, true)
    } else {
        let r = spec_insert(n, vs[0], value);
        if r.1 {
            spec_insert_all(r.0, vs.drop_first(), value)
        } else {
            (r.0, false)
        }
    }
}

/// What a query over the character string `cs` returns: the first
/// non-digit character is an error; a walk that gets stuck is a
/// successful miss; otherwise the value stored in the final state.
pub open spec fn spec_query<T>(n: NodeView<T>, cs: Seq<char>) -> Result<Option<T>, MapError>
    decreases cs.len(),
{
    if cs.len() == 0 {
        Ok(n.value)
    } else {
        match spec_digit_of(cs[0]) {
            None => Err(MapError::InvalidDigit(cs[0])),
            Some(d) => match n.get_step(d) {
                Some(n2) => spec_query(n2, cs.drop_first()),
                None => Ok(None),
            },
        }
    }
}

/// Processing one more sequence: the whole run over a prefix extended by
/// one sequence is the run over the prefix followed by that insertion.
pub proof fn lemma_insert_all_step<T: PartialEq>(
    n: NodeView<T>,
    vs: Seq<Seq<Token>>,
    k: int,
    value: T,
)
    requires
        0 <= k < vs.len(),
        spec_insert_all(n, vs.take(k), value).1,
    ensures
        spec_insert_all(n, vs.take(k + 1), value).0 == spec_insert(
            spec_insert_all(n, vs.take(k), value).0,
            vs[k],
            value,
        ).0,
        spec_insert_all(n, vs.take(k + 1), value).1 == spec_insert(
            spec_insert_all(n, vs.take(k), value).0,
            vs[k],
            value,
        ).1,
    decreases k,
{
    if k == 0 {
        reveal_with_fuel(spec_insert_all, 3);
        assert(vs.take(0) =~= Seq::<Seq<Token>>::empty());
        assert(vs.take(1)[0] == vs[0]);
        assert(vs.take(1).drop_first() =~= Seq::<Seq<Token>>::empty());
    } else {
        let r0 = spec_insert(n, vs[0], value);
        assert(vs.take(k)[0] == vs[0]);
        assert(vs.take(k + 1)[0] == vs[0]);
        assert(vs.take(k).drop_first() =~= vs.drop_first().take(k - 1));
        assert(vs.take(k + 1).drop_first() =~= vs.drop_first().take(k));
        lemma_insert_all_step(r0.0, vs.drop_first(), k - 1, value);
        assert(vs.drop_first()[k - 1] == vs[k]);
    }
}

/// A whole run is the run over a successfully processed prefix followed
/// by the run over the rest, from the tree the prefix produced.
pub proof fn lemma_insert_all_split<T: PartialEq>(
    n: NodeView<T>,
    vs: Seq<Seq<Token>>,
    k: int,
    value: T,
)
    requires
        0 <= k <= vs.len(),
        spec_insert_all(n, vs.take(k), value).1,
    ensures
        spec_insert_all(n, vs, value).0 == spec_insert_all(
            spec_insert_all(n, vs.take(k), value).0,
            vs.skip(k),
            value,
        ).0,
        spec_insert_all(n, vs, value).1 == spec_insert_all(
            spec_insert_all(n, vs.take(k), value).0,
            vs.skip(k),
            value,
        ).1,
    decreases k,
{
    if k == 0 {
        assert(vs.take(0) =~= Seq::<Seq<Token>>::empty());
        assert(vs.skip(0) =~= vs);
    } else {
        let r0 = spec_insert(n, vs[0], value);
        assert(vs.take(k)[0] == vs[0]);
        assert(vs.take(k).drop_first() =~= vs.drop_first().take(k - 1));
        assert(vs.skip(k) =~= vs.drop_first().skip(k - 1));
        lemma_insert_all_split(r0.0, vs.drop_first(), k - 1, value);
    }
}

/// `after` is `before` with its tag absorbed into `spec_merge` with `nt`
/// and nothing else changed.
pub open spec fn merged_into<T>(before: NodeView<T>, nt: NodeType, after: NodeView<T>) -> bool {
    &&& after.node_type == spec_merge(before.node_type, nt)
    &&& after.children =~= before.children
    &&& after.value == before.value
}

/// `n` is a fresh state with tag `nt`: no children, no value.
pub open spec fn fresh_node<T>(nt: NodeType, n: NodeView<T>) -> bool {
    &&& n.node_type == nt
    &&& n.children =~= Seq::empty()
    &&& n.value is None
}

/// `after` is `before` with child `i` replaced by `c`.
pub open spec fn child_updated<T>(before: NodeView<T>, i: int, c: NodeView<T>, after: NodeView<T>) -> bool {
    &&& after.node_type == before.node_type
    &&& after.value == before.value
    &&& after.children =~= before.children.update(i, c)
}

/// `after` is `before` with `c` appended to its children.
pub open spec fn child_appended<T>(before: NodeView<T>, c: NodeView<T>, after: NodeView<T>) -> bool {
    &&& after.node_type == before.node_type
    &&& after.value == before.value
    &&& after.children =~= before.children.push(c)
}

/// What `chi_from` promises: the returned index is the first accepting
/// child at or after `i`.
pub proof fn lemma_chi_first<T>(n: NodeView<T>, digit: u8, i: int)
    requires
        0 <= i <= n.children.len(),
    ensures
        match n.chi_from(digit, i) {
            Some(k) => i <= k < n.children.len() && n.children[k].can_handle(digit) && forall|
                j: int,
            |
                i <= j < k ==> !n.children[j].can_handle(digit),
            None => forall|j: int| i <= j < n.children.len() ==> !n.children[j].can_handle(digit),
        },
    decreases n.children.len() - i,
{
    if i < n.children.len() && !n.children[i].can_handle(digit) {
        lemma_chi_first(n, digit, i + 1);
    }
}

} // verus!
