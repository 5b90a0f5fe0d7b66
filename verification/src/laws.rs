//! Laws of the registry.
//!
//! A pattern without `*` or `+` compiles to sequences of single-occurrence
//! tokens, and an automaton built only from such sequences holds no
//! repeatable states: it is a plain trie.  Over such automata the
//! registry behaves like a map keyed by the expansion strings, and this
//! module proves it: a successful registration makes every expansion
//! retrievable ([`lemma_round_trip`]), registering the same pattern and
//! value again succeeds and keeps every expansion retrievable
//! ([`lemma_add_idempotent`]), and a second pattern sharing an expansion
//! with a first one under a different value is rejected
//! ([`lemma_conflict`]).
//!
//! Two idempotence results hold of arbitrary automata, repeatable states
//! included: re-inserting a just-inserted token sequence succeeds and
//! changes nothing ([`lemma_insert_idempotent`]), and on an automaton
//! whose stored values all equal the one being registered — a fresh
//! automaton in particular — any pattern registers successfully twice
//! over ([`lemma_add_twice_uniform`]).

use vstd::prelude::*;

use vstd::std_specs::cmp::PartialEqSpec;

use crate::digits::{digits_of, spec_digit_of};
use crate::error::MapError;
use crate::model::{lemma_chi_first, spec_insert, spec_insert_all, spec_query, NodeView};
use crate::node::{spec_node_type_of, NodeType};
use crate::tokenizer::{Token, TokenKind};

verus! {

/// A tree with no repeatable states anywhere.
pub open spec fn exact_only<T>(n: NodeView<T>) -> bool
    decreases n,
{
    &&& !(n.node_type is Repeatable)
    &&& forall|i: int| 0 <= i < n.children.len() ==> exact_only(#[trigger] n.children[i])
}

/// A token sequence made of single-occurrence tokens only.
pub open spec fn singles_only(s: Seq<Token>) -> bool {
    forall|i: int| 0 <= i < s.len() ==> (#[trigger] s[i]).kind == TokenKind::Single
}

/// A collection of token sequences made of single-occurrence tokens only.
pub open spec fn all_singles(vs: Seq<Seq<Token>>) -> bool {
    forall|k: int| 0 <= k < vs.len() ==> singles_only(#[trigger] vs[k])
}

/// The digit string a token sequence spells.
pub open spec fn token_digits(s: Seq<Token>) -> Seq<u8> {
    Seq::new(s.len(), |i: int| s[i].digit)
}

/// The value stored at the end of the walk for `ds`, when the walk
/// completes and the state it ends in stores one.
pub open spec fn tvalue<T>(n: NodeView<T>, ds: Seq<u8>) -> Option<T> {
    match n.walk(ds) {
        Some(m) => m.value,
        None => None,
    }
}

/// A state that is not repeatable accepts exactly the digit of an exact
/// tag.
proof fn lemma_exact_can_handle<T>(c: NodeView<T>, e: u8)
    requires
        !(c.node_type is Repeatable),
    ensures
        c.can_handle(e) == (c.node_type == NodeType::Exact(e)),
{
}

/// Two states whose children accept the same digits pick the same first
/// child.
proof fn lemma_chi_congruence<T>(a: NodeView<T>, b: NodeView<T>, e: u8, i: int)
    requires
        a.children.len() == b.children.len(),
        forall|j: int| 0 <= j < a.children.len() ==> a.children[j].can_handle(e) == #[trigger] b.children[j].can_handle(e),
    ensures
        a.chi_from(e, i) == b.chi_from(e, i),
    decreases a.children.len() - i,
{
    if 0 <= i < a.children.len() {
        lemma_chi_congruence(a, b, e, i + 1);
    }
}

/// Appending a child leaves the first pick unchanged where one existed,
/// and otherwise picks the new child exactly when it accepts the digit.
proof fn lemma_chi_append<T>(a: NodeView<T>, b: NodeView<T>, c: NodeView<T>, e: u8, i: int)
    requires
        b.children == a.children.push(c),
        0 <= i,
    ensures
        b.chi_from(e, i) == (match a.chi_from(e, i) {
            Some(j) => Some(j),
            None => if i <= a.children.len() && c.can_handle(e) {
                Some(a.children.len() as int)
            } else {
                None
            },
        }),
    decreases a.children.len() + 1 - i,
{
    if i < a.children.len() {
        assert(b.children[i] == a.children[i]);
        lemma_chi_append(a, b, c, e, i + 1);
    } else if i == a.children.len() {
        assert(b.children[i] == c);
        assert(b.chi_from(e, i + 1) is None);
    }
}

/// A state with no children stores nothing anywhere below it except,
/// possibly, in itself.
proof fn lemma_leaf_tvalue<T>(n: NodeView<T>, ds: Seq<u8>)
    requires
        n.children.len() == 0,
        !(n.node_type is Repeatable),
    ensures
        tvalue(n, ds) == if ds.len() == 0 { n.value } else { None::<T> },
{
    if ds.len() > 0 {
        assert(n.chi_from(ds[0], 0) is None);
    }
}

/// The digit string `ds` is bound, in `n`, to `value` itself or to a
/// stored value equal to it.
pub open spec fn bound_to<T: PartialEq>(n: NodeView<T>, ds: Seq<u8>, value: T) -> bool {
    match tvalue(n, ds) {
        Some(w) => w == value || w.eq_spec(&value),
        None => false,
    }
}

/// A query made of digit characters only returns exactly the binding of
/// its digit string: the automaton walk and the stored-value reading
/// agree.
pub proof fn lemma_query_digits<T>(n: NodeView<T>, cs: Seq<char>)
    requires
        forall|k: int| 0 <= k < cs.len() ==> spec_digit_of(#[trigger] cs[k]) is Some,
    ensures
        spec_query(n, cs) == Ok::<Option<T>, MapError>(tvalue(n, digits_of(cs))),
    decreases cs.len(),
{
    if cs.len() > 0 {
        let d = spec_digit_of(cs[0]).unwrap();
        assert(digits_of(cs)[0] == d);
        match n.get_step(d) {
            Some(n2) => {
                assert forall|k: int| 0 <= k < cs.drop_first().len() implies spec_digit_of(
                    #[trigger] cs.drop_first()[k],
                ) is Some by {
                    assert(cs.drop_first()[k] == cs[k + 1]);
                }
                lemma_query_digits(n2, cs.drop_first());
                assert(digits_of(cs).drop_first() =~= digits_of(cs.drop_first()));
            },
            None => {
            },
        }
    }
}

/// Insertion never changes the tag of the state it starts from.
proof fn lemma_insert_tag<T: PartialEq>(n: NodeView<T>, s: Seq<Token>, value: T)
    ensures
        spec_insert(n, s, value).0.node_type == n.node_type,
    decreases s.len(),
{
    if s.len() > 0 && n.node_type == NodeType::Repeatable(s[0].digit) {
        lemma_insert_tag(n, s.drop_first(), value);
    }
}

/// Insertion only ever widens what a state accepts.
proof fn lemma_can_handle_monotone<T: PartialEq>(n: NodeView<T>, s: Seq<Token>, value: T, e: u8)
    requires
        n.can_handle(e),
    ensures
        spec_insert(n, s, value).0.can_handle(e),
    decreases s.len(),
{
    let r = spec_insert(n, s, value);
    if s.len() == 0 {
        assert(r.0.children == n.children);
    } else {
        let t = s[0];
        let d = t.digit;
        let nt = spec_node_type_of(t);
        let rest = s.drop_first();
        if n.node_type == NodeType::Repeatable(d) {
            lemma_can_handle_monotone(n, rest, value, e);
        } else {
            match n.chi(d) {
                Some(i0) => {
                    lemma_chi_first(n, d, 0);
                    let child = n.children[i0];
                    let c1 = NodeView {
                        node_type: crate::node::spec_merge(child.node_type, nt),
                        ..child
                    };
                    match n.node_type {
                        NodeType::Root => {
                            assert(false);
                        },
                        NodeType::Exact(_) => {
                        },
                        NodeType::Repeatable(x) => {
                            if x != e {
                                let j = choose|j: int|
                                    0 <= j < n.children.len() && n.children[j].can_handle(e);
                                if j == i0 {
                                    assert(c1.can_handle(e)) by {
                                        if child.node_type is Repeatable {
                                            assert(c1.children == child.children);
                                        }
                                    }
                                    lemma_can_handle_monotone(c1, rest, value, e);
                                    assert(r.0.children[i0].can_handle(e));
                                } else {
                                    assert(r.0.children[j] == n.children[j]);
                                    assert(r.0.children[j].can_handle(e));
                                }
                            }
                        },
                    }
                },
                None => {
                    if n.node_type matches NodeType::Repeatable(x) && !(n.node_type
                        == NodeType::Repeatable(e)) {
                        let j = choose|j: int|
                            0 <= j < n.children.len() && n.children[j].can_handle(e);
                        assert(r.0.children[j] == n.children[j]);
                        assert(r.0.children[j].can_handle(e));
                    }
                },
            }
        }
    }
}

/// Where a first accepting child exists, `chi` finds it.
proof fn lemma_chi_found<T>(b: NodeView<T>, e: u8, i0: int, i: int)
    requires
        0 <= i <= i0 < b.children.len(),
        b.children[i0].can_handle(e),
        forall|j: int| i <= j < i0 ==> !(#[trigger] b.children[j].can_handle(e)),
    ensures
        b.chi_from(e, i) == Some(i0),
    decreases i0 - i,
{
    if i < i0 {
        lemma_chi_found(b, e, i0, i + 1);
    }
}

/// Idempotence of one insertion: re-inserting a just-inserted token
/// sequence with the same value succeeds and leaves the automaton
/// untouched, whatever else the automaton holds.  This covers registering
/// a single-expansion pattern twice in a row on any automaton.
pub proof fn lemma_insert_idempotent<T: PartialEq>(n: NodeView<T>, s: Seq<Token>, value: T)
    requires
        value.eq_spec(&value),
        spec_insert(n, s, value).1,
    ensures
        spec_insert(spec_insert(n, s, value).0, s, value).0 == spec_insert(n, s, value).0,
        spec_insert(spec_insert(n, s, value).0, s, value).1,
    decreases s.len(),
{
    let n1 = spec_insert(n, s, value).0;
    if s.len() == 0 {
        match n.value {
            None => {
                assert(spec_insert(n1, s, value).0 =~= n1);
            },
            Some(w) => {
            },
        }
    } else {
        let t = s[0];
        let d = t.digit;
        let nt = spec_node_type_of(t);
        let rest = s.drop_first();
        if n.node_type == NodeType::Repeatable(d) {
            lemma_insert_tag(n, rest, value);
            lemma_insert_idempotent(n, rest, value);
        } else {
            lemma_insert_tag(n, s, value);
            match n.chi(d) {
                Some(i0) => {
                    lemma_chi_first(n, d, 0);
                    let child = n.children[i0];
                    let c1 = NodeView {
                        node_type: crate::node::spec_merge(child.node_type, nt),
                        ..child
                    };
                    let c2 = spec_insert(c1, rest, value).0;
                    assert(n1.children == n.children.update(i0, c2));
                    assert(c1.can_handle(d)) by {
                        if child.node_type is Repeatable {
                            assert(c1.children == child.children);
                        }
                    }
                    lemma_can_handle_monotone(c1, rest, value, d);
                    assert(n1.children[i0].can_handle(d));
                    lemma_chi_found(n1, d, i0, 0);
                    assert(n1.chi(d) == Some(i0));
                    lemma_insert_tag(c1, rest, value);
                    let c3 = NodeView {
                        node_type: crate::node::spec_merge(c2.node_type, nt),
                        ..c2
                    };
                    assert(c3 =~= c2);
                    lemma_insert_idempotent(c1, rest, value);
                    assert(n1.children.update(i0, c2) =~= n1.children);
                    assert(spec_insert(n1, s, value).0 =~= n1);
                },
                None => {
                    lemma_chi_first(n, d, 0);
                    let c1 = NodeView::<T> {
                        node_type: nt,
                        children: Seq::empty(),
                        value: None,
                    };
                    let c2 = spec_insert(c1, rest, value).0;
                    assert(n1.children == n.children.push(c2));
                    lemma_insert_tag(c1, rest, value);
                    assert(c2.can_handle(d));
                    lemma_chi_append(n, n1, c2, d, 0);
                    assert(n1.chi(d) == Some(n.children.len() as int));
                    let c3 = NodeView {
                        node_type: crate::node::spec_merge(c2.node_type, nt),
                        ..c2
                    };
                    assert(c3 =~= c2);
                    lemma_insert_idempotent(c1, rest, value);
                    assert(n1.children[n.children.len() as int] == c2);
                    assert(n1.children.update(n.children.len() as int, c2) =~= n1.children);
                    assert(spec_insert(n1, s, value).0 =~= n1);
                },
            }
        }
    }
}

/// Every value stored anywhere in the tree is `value` itself or equal to
/// it.  This holds of a fresh automaton (vacuously) and is kept by every
/// registration that carries `value`.
pub open spec fn all_values<T: PartialEq>(n: NodeView<T>, value: T) -> bool
    decreases n,
{
    &&& (match n.value {
        Some(w) => w == value || w.eq_spec(&value),
        None => true,
    })
    &&& forall|i: int| 0 <= i < n.children.len() ==> all_values(#[trigger] n.children[i], value)
}

/// Inserting a sequence into a tree whose values all equal the inserted
/// value succeeds, and keeps all values equal to it.
proof fn lemma_insert_uniform<T: PartialEq>(n: NodeView<T>, s: Seq<Token>, value: T)
    requires
        all_values(n, value),
        value.eq_spec(&value),
    ensures
        spec_insert(n, s, value).1,
        all_values(spec_insert(n, s, value).0, value),
    decreases s.len(),
{
    let r = spec_insert(n, s, value);
    if s.len() == 0 {
        if n.value is None {
            assert(all_values(r.0, value)) by {
                assert forall|i: int| 0 <= i < r.0.children.len() implies all_values(
                    #[trigger] r.0.children[i],
                    value,
                ) by {
                    assert(all_values(n.children[i], value));
                }
            }
        }
    } else {
        let t = s[0];
        let d = t.digit;
        let nt = spec_node_type_of(t);
        let rest = s.drop_first();
        if n.node_type == NodeType::Repeatable(d) {
            lemma_insert_uniform(n, rest, value);
        } else {
            match n.chi(d) {
                Some(i0) => {
                    lemma_chi_first(n, d, 0);
                    let child = n.children[i0];
                    assert(all_values(child, value));
                    let c1 = NodeView {
                        node_type: crate::node::spec_merge(child.node_type, nt),
                        ..child
                    };
                    assert(all_values(c1, value)) by {
                        assert forall|i: int| 0 <= i < c1.children.len() implies all_values(
                            #[trigger] c1.children[i],
                            value,
                        ) by {
                            assert(all_values(child.children[i], value));
                        }
                    }
                    lemma_insert_uniform(c1, rest, value);
                    assert(all_values(r.0, value)) by {
                        assert forall|i: int| 0 <= i < r.0.children.len() implies all_values(
                            #[trigger] r.0.children[i],
                            value,
                        ) by {
                            if i != i0 {
                                assert(r.0.children[i] == n.children[i]);
                                assert(all_values(n.children[i], value));
                            }
                        }
                    }
                },
                None => {
                    let c1 = NodeView::<T> {
                        node_type: nt,
                        children: Seq::empty(),
                        value: None,
                    };
                    lemma_insert_uniform(c1, rest, value);
                    assert(all_values(r.0, value)) by {
                        assert forall|i: int| 0 <= i < r.0.children.len() implies all_values(
                            #[trigger] r.0.children[i],
                            value,
                        ) by {
                            if i < n.children.len() {
                                assert(r.0.children[i] == n.children[i]);
                                assert(all_values(n.children[i], value));
                            }
                        }
                    }
                },
            }
        }
    }
}

/// Idempotence of whole registrations on a uniformly-valued automaton: on
/// a fresh automaton, or more generally one whose stored values all equal
/// `value`, registering any pattern with `value` succeeds, a second
/// registration of the same pattern succeeds as well, and all values
/// still equal `value`.
pub proof fn lemma_add_twice_uniform<T: PartialEq>(n: NodeView<T>, vs: Seq<Seq<Token>>, value: T)
    requires
        all_values(n, value),
        value.eq_spec(&value),
    ensures
        spec_insert_all(n, vs, value).1,
        spec_insert_all(spec_insert_all(n, vs, value).0, vs, value).1,
        all_values(spec_insert_all(spec_insert_all(n, vs, value).0, vs, value).0, value),
{
    lemma_insert_all_uniform(n, vs, value);
    lemma_insert_all_uniform(spec_insert_all(n, vs, value).0, vs, value);
}

/// `lemma_insert_uniform`, sequence by sequence over a whole expansion.
proof fn lemma_insert_all_uniform<T: PartialEq>(n: NodeView<T>, vs: Seq<Seq<Token>>, value: T)
    requires
        all_values(n, value),
        value.eq_spec(&value),
    ensures
        spec_insert_all(n, vs, value).1,
        all_values(spec_insert_all(n, vs, value).0, value),
    decreases vs.len(),
{
    if vs.len() > 0 {
        lemma_insert_uniform(n, vs[0], value);
        lemma_insert_all_uniform(spec_insert(n, vs[0], value).0, vs.drop_first(), value);
    }
}

/// How one single-occurrence token sequence lands in a trie-shaped
/// automaton: the tree stays trie-shaped and keeps its tag, the insertion
/// succeeds exactly when the sequence's digit string is still unbound or
/// bound to an equal value, the digit string ends up bound, and every
/// other digit string keeps its binding.
pub proof fn lemma_exact_insert<T: PartialEq>(n: NodeView<T>, s: Seq<Token>, value: T)
    requires
        exact_only(n),
        singles_only(s),
    ensures
        exact_only(spec_insert(n, s, value).0),
        spec_insert(n, s, value).0.node_type == n.node_type,
        spec_insert(n, s, value).1 == (match tvalue(n, token_digits(s)) {
            None => true,
            Some(w) => w.eq_spec(&value),
        }),
        tvalue(spec_insert(n, s, value).0, token_digits(s)) == (match tvalue(
            n,
            token_digits(s),
        ) {
            None => Some(value),
            Some(w) => Some(w),
        }),
        forall|t: Seq<u8>|
            t != token_digits(s) ==> tvalue(spec_insert(n, s, value).0, t) == tvalue(n, t),
    decreases s.len(),
{
    let r = spec_insert(n, s, value);
    let ds = token_digits(s);
    if s.len() == 0 {
        assert(ds =~= Seq::<u8>::empty());
        if n.value is None {
            assert(r.0.children == n.children);
            assert(exact_only(r.0)) by {
                assert forall|i: int| 0 <= i < r.0.children.len() implies exact_only(
                    #[trigger] r.0.children[i],
                ) by {
                    assert(exact_only(n.children[i]));
                }
            }
            assert forall|t: Seq<u8>| t != ds implies tvalue(r.0, t) == tvalue(n, t) by {
                if t.len() == 0 {
                    assert(t =~= ds);
                } else {
                    let e = t[0];
                    assert forall|j: int| 0 <= j < n.children.len() implies r.0.children[j].can_handle(e)
                        == #[trigger] n.children[j].can_handle(e) by {
                        assert(r.0.children[j] == n.children[j]);
                    }
                    lemma_chi_congruence(r.0, n, e, 0);
                }
            }
        }
    } else {
        let t0 = s[0];
        let d = t0.digit;
        let rest = s.drop_first();
        let dsr = token_digits(rest);
        assert(t0.kind == TokenKind::Single);
        assert(singles_only(rest)) by {
            assert forall|i: int| 0 <= i < rest.len() implies (#[trigger] rest[i]).kind
                == TokenKind::Single by {
                assert(rest[i] == s[i + 1]);
            }
        }
        let nt = spec_node_type_of(t0);
        assert(nt == NodeType::Exact(d));
        assert(ds[0] == d);
        assert(ds.drop_first() =~= dsr);
        assert(!(n.node_type is Repeatable));
        lemma_chi_first(n, d, 0);
        match n.chi(d) {
            Some(i0) => {
                let child = n.children[i0];
                assert(exact_only(child));
                lemma_exact_can_handle(child, d);
                assert(child.node_type == NodeType::Exact(d));
                let c1 = NodeView { node_type: crate::node::spec_merge(child.node_type, nt), ..child };
                assert(c1 =~= child);
                lemma_exact_insert(child, rest, value);
                let rr = spec_insert(child, rest, value);
                assert(r.0.children == n.children.update(i0, rr.0));
                assert(r.1 == rr.1);
                assert(exact_only(r.0)) by {
                    assert forall|i: int| 0 <= i < r.0.children.len() implies exact_only(
                        #[trigger] r.0.children[i],
                    ) by {
                        if i != i0 {
                            assert(r.0.children[i] == n.children[i]);
                            assert(exact_only(n.children[i]));
                        }
                    }
                }
                assert(n.get_step(d) == Some(child));
                assert(tvalue(n, ds) == tvalue(child, dsr));
                assert forall|j: int| 0 <= j < n.children.len() implies r.0.children[j].can_handle(d)
                    == #[trigger] n.children[j].can_handle(d) by {
                    if j == i0 {
                        lemma_exact_can_handle(rr.0, d);
                    } else {
                        assert(r.0.children[j] == n.children[j]);
                    }
                }
                lemma_chi_congruence(r.0, n, d, 0);
                assert(r.0.get_step(d) == Some(rr.0));
                assert(tvalue(r.0, ds) == tvalue(rr.0, dsr));
                assert forall|t: Seq<u8>| t != ds implies tvalue(r.0, t) == tvalue(n, t) by {
                    if t.len() == 0 {
                    } else {
                        let e = t[0];
                        let t1 = t.drop_first();
                        assert forall|j: int| 0 <= j < n.children.len() implies r.0.children[j].can_handle(
                            e,
                        ) == #[trigger] n.children[j].can_handle(e) by {
                            if j == i0 {
                                lemma_exact_can_handle(rr.0, e);
                                lemma_exact_can_handle(child, e);
                            } else {
                                assert(r.0.children[j] == n.children[j]);
                            }
                        }
                        lemma_chi_congruence(r.0, n, e, 0);
                        match n.chi(e) {
                            Some(j) => {
                                lemma_chi_first(n, e, 0);
                                if j == i0 {
                                    lemma_exact_can_handle(child, e);
                                    assert(e == d);
                                    if t1 == dsr {
                                        assert forall|k: int| 0 <= k < t.len() implies t[k] == ds[k] by {
                                            if k > 0 {
                                                assert(t[k] == t1[k - 1]);
                                                assert(ds[k] == dsr[k - 1]);
                                            }
                                        }
                                        assert(t =~= ds);
                                    }
                                    assert(tvalue(r.0, t) == tvalue(rr.0, t1));
                                    assert(tvalue(n, t) == tvalue(child, t1));
                                } else {
                                    assert(r.0.children[j] == n.children[j]);
                                    assert(tvalue(r.0, t) == tvalue(n.children[j], t1));
                                    assert(tvalue(n, t) == tvalue(n.children[j], t1));
                                }
                            },
                            None => {
                                assert(r.0.get_step(e) is None);
                                assert(n.get_step(e) is None);
                            },
                        }
                    }
                }
            },
            None => {
                let c1 = NodeView::<T> {
                    node_type: nt,
                    children: Seq::empty(),
                    value: None,
                };
                lemma_exact_insert(c1, rest, value);
                let rr = spec_insert(c1, rest, value);
                assert(r.0.children == n.children.push(rr.0));
                assert(r.1 == rr.1);
                assert(n.get_step(d) is None);
                assert(tvalue(n, ds) is None);
                lemma_leaf_tvalue(c1, dsr);
                assert(rr.1);
                assert(exact_only(r.0)) by {
                    assert forall|i: int| 0 <= i < r.0.children.len() implies exact_only(
                        #[trigger] r.0.children[i],
                    ) by {
                        if i < n.children.len() {
                            assert(r.0.children[i] == n.children[i]);
                            assert(exact_only(n.children[i]));
                        } else {
                            assert(r.0.children[i] == rr.0);
                        }
                    }
                }
                lemma_chi_append(n, r.0, rr.0, d, 0);
                lemma_exact_can_handle(rr.0, d);
                assert(r.0.chi(d) == Some(n.children.len() as int));
                assert(r.0.get_step(d) == Some(rr.0));
                assert(tvalue(r.0, ds) == tvalue(rr.0, dsr));
                assert(tvalue(r.0, ds) == Some(value));
                assert forall|t: Seq<u8>| t != ds implies tvalue(r.0, t) == tvalue(n, t) by {
                    if t.len() == 0 {
                    } else {
                        let e = t[0];
                        let t1 = t.drop_first();
                        lemma_chi_append(n, r.0, rr.0, e, 0);
                        lemma_exact_can_handle(rr.0, e);
                        match n.chi(e) {
                            Some(j) => {
                                lemma_chi_first(n, e, 0);
                                assert(r.0.chi(e) == Some(j));
                                assert(r.0.children[j] == n.children[j]);
                                assert(tvalue(r.0, t) == tvalue(n.children[j], t1));
                                assert(tvalue(n, t) == tvalue(n.children[j], t1));
                            },
                            None => {
                                assert(n.get_step(e) is None);
                                if e == d {
                                    if t1 == dsr {
                                        assert forall|k: int| 0 <= k < t.len() implies t[k] == ds[k] by {
                                            if k > 0 {
                                                assert(t[k] == t1[k - 1]);
                                                assert(ds[k] == dsr[k - 1]);
                                            }
                                        }
                                        assert(t =~= ds);
                                    }
                                    assert(r.0.chi(e) == Some(n.children.len() as int));
                                    assert(tvalue(r.0, t) == tvalue(rr.0, t1));
                                    lemma_leaf_tvalue(c1, t1);
                                } else {
                                    assert(r.0.chi(e) is None);
                                    assert(r.0.get_step(e) is None);
                                }
                            },
                        }
                    }
                }
            },
        }
    }
}

/// How a whole registration lands in a trie-shaped automaton: the tree
/// stays trie-shaped, every binding either survives unchanged or becomes
/// the registered value, digit strings that are no expansion of the
/// pattern keep their bindings, and on success every expansion ends up
/// bound to the registered value or to an equal stored one.
pub proof fn lemma_exact_insert_all<T: PartialEq>(n: NodeView<T>, vs: Seq<Seq<Token>>, value: T)
    requires
        exact_only(n),
        all_singles(vs),
    ensures
        exact_only(spec_insert_all(n, vs, value).0),
        spec_insert_all(n, vs, value).0.node_type == n.node_type,
        forall|t: Seq<u8>|
            #![trigger tvalue(spec_insert_all(n, vs, value).0, t)]
            tvalue(spec_insert_all(n, vs, value).0, t) == tvalue(n, t) || tvalue(
                spec_insert_all(n, vs, value).0,
                t,
            ) == Some(value),
        forall|t: Seq<u8>|
            #![trigger tvalue(spec_insert_all(n, vs, value).0, t)]
            (forall|k: int| 0 <= k < vs.len() ==> t != token_digits(#[trigger] vs[k])) ==> tvalue(
                spec_insert_all(n, vs, value).0,
                t,
            ) == tvalue(n, t),
        spec_insert_all(n, vs, value).1 ==> forall|k: int|
            0 <= k < vs.len() ==> bound_to(
                spec_insert_all(n, vs, value).0,
                token_digits(#[trigger] vs[k]),
                value,
            ),
    decreases vs.len(),
{
    if vs.len() > 0 {
        let s0 = vs[0];
        assert(singles_only(s0));
        lemma_exact_insert(n, s0, value);
        let r0 = spec_insert(n, s0, value);
        let ds0 = token_digits(s0);
        assert forall|k: int| 0 <= k < vs.drop_first().len() implies singles_only(
            #[trigger] vs.drop_first()[k],
        ) by {
            assert(vs.drop_first()[k] == vs[k + 1]);
        }
        lemma_exact_insert_all(r0.0, vs.drop_first(), value);
        let fin = spec_insert_all(n, vs, value);
        if r0.1 {
            assert(fin == spec_insert_all(r0.0, vs.drop_first(), value));
            assert(bound_to(r0.0, ds0, value));
            if fin.1 {
                assert forall|k: int| 0 <= k < vs.len() implies bound_to(
                    fin.0,
                    token_digits(#[trigger] vs[k]),
                    value,
                ) by {
                    if k == 0 {
                        assert(tvalue(fin.0, ds0) == tvalue(r0.0, ds0) || tvalue(fin.0, ds0)
                            == Some(value));
                    } else {
                        assert(vs.drop_first()[k - 1] == vs[k]);
                    }
                }
            }
            assert forall|t: Seq<u8>|
                (forall|k: int| 0 <= k < vs.len() ==> t != token_digits(#[trigger] vs[k])) implies tvalue(
                fin.0,
                t,
            ) == tvalue(n, t) by {
                assert(t != token_digits(vs[0]));
                assert forall|k: int| 0 <= k < vs.drop_first().len() implies t != token_digits(
                    #[trigger] vs.drop_first()[k],
                ) by {
                    assert(vs.drop_first()[k] == vs[k + 1]);
                }
            }
        }
    }
}

/// Registering again when every expansion is already suitably bound
/// succeeds, and every suitable binding anywhere survives.
proof fn lemma_insert_all_bound<T: PartialEq>(n: NodeView<T>, vs: Seq<Seq<Token>>, value: T)
    requires
        exact_only(n),
        all_singles(vs),
        value.eq_spec(&value),
        forall|k: int| 0 <= k < vs.len() ==> bound_to(n, token_digits(#[trigger] vs[k]), value),
    ensures
        spec_insert_all(n, vs, value).1,
        forall|t: Seq<u8>|
            bound_to(n, t, value) ==> bound_to(#[trigger] spec_insert_all(n, vs, value).0, t, value),
    decreases vs.len(),
{
    if vs.len() > 0 {
        let s0 = vs[0];
        let ds0 = token_digits(s0);
        assert(singles_only(s0));
        assert(bound_to(n, ds0, value));
        lemma_exact_insert(n, s0, value);
        let r0 = spec_insert(n, s0, value);
        assert(r0.1);
        assert forall|t: Seq<u8>| bound_to(n, t, value) implies bound_to(r0.0, t, value) by {
            if t != ds0 {
                assert(tvalue(r0.0, t) == tvalue(n, t));
            }
        }
        assert forall|k: int| 0 <= k < vs.drop_first().len() implies singles_only(
            #[trigger] vs.drop_first()[k],
        ) && bound_to(r0.0, token_digits(vs.drop_first()[k]), value) by {
            assert(vs.drop_first()[k] == vs[k + 1]);
        }
        lemma_insert_all_bound(r0.0, vs.drop_first(), value);
    }
}

/// Round trip: when registering a quantifier-free pattern on a
/// trie-shaped automaton succeeds, every expansion of the pattern is
/// afterwards bound to the registered value, or to an equal value that an
/// earlier registration had already stored there.
pub proof fn lemma_round_trip<T: PartialEq>(n: NodeView<T>, vs: Seq<Seq<Token>>, value: T)
    requires
        exact_only(n),
        all_singles(vs),
        spec_insert_all(n, vs, value).1,
    ensures
        forall|k: int|
            0 <= k < vs.len() ==> bound_to(
                spec_insert_all(n, vs, value).0,
                token_digits(#[trigger] vs[k]),
                value,
            ),
{
    lemma_exact_insert_all(n, vs, value);
}

/// Idempotence: when registering a quantifier-free pattern on a
/// trie-shaped automaton succeeds, registering the same pattern with the
/// same value succeeds again, and every expansion stays bound to the
/// value.
pub proof fn lemma_add_idempotent<T: PartialEq>(n: NodeView<T>, vs: Seq<Seq<Token>>, value: T)
    requires
        exact_only(n),
        all_singles(vs),
        value.eq_spec(&value),
        spec_insert_all(n, vs, value).1,
    ensures
        spec_insert_all(spec_insert_all(n, vs, value).0, vs, value).1,
        forall|k: int|
            0 <= k < vs.len() ==> bound_to(
                spec_insert_all(spec_insert_all(n, vs, value).0, vs, value).0,
                token_digits(#[trigger] vs[k]),
                value,
            ),
{
    lemma_exact_insert_all(n, vs, value);
    let n1 = spec_insert_all(n, vs, value).0;
    lemma_insert_all_bound(n1, vs, value);
}

/// Conflict: when two quantifier-free patterns share an expansion and the
/// second carries a value that equals none of the values the first could
/// have stored there, registering the second after the first fails.
pub proof fn lemma_conflict<T: PartialEq>(
    n: NodeView<T>,
    vs1: Seq<Seq<Token>>,
    v1: T,
    vs2: Seq<Seq<Token>>,
    v2: T,
    k1: int,
    k2: int,
)
    requires
        exact_only(n),
        all_singles(vs1),
        all_singles(vs2),
        spec_insert_all(n, vs1, v1).1,
        0 <= k1 < vs1.len(),
        0 <= k2 < vs2.len(),
        token_digits(vs1[k1]) == token_digits(vs2[k2]),
        forall|w: T| #![trigger w.eq_spec(&v2)] (w == v1 || w.eq_spec(&v1)) ==> !w.eq_spec(&v2),
    ensures
        !spec_insert_all(spec_insert_all(n, vs1, v1).0, vs2, v2).1,
{
    lemma_exact_insert_all(n, vs1, v1);
    let n1 = spec_insert_all(n, vs1, v1).0;
    assert(bound_to(n1, token_digits(vs1[k1]), v1));
    lemma_insert_all_conflict(n1, vs2, v2, v1, k2);
}

/// Processing the sequences of the later pattern cannot get past one
/// whose digit string is bound to a value the new value does not equal.
proof fn lemma_insert_all_conflict<T: PartialEq>(
    n: NodeView<T>,
    vs: Seq<Seq<Token>>,
    v2: T,
    v1: T,
    k: int,
)
    requires
        exact_only(n),
        all_singles(vs),
        0 <= k < vs.len(),
        bound_to(n, token_digits(vs[k]), v1),
        forall|w: T| #![trigger w.eq_spec(&v2)] (w == v1 || w.eq_spec(&v1)) ==> !w.eq_spec(&v2),
    ensures
        !spec_insert_all(n, vs, v2).1,
    decreases vs.len(),
{
    let s0 = vs[0];
    let ds0 = token_digits(s0);
    let dstar = token_digits(vs[k]);
    assert(singles_only(s0));
    lemma_exact_insert(n, s0, v2);
    let r0 = spec_insert(n, s0, v2);
    if k == 0 {
        assert(!r0.1);
    } else if r0.1 {
        if ds0 == dstar {
            assert(!r0.1);
        }
        assert(tvalue(r0.0, dstar) == tvalue(n, dstar));
        assert forall|j: int| 0 <= j < vs.drop_first().len() implies singles_only(
            #[trigger] vs.drop_first()[j],
        ) by {
            assert(vs.drop_first()[j] == vs[j + 1]);
        }
        assert(vs.drop_first()[k - 1] == vs[k]);
        lemma_insert_all_conflict(r0.0, vs.drop_first(), v2, v1, k - 1);
    }
}

} // verus!
