//! The matcher: registers patterns, expanding each into its token
//! sequences and absorbing every sequence into one shared automaton, and
//! evaluates concrete digit strings against that automaton.

use vstd::prelude::*;

use vstd::std_specs::cmp::PartialEqSpec;

use crate::digits::digit_of;
use crate::error::{MapError, RegisterError};
use crate::model::{
    lemma_insert_all_split, lemma_insert_all_step, spec_insert, spec_insert_all, spec_query,
    NodeView,
};
use crate::node::{Node, NodeType};
use crate::tokenizer::{spec_parse, Token, Tokens};

verus! {

broadcast use crate::model::lemma_node_view;

/// Inserts the tokens of one sequence, from position `i` on, below
/// `node`, and settles the terminal state's value: stores `value` when
/// nothing is stored yet, accepts an equal stored value, and reports a
/// conflict otherwise.
fn insert_seq<T: Copy + PartialEq>(
    node: &mut Node<T>,
    tokens: &Vec<Token>,
    i: usize,
    value: T,
) -> (ok: bool)
    requires
        i <= tokens@.len(),
    ensures
        T::obeys_eq_spec() ==> ({
            let r = spec_insert(old(node)@, tokens@.skip(i as int), value);
            &&& ok == r.1
            &&& final(node)@ == r.0
        }),
    decreases tokens@.len() - i,
{
    if i == tokens.len() {
        proof {
            assert(tokens@.skip(i as int).len() == 0);
        }
        if node.get_value().is_none() {
            node.set_value(value);
            true
        } else {
            match node.get_value() {
                Some(w) => *w == value,
                None => true,
            }
        }
    } else {
        let t = tokens[i];
        let nt = NodeType::from(&t);
        proof {
            assert(tokens@.skip(i as int)[0] == tokens@[i as int]);
            assert(tokens@.skip(i as int).drop_first() =~= tokens@.skip(i as int + 1));
        }
        let child = node.add_with(t.digit, nt);
        proof {
            let pre = old(node)@;
            if pre.node_type != NodeType::Repeatable(t.digit) {
                match pre.chi(t.digit) {
                    Some(i0) => {
                        assert(child@ =~= NodeView {
                            node_type: crate::node::spec_merge(pre.children[i0].node_type, nt),
                            ..pre.children[i0]
                        });
                    },
                    None => {
                        assert(child@ =~= NodeView {
                            node_type: nt,
                            children: Seq::empty(),
                            value: None,
                        });
                    },
                }
            }
        }
        let ok = insert_seq(child, tokens, i + 1, value);
        proof {
            if T::obeys_eq_spec() {
                let r = spec_insert(old(node)@, tokens@.skip(i as int), value);
                assert(node@ =~= r.0);
            }
        }
        ok
    }
}

/// The registry: one shared automaton, and the values stored in its
/// accepting states.
#[derive(Debug)]
pub struct Matcher<T> {
    pub root: Node<T>,
}

impl<T> Matcher<T> {
    /// An empty matcher: a bare entry state and nothing registered.
    pub fn new() -> (m: Matcher<T>)
        ensures
            m.root@ == (NodeView::<T> {
                node_type: NodeType::Root,
                children: Seq::empty(),
                value: None,
            }),
    {
        Matcher { root: Node::root() }
    }

    /// Evaluates the digit string `digits` against the automaton: the
    /// value stored in the state the walk ends in, `None` when the walk
    /// gets stuck, or an error naming the first non-digit character the
    /// walk reaches.
    pub fn get(&self, digits: &str) -> (r: Result<Option<&T>, MapError>)
        ensures
            ({
                let q = spec_query(self.root@, digits@);
                match r {
                    Ok(v) => q is Ok && (match v {
                        Some(x) => q.unwrap() == Some(*x),
                        None => q.unwrap() is None,
                    }),
                    Err(e) => q == Err::<Option<T>, MapError>(e),
                }
            }),
    {
        let n = digits.unicode_len();
        let mut current: &Node<T> = &self.root;
        let mut i: usize = 0;
        proof {
            assert(digits@.skip(0) =~= digits@);
        }
        while i < n
            invariant
                i <= n,
                n == digits@.len(),
                spec_query(self.root@, digits@) == spec_query(current@, digits@.skip(i as int)),
            decreases n - i,
        {
            let c = digits.get_char(i);
            proof {
                assert(digits@.skip(i as int).drop_first() =~= digits@.skip(i as int + 1));
            }
            match digit_of(c) {
                None => {
                    return Err(MapError::InvalidDigit(c));
                },
                Some(d) => {
                    match current.get(d) {
                        Some(child) => {
                            current = child;
                        },
                        None => {
                            return Ok(None);
                        },
                    }
                },
            }
            i = i + 1;
        }
        Ok(current.get_value())
    }
}

impl<T: Copy + PartialEq> Matcher<T> {
    /// Registers `pattern` with `value`: compiles the pattern and inserts
    /// each of its token sequences in order into the shared automaton.  A
    /// sequence whose terminal state already stores a different value
    /// fails the call; the mutations of the sequences before it remain.
    pub fn add(&mut self, pattern: &str, value: T) -> (r: Result<(), RegisterError>)
        ensures
            ({
                match spec_parse(pattern@) {
                    Err(e) => {
                        &&& r == Err::<(), RegisterError>(RegisterError::Pattern(e))
                        &&& *final(self) == *old(self)
                    },
                    Ok(vs) => {
                        &&& (r is Ok || r == Err::<(), RegisterError>(
                            RegisterError::PathAlreadyExists,
                        ))
                        &&& T::obeys_eq_spec() ==> ({
                            let ra = spec_insert_all(old(self).root@, vs, value);
                            &&& final(self).root@ == ra.0
                            &&& r == (if ra.1 {
                                Ok::<(), RegisterError>(())
                            } else {
                                Err::<(), RegisterError>(RegisterError::PathAlreadyExists)
                            })
                        })
                    },
                }
            }),
    {
        let toks = match Tokens::from_str(pattern) {
            Err(e) => {
                return Err(RegisterError::Pattern(e));
            },
            Ok(t) => t,
        };
        let ghost vs = toks@;
        let ghost root0 = self.root@;
        let nvar = toks.0.len();
        let mut k: usize = 0;
        proof {
            assert(vs.take(0) =~= Seq::<Seq<Token>>::empty());
        }
        while k < nvar
            invariant
                k <= nvar,
                nvar == toks.0.len(),
                vs == toks@,
                root0 == old(self).root@,
                spec_parse(pattern@) == Ok::<Seq<Seq<Token>>, crate::error::TokenizerError>(vs),
                T::obeys_eq_spec() ==> {
                    &&& spec_insert_all(root0, vs.take(k as int), value).0 == self.root@
                    &&& spec_insert_all(root0, vs.take(k as int), value).1
                },
            decreases nvar - k,
        {
            let ghost pre = self.root@;
            let ok = insert_seq(&mut self.root, &toks.0[k], 0, value);
            proof {
                if T::obeys_eq_spec() {
                    assert(toks.0[k as int]@.skip(0) =~= vs[k as int]);
                    let rr = spec_insert(pre, vs[k as int], value);
                    lemma_insert_all_step(root0, vs, k as int, value);
                }
            }
            if !ok {
                proof {
                    if T::obeys_eq_spec() {
                        lemma_insert_all_split(root0, vs, k as int, value);
                        assert(vs.skip(k as int)[0] == vs[k as int]);
                    }
                }
                return Err(RegisterError::PathAlreadyExists);
            }
            k = k + 1;
        }
        proof {
            assert(vs.take(nvar as int) =~= vs);
        }
        Ok(())
    }
}

} // verus!
