//! A plain trie over digit strings: each node has one slot per digit and
//! an optional stored value.

use vstd::prelude::*;

use crate::digits::{digit_of, digits_of, non_digit_from, spec_digit_of};
use crate::error::MapError;

verus! {

/// One trie node: a slot per digit, and an optional stored value.
#[derive(Debug)]
pub struct Node<T> {
    pub digits: Vec<Option<Node<T>>>,
    pub value: Option<T>,
}

/// A well-formed trie node has exactly one slot per digit, at every
/// level.
pub open spec fn spec_wf<T>(n: Node<T>) -> bool
    decreases n, 0int,
{
    n.digits.len() == 10 && slots_wf(n.digits, 0)
}

/// Well-formedness of every filled slot from index `i` on.
pub open spec fn slots_wf<T>(v: Vec<Option<Node<T>>>, i: int) -> bool
    decreases v, v.len() - i,
{
    if i < 0 || i >= v.len() {
        true
    } else {
        (match v[i] {
            Some(c) => spec_wf(c),
            None => true,
        }) && slots_wf(v, i + 1)
    }
}

/// Pointwise reading of `slots_wf`.
pub proof fn lemma_slots_wf<T>(v: Vec<Option<Node<T>>>, i: int)
    requires
        0 <= i <= v.len(),
    ensures
        slots_wf(v, i) <==> forall|k: int|
            i <= k < v.len() ==> match #[trigger] v[k] {
                Some(c) => spec_wf(c),
                None => true,
            },
    decreases v.len() - i,
{
    if i < v.len() {
        lemma_slots_wf(v, i + 1);
    }
}

/// The value stored for the digit string `ds`, if any.
pub open spec fn spec_lookup<T>(n: Node<T>, ds: Seq<u8>) -> Option<T>
    decreases ds.len(),
{
    if ds.len() == 0 {
        n.value
    } else if 0 <= ds[0] < n.digits.len() {
        match n.digits[ds[0] as int] {
            Some(c) => spec_lookup(c, ds.drop_first()),
            None => None,
        }
    } else {
        None
    }
}

/// What a query over the character string `cs` returns: the first
/// non-digit character is an error; a walk that leaves the trie is a
/// successful miss; otherwise the value stored at the end, if any.
pub open spec fn spec_trie_get<T>(n: Node<T>, cs: Seq<char>) -> Result<Option<T>, MapError>
    decreases cs.len(),
{
    if cs.len() == 0 {
        Ok(n.value)
    } else {
        match spec_digit_of(cs[0]) {
            None => Err(MapError::InvalidDigit(cs[0])),
            Some(d) => {
                if 0 <= d < n.digits.len() {
                    match n.digits[d as int] {
                        Some(c) => spec_trie_get(c, cs.drop_first()),
                        None => Ok(None),
                    }
                } else {
                    Ok(None)
                }
            },
        }
    }
}

/// A node fresh from the constructor: ten empty slots and no value.
pub open spec fn spec_fresh<T>(n: Node<T>) -> bool {
    &&& n.value is None
    &&& n.digits.len() == 10
    &&& forall|k: int| 0 <= k < 10 ==> n.digits[k] is None
}

/// A fresh node stores nothing, under any key.
pub proof fn lemma_fresh_lookup<T>(n: Node<T>)
    requires
        spec_fresh(n),
    ensures
        forall|ds: Seq<u8>| spec_lookup(n, ds) is None,
{
    assert forall|ds: Seq<u8>| spec_lookup(n, ds) is None by {
        if ds.len() > 0 {
            assert(spec_lookup(n, ds) is None);
        }
    }
}

/// The schema line of a slot sequence: `X` where a slot is filled, `.`
/// where it is empty.
pub open spec fn spec_schema<T>(v: Seq<Option<T>>) -> Seq<char> {
    Seq::new(v.len(), |i: int| if v[i] is Some { 'X' } else { '.' })
}

/// Renders one character per slot: `X` where the slot holds something,
/// `.` where it does not.
pub fn schema<T>(v: &[Option<T>]) -> (s: String)
    ensures
        s@ == spec_schema(v@),
{
    proof {
        reveal_strlit("X");
        reveal_strlit(".");
    }
    let mut s = String::new();
    let n = v.len();
    let mut i: usize = 0;
    proof {
        assert(s@ =~= spec_schema(v@.take(0)));
    }
    while i < n
        invariant
            i <= n,
            n == v@.len(),
            s@ == spec_schema(v@.take(i as int)),
        decreases n - i,
    {
        proof {
            reveal_strlit("X");
            reveal_strlit(".");
        }
        if v[i].is_some() {
            s.append("X");
        } else {
            s.append(".");
        }
        proof {
            assert(s@ =~= spec_schema(v@.take(i as int + 1)));
        }
        i = i + 1;
    }
    proof {
        assert(v@.take(n as int) =~= v@);
    }
    s
}

impl<T> Node<T> {
    /// Advances into the slot for `digit`, filling it with a fresh node
    /// first when it is empty.
    pub fn add(&mut self, digit: usize) -> (ret: &mut Node<T>)
        requires
            digit < old(self).digits.len(),
        ensures
            final(self).value == old(self).value,
            final(self).digits@ == old(self).digits@.update(digit as int, Some(*final(ret))),
            match old(self).digits[digit as int] {
                Some(c) => *ret == c,
                None => spec_fresh(*ret) && spec_wf(*ret) && (forall|ds: Seq<u8>|
                    spec_lookup(*ret, ds) is None),
            },
    {
        if self.digits[digit].is_none() {
            let fresh = Node::empty();
            proof {
                lemma_fresh_lookup(fresh);
            }
            self.digits.set(digit, Some(fresh));
        }
        let slot = &mut self.digits[digit];
        match slot {
            Some(child) => child,
            None => unreached(),
        }
    }

    /// Stores `value` in this node, replacing any previous value.
    pub fn set_value(&mut self, value: T)
        ensures
            final(self).value == Some(value),
            final(self).digits == old(self).digits,
    {
        self.value = Some(value);
    }

    /// The value stored in this node, if any.
    pub fn get_value(&self) -> (r: Option<&T>)
        ensures
            match r {
                Some(v) => self.value == Some(*v),
                None => self.value is None,
            },
    {
        self.value.as_ref()
    }

    /// The node reached by `digit`, if its slot is filled.
    pub fn get(&self, digit: usize) -> (r: Option<&Node<T>>)
        requires
            digit < self.digits.len(),
        ensures
            match r {
                Some(c) => self.digits[digit as int] == Some(*c),
                None => self.digits[digit as int] is None,
            },
    {
        self.digits[digit].as_ref()
    }

    /// The schema line of this node's slots.
    pub fn schema(&self) -> (s: String)
        ensures
            s@ == spec_schema(self.digits@),
    {
        schema(self.digits.as_slice())
    }

    /// A fresh node: ten empty slots, no value.
    pub fn empty() -> (n: Node<T>)
        ensures
            spec_fresh(n),
            spec_wf(n),
    {
        let mut v: Vec<Option<Node<T>>> = Vec::new();
        let mut i: usize = 0;
        while i < 10
            invariant
                i <= 10,
                v@.len() == i,
                forall|k: int| 0 <= k < i ==> v@[k] is None,
            decreases 10 - i,
        {
            v.push(None);
            i = i + 1;
        }
        let n = Node { digits: v, value: None };
        proof {
            lemma_slots_wf(n.digits, 0);
        }
        n
    }
}

/// Descends from `n` along the digits of `s` from position `i` on,
/// creating nodes as needed, and stores `value` at the end; fails on the
/// first non-digit character, leaving the nodes created so far in place
/// but no value stored.
fn add_go<T>(n: &mut Node<T>, s: &str, i: usize, value: T) -> (r: Result<(), MapError>)
    requires
        spec_wf(*old(n)),
        i <= s@.len(),
    ensures
        spec_wf(*final(n)),
        ({
            let cs = s@.skip(i as int);
            let nd = non_digit_from(s@, i as int);
            if nd == s@.len() {
                &&& r is Ok
                &&& spec_lookup(*final(n), digits_of(cs)) == Some(value)
                &&& forall|t: Seq<u8>|
                    t != digits_of(cs) ==> spec_lookup(*final(n), t) == spec_lookup(*old(n), t)
            } else {
                &&& r == Err::<(), MapError>(MapError::InvalidDigit(s@[nd]))
                &&& forall|t: Seq<u8>| spec_lookup(*final(n), t) == spec_lookup(*old(n), t)
            }
        }),
    decreases s@.len() - i,
{
    let n_len = s.unicode_len();
    if i == n_len {
        n.set_value(value);
        proof {
            lemma_slots_wf(old(n).digits, 0);
            lemma_slots_wf(n.digits, 0);
            let cs = s@.skip(i as int);
            assert(digits_of(cs) =~= Seq::<u8>::empty());
            assert forall|t: Seq<u8>| t != digits_of(cs) implies spec_lookup(*n, t)
                == spec_lookup(*old(n), t) by {
                if t.len() == 0 {
                    assert(t =~= digits_of(cs));
                } else {
                    if 0 <= t[0] < n.digits.len() {
                        assert(n.digits[t[0] as int] == old(n).digits[t[0] as int]);
                    }
                }
            }
        }
        Ok(())
    } else {
        let c = s.get_char(i);
        match digit_of(c) {
            None => Err(MapError::InvalidDigit(c)),
            Some(d) => {
                proof {
                    lemma_slots_wf(old(n).digits, 0);
                }
                let ghost old_n = *old(n);
                let ghost old_slot = old(n).digits[d as int];
                let child = n.add(d as usize);
                proof {
                    if old_slot is Some {
                        assert(spec_wf(*child));
                    }
                }
                let r = add_go(child, s, i + 1, value);
                proof {
                    let d_i = d as int;
                    let cs = s@.skip(i as int);
                    let cs1 = s@.skip(i as int + 1);
                    assert(cs.drop_first() =~= cs1);
                    assert(digits_of(cs).drop_first() =~= digits_of(cs1));
                    assert(digits_of(cs)[0] == d);
                    let fin_child = n.digits[d_i].unwrap();
                    // well-formedness of the updated node
                    assert forall|k: int|
                        0 <= k < n.digits.len() implies match #[trigger] n.digits[k] {
                        Some(c2) => spec_wf(c2),
                        None => true,
                    } by {
                        if k != d_i {
                            assert(n.digits[k] == old_n.digits[k]);
                        }
                    }
                    lemma_slots_wf(n.digits, 0);
                    // how lookups moved
                    let nd = non_digit_from(s@, i as int);
                    assert forall|t: Seq<u8>|
                        t != digits_of(cs) implies spec_lookup(*n, t) == spec_lookup(old_n, t) by {
                        if t.len() == 0 {
                        } else if t[0] == d {
                            let t1 = t.drop_first();
                            if t1 == digits_of(cs1) {
                                assert forall|k: int| 0 <= k < t.len() implies t[k] == digits_of(
                                    cs,
                                )[k] by {
                                    if k > 0 {
                                        assert(t[k] == t1[k - 1]);
                                        assert(cs[k] == cs1[k - 1]);
                                    }
                                }
                                assert(t =~= digits_of(cs));
                            }
                            if nd == s@.len() {
                                assert(t1 != digits_of(cs1));
                            }
                            match old_slot {
                                Some(c0) => {
                                    assert(spec_lookup(old_n, t) == spec_lookup(c0, t1));
                                    assert(spec_lookup(*n, t) == spec_lookup(fin_child, t1));
                                },
                                None => {
                                    assert(spec_lookup(old_n, t) is None);
                                    assert(spec_lookup(*n, t) == spec_lookup(fin_child, t1));
                                },
                            }
                        } else {
                            if 0 <= t[0] < n.digits.len() {
                                assert(n.digits[t[0] as int] == old_n.digits[t[0] as int]);
                            }
                        }
                    }
                    if nd == s@.len() {
                        assert(spec_lookup(*n, digits_of(cs)) == spec_lookup(fin_child, digits_of(
                            cs1,
                        )));
                    }
                }
                r
            },
        }
    }
}

/// A trie map from digit strings to values.
#[derive(Debug)]
pub struct DigitMap<T> {
    pub root: Node<T>,
}

impl<T> DigitMap<T> {
    /// Every level of the trie is well-formed.
    pub open spec fn wf(self) -> bool {
        spec_wf(self.root)
    }

    /// Binds the digit string `input` to `value`.  A non-digit character
    /// fails the call; the nodes created while descending up to it stay,
    /// but no value is stored.
    pub fn add(&mut self, input: &str, value: T) -> (r: Result<(), MapError>)
        requires
            old(self).wf(),
        ensures
            final(self).wf(),
            ({
                let nd = non_digit_from(input@, 0);
                if nd == input@.len() {
                    &&& r is Ok
                    &&& spec_lookup(final(self).root, digits_of(input@)) == Some(value)
                    &&& forall|t: Seq<u8>|
                        t != digits_of(input@) ==> spec_lookup(final(self).root, t) == spec_lookup(
                            old(self).root,
                            t,
                        )
                } else {
                    &&& r == Err::<(), MapError>(MapError::InvalidDigit(input@[nd]))
                    &&& forall|t: Seq<u8>|
                        spec_lookup(final(self).root, t) == spec_lookup(old(self).root, t)
                }
            }),
    {
        let r = add_go(&mut self.root, input, 0, value);
        proof {
            assert(input@.skip(0) =~= input@);
        }
        r
    }

    /// Looks up the digit string `input`: the value stored at its end,
    /// `None` when the walk leaves the trie, or an error naming the first
    /// non-digit character.
    pub fn get(&self, input: &str) -> (r: Result<Option<&T>, MapError>)
        ensures
            ({
                let q = spec_trie_get(self.root, input@);
                match r {
                    Ok(v) => q is Ok && (match v {
                        Some(x) => q.unwrap() == Some(*x),
                        None => q.unwrap() is None,
                    }),
                    Err(e) => q == Err::<Option<T>, MapError>(e),
                }
            }),
    {
        let n_len = input.unicode_len();
        let mut current: &Node<T> = &self.root;
        let mut i: usize = 0;
        proof {
            assert(input@.skip(0) =~= input@);
        }
        while i < n_len
            invariant
                i <= n_len,
                n_len == input@.len(),
                spec_trie_get(self.root, input@) == spec_trie_get(*current, input@.skip(i as int)),
            decreases n_len - i,
        {
            let c = input.get_char(i);
            proof {
                assert(input@.skip(i as int).drop_first() =~= input@.skip(i as int + 1));
            }
            match digit_of(c) {
                None => {
                    return Err(MapError::InvalidDigit(c));
                },
                Some(d) => {
                    let du = d as usize;
                    if du < current.digits.len() {
                        match current.get(du) {
                            Some(child) => {
                                current = child;
                            },
                            None => {
                                return Ok(None);
                            },
                        }
                    } else {
                        return Ok(None);
                    }
                },
            }
            i = i + 1;
        }
        Ok(current.get_value())
    }
}

impl<T> Default for DigitMap<T> {
    /// An empty map: a fresh root and nothing stored.
    fn default() -> (m: DigitMap<T>)
        ensures
            m.wf(),
            spec_fresh(m.root),
            forall|t: Seq<u8>| spec_lookup(m.root, t) is None,
    {
        let root = Node::empty();
        proof {
            lemma_fresh_lookup(root);
        }
        DigitMap { root }
    }
}

impl<T> Default for Node<T> {
    /// A fresh node: ten empty slots, no value.
    fn default() -> (n: Node<T>)
        ensures
            spec_fresh(n),
            spec_wf(n),
    {
        Node::empty()
    }
}

} // verus!
