//! The pattern compiler: expands a pattern string into the set of concrete
//! token sequences it denotes.

use vstd::prelude::*;

use crate::digits::{digit_of, lemma_non_digit_from, non_digit_from, spec_digit_of};
use crate::error::TokenizerError;

verus! {

/// How often the digit of a token may occur.
#[derive(Debug, Clone, Copy, PartialEq, Eq, Structural)]
pub enum TokenKind {
    /// Exactly one occurrence.
    Single,
    /// One or more occurrences of the same digit.
    AtLeastOne,
}

/// One compiled unit: a digit together with its repetition kind.
#[derive(Debug, Clone, Copy, PartialEq, Eq, Structural)]
pub struct Token {
    pub digit: u8,
    pub kind: TokenKind,
}

/// A single-occurrence token for `digit`.
pub open spec fn spec_single(digit: u8) -> Token {
    Token { digit, kind: TokenKind::Single }
}

/// A repeatable token for `digit`.
pub open spec fn spec_maybe_more(digit: u8) -> Token {
    Token { digit, kind: TokenKind::AtLeastOne }
}

impl Token {
    /// A token matching exactly one occurrence of `digit`.
    pub fn as_single(digit: u8) -> (t: Token)
        ensures
            t == spec_single(digit),
    {
        Token { digit, kind: TokenKind::Single }
    }

    /// A token matching one or more occurrences of `digit`.
    pub fn as_maybe_one_or_more(digit: u8) -> (t: Token)
        ensures
            t == spec_maybe_more(digit),
    {
        Token { digit, kind: TokenKind::AtLeastOne }
    }

    /// Replaces the repetition kind, keeping the digit.
    pub fn change_kind(&mut self, kind: TokenKind)
        ensures
            *final(self) == (Token { digit: old(self).digit, kind }),
    {
        self.kind = kind;
    }
}

/// The abstract value of a collection of token sequences.
pub open spec fn vv_view(v: Vec<Vec<Token>>) -> Seq<Seq<Token>> {
    Seq::new(v.len() as nat, |i: int| v[i]@)
}

/// The expansion of a pattern: one token sequence per concrete variant.
///
/// The collection starts as a single empty sequence and grows only by
/// appending one token to every sequence or by multiplying the sequences
/// with the alternatives of a bracket group; semantically equal sequences
/// are kept as they arise.
#[derive(Debug, PartialEq)]
pub struct Tokens(pub Vec<Vec<Token>>);

impl View for Tokens {
    type V = Seq<Seq<Token>>;

    open spec fn view(&self) -> Seq<Seq<Token>> {
        vv_view(self.0)
    }
}

/// Every sequence of `acc` extended by the one token `t`.
pub open spec fn spec_append_all(acc: Seq<Seq<Token>>, t: Token) -> Seq<Seq<Token>> {
    Seq::new(acc.len(), |i: int| acc[i].push(t))
}

/// The cross product of `acc` with the alternatives `vt`: for every
/// sequence of `acc` in order, that sequence extended by each token of
/// `vt` in order.
pub open spec fn spec_cross(acc: Seq<Seq<Token>>, vt: Seq<Token>) -> Seq<Seq<Token>>
    decreases acc.len(),
{
    if acc.len() == 0 {
        Seq::empty()
    } else {
        spec_cross(acc.drop_last(), vt) + Seq::new(vt.len(), |j: int| acc.last().push(vt[j]))
    }
}

/// The cross product used for `+` groups: for every sequence of `acc` and
/// every token of `vt`, the sequence extended by a single-occurrence copy
/// of the token's digit and then by a repeatable copy.
pub open spec fn spec_cross_plus(acc: Seq<Seq<Token>>, vt: Seq<Token>) -> Seq<Seq<Token>>
    decreases acc.len(),
{
    if acc.len() == 0 {
        Seq::empty()
    } else {
        spec_cross_plus(acc.drop_last(), vt) + spec_plus_block(acc.last(), vt)
    }
}

/// The `+` expansion of one sequence: for each token, the sequence plus a
/// single-occurrence copy, then the sequence plus a repeatable copy.
pub open spec fn spec_plus_block(prefix: Seq<Token>, vt: Seq<Token>) -> Seq<Seq<Token>>
    decreases vt.len(),
{
    if vt.len() == 0 {
        Seq::empty()
    } else {
        spec_plus_block(prefix, vt.drop_last())
            + seq![prefix.push(spec_single(vt.last().digit)), prefix.push(spec_maybe_more(vt.last().digit))]
    }
}

impl Tokens {
    /// Appends the same token to every sequence.
    pub fn append_token(&mut self, t: Token)
        ensures
            final(self)@ == spec_append_all(old(self)@, t),
    {
        let n = self.0.len();
        let mut i: usize = 0;
        while i < n
            invariant
                i <= n,
                n == self.0.len(),
                n == old(self)@.len(),
                forall|j: int| i <= j < n ==> self.0[j]@ == old(self)@[j],
                forall|j: int| 0 <= j < i ==> self.0[j]@ == old(self)@[j].push(t),
            decreases n - i,
        {
            let v = &mut self.0[i];
            v.push(t);
            i = i + 1;
        }
        proof {
            assert(self@ =~= spec_append_all(old(self)@, t));
        }
    }

    /// Multiplies the collection by the alternatives `vt`: every sequence
    /// is replaced by one copy per token of `vt`, extended by that token.
    pub fn extend_tokens(&mut self, vt: Vec<Token>)
        ensures
            final(self)@ == spec_cross(old(self)@, vt@),
    {
        let n = self.0.len();
        let m = vt.len();
        let mut new_vec: Vec<Vec<Token>> = Vec::new();
        proof {
            assert(vv_view(new_vec) =~= spec_cross(old(self)@.take(0), vt@));
        }
        let mut i: usize = 0;
        while i < n
            invariant
                i <= n,
                n == self.0.len(),
                m == vt.len(),
                self.0 == old(self).0,
                vv_view(new_vec) == spec_cross(old(self)@.take(i as int), vt@),
            decreases n - i,
        {
            let mut j: usize = 0;
            while j < m
                invariant
                    i < n,
                    j <= m,
                    n == self.0.len(),
                    m == vt.len(),
                    self.0 == old(self).0,
                    vv_view(new_vec) == spec_cross(old(self)@.take(i as int), vt@) + Seq::new(
                        j as nat,
                        |jj: int| old(self)@[i as int].push(vt@[jj]),
                    ),
                decreases m - j,
            {
                let mut nt = self.0[i].clone();
                proof {
                    assert(nt@ =~= old(self)@[i as int]);
                }
                nt.push(vt[j]);
                proof {
                    assert(nt@ == old(self)@[i as int].push(vt@[j as int]));
                }
                new_vec.push(nt);
                proof {
                    let a = spec_cross(old(self)@.take(i as int), vt@);
                    let blk0 = Seq::new(j as nat, |jj: int| old(self)@[i as int].push(vt@[jj]));
                    let blk1 = Seq::new((j + 1) as nat, |jj: int| old(self)@[i as int].push(vt@[jj]));
                    assert(vv_view(new_vec) =~= (a + blk0).push(nt@));
                    assert(a + blk1 =~= (a + blk0).push(nt@));
                }
                j = j + 1;
            }
            proof {
                let s = old(self)@;
                let k = i as int;
                assert(s.take(k + 1).drop_last() =~= s.take(k));
                assert(s.take(k + 1).last() == s[k]);
                assert(vv_view(new_vec) =~= spec_cross(s.take(k + 1), vt@));
            }
            i = i + 1;
        }
        self.0 = new_vec;
        proof {
            assert(old(self)@.take(n as int) =~= old(self)@);
        }
    }

    /// The `+` multiplication: every sequence is replaced, for each token
    /// of `tokens`, by one copy extended with a single-occurrence token
    /// for its digit and one copy extended with a repeatable token.
    pub fn extend_tokens_for_plus(&mut self, tokens: Vec<Token>)
        ensures
            final(self)@ == spec_cross_plus(old(self)@, tokens@),
    {
        let n = self.0.len();
        let m = tokens.len();
        let mut new_variants: Vec<Vec<Token>> = Vec::new();
        proof {
            assert(vv_view(new_variants) =~= spec_cross_plus(old(self)@.take(0), tokens@));
        }
        let mut i: usize = 0;
        while i < n
            invariant
                i <= n,
                n == self.0.len(),
                m == tokens.len(),
                self.0 == old(self).0,
                vv_view(new_variants) == spec_cross_plus(old(self)@.take(i as int), tokens@),
            decreases n - i,
        {
            let mut j: usize = 0;
            proof {
                assert(tokens@.take(0) =~= Seq::<Token>::empty());
                assert(vv_view(new_variants) =~= spec_cross_plus(old(self)@.take(i as int), tokens@)
                    + spec_plus_block(old(self)@[i as int], tokens@.take(0)));
            }
            while j < m
                invariant
                    i < n,
                    j <= m,
                    n == self.0.len(),
                    m == tokens.len(),
                    self.0 == old(self).0,
                    vv_view(new_variants) == spec_cross_plus(old(self)@.take(i as int), tokens@)
                        + spec_plus_block(old(self)@[i as int], tokens@.take(j as int)),
                decreases m - j,
            {
                let digit = tokens[j].digit;
                let mut single_sequence = self.0[i].clone();
                proof {
                    assert(single_sequence@ =~= old(self)@[i as int]);
                }
                single_sequence.push(Token::as_single(digit));
                new_variants.push(single_sequence);

                let mut maybe_sequence = self.0[i].clone();
                proof {
                    assert(maybe_sequence@ =~= old(self)@[i as int]);
                }
                maybe_sequence.push(Token::as_maybe_one_or_more(digit));
                new_variants.push(maybe_sequence);

                proof {
                    let t = tokens@;
                    let k = j as int;
                    let p = old(self)@[i as int];
                    let a = spec_cross_plus(old(self)@.take(i as int), t);
                    let b0 = spec_plus_block(p, t.take(k));
                    let b1 = spec_plus_block(p, t.take(k + 1));
                    let x = p.push(spec_single(t[k].digit));
                    let y = p.push(spec_maybe_more(t[k].digit));
                    assert(t.take(k + 1).drop_last() =~= t.take(k));
                    assert(t.take(k + 1).last() == t[k]);
                    assert(b1 == b0 + seq![x, y]);
                    assert(vv_view(new_variants) =~= (a + b0).push(x).push(y));
                    assert(a + b1 =~= (a + b0).push(x).push(y));
                }
                j = j + 1;
            }
            proof {
                let s = old(self)@;
                let k = i as int;
                assert(tokens@.take(m as int) =~= tokens@);
                assert(s.take(k + 1).drop_last() =~= s.take(k));
                assert(s.take(k + 1).last() == s[k]);
                assert(vv_view(new_variants) =~= spec_cross_plus(s.take(k + 1), tokens@));
            }
            i = i + 1;
        }
        self.0 = new_variants;
        proof {
            assert(old(self)@.take(n as int) =~= old(self)@);
        }
    }
}

/// The single-occurrence tokens of the digits of `s` from `a` to `b`.
pub open spec fn bracket_singles(s: Seq<char>, a: int, b: int) -> Seq<Token> {
    Seq::new(
        if b >= a { (b - a) as nat } else { 0 },
        |k: int| spec_single(spec_digit_of(s[a + k]).unwrap()),
    )
}

/// The repeatable tokens of the digits of `s` from `a` to `b`.
pub open spec fn bracket_maybes(s: Seq<char>, a: int, b: int) -> Seq<Token> {
    Seq::new(
        if b >= a { (b - a) as nat } else { 0 },
        |k: int| spec_maybe_more(spec_digit_of(s[a + k]).unwrap()),
    )
}

/// What the rest of a pattern, from position `i` on, makes of the
/// collection `acc` built so far: a digit extends every sequence, a
/// bracket group multiplies the collection as its quantifier asks, and
/// anything else is one of the compile errors.
pub open spec fn spec_parse_from(s: Seq<char>, i: int, acc: Seq<Seq<Token>>) -> Result<
    Seq<Seq<Token>>,
    TokenizerError,
>
    decreases s.len() - i,
    via spec_parse_from_decreases
{
    if i < 0 || i >= s.len() {
        Ok(acc)
    } else if spec_digit_of(s[i]) is Some {
        spec_parse_from(s, i + 1, spec_append_all(acc, spec_single(spec_digit_of(s[i]).unwrap())))
    } else if s[i] == '[' {
        let j = non_digit_from(s, i + 1);
        if j >= s.len() {
            Err(TokenizerError::MissingClosingBracket)
        } else if s[j] != ']' {
            Err(TokenizerError::InvalidDigit(s[j]))
        } else if j == i + 1 {
            Err(TokenizerError::UnexpectedEmptyRange)
        } else if j + 1 < s.len() && s[j + 1] == '*' {
            spec_parse_from(s, j + 2, acc + spec_cross(acc, bracket_maybes(s, i + 1, j)))
        } else if j + 1 < s.len() && s[j + 1] == '+' {
            spec_parse_from(s, j + 2, spec_cross_plus(acc, bracket_singles(s, i + 1, j)))
        } else {
            spec_parse_from(s, j + 1, spec_cross(acc, bracket_singles(s, i + 1, j)))
        }
    } else {
        Err(TokenizerError::UnexpectedChar(s[i]))
    }
}

#[via_fn]
proof fn spec_parse_from_decreases(s: Seq<char>, i: int, acc: Seq<Seq<Token>>) {
    if 0 <= i < s.len() && spec_digit_of(s[i]) is None && s[i] == '[' {
        lemma_non_digit_from(s, i + 1);
    }
}

/// What a whole pattern denotes: the collection grown from one empty
/// sequence, or the first compile error.
pub open spec fn spec_parse(s: Seq<char>) -> Result<Seq<Seq<Token>>, TokenizerError> {
    spec_parse_from(s, 0, seq![Seq::<Token>::empty()])
}

impl Tokens {
    /// Compiles a pattern string into the collection of token sequences
    /// it denotes, scanning left to right and failing on the first
    /// offending character.
    pub fn from_str(s: &str) -> (r: Result<Tokens, TokenizerError>)
        ensures
            match r {
                Ok(t) => spec_parse(s@) == Ok::<_, TokenizerError>(t@),
                Err(e) => spec_parse(s@) == Err::<Seq<Seq<Token>>, _>(e),
            },
    {
        let mut result = Tokens::default();
        let n = s.unicode_len();
        let mut i: usize = 0;
        while i < n
            invariant
                i <= n,
                n == s@.len(),
                spec_parse(s@) == spec_parse_from(s@, i as int, result@),
            decreases n - i,
        {
            let c = s.get_char(i);
            if let Some(d) = digit_of(c) {
                result.append_token(Token::as_single(d));
                i = i + 1;
            } else if c == '[' {
                let mut v: Vec<Token> = Vec::new();
                let mut j: usize = i + 1;
                proof {
                    assert(v@ =~= bracket_singles(s@, i as int + 1, j as int));
                }
                loop
                    invariant
                        i as int + 1 <= j <= n,
                        n == s@.len(),
                        non_digit_from(s@, i as int + 1) == non_digit_from(s@, j as int),
                        v@ == bracket_singles(s@, i as int + 1, j as int),
                    ensures
                        i as int + 1 <= j <= n,
                        n == s@.len(),
                        j as int == non_digit_from(s@, i as int + 1),
                        v@ == bracket_singles(s@, i as int + 1, j as int),
                    decreases n - j,
                {
                    if j >= n {
                        break;
                    }
                    let cc = s.get_char(j);
                    match digit_of(cc) {
                        Some(d) => {
                            v.push(Token::as_single(d));
                            proof {
                                assert(v@ =~= bracket_singles(s@, i as int + 1, j as int + 1));
                            }
                            j = j + 1;
                        },
                        None => {
                            break;
                        },
                    }
                }
                if j >= n {
                    return Err(TokenizerError::MissingClosingBracket);
                }
                let closing = s.get_char(j);
                if closing != ']' {
                    return Err(TokenizerError::InvalidDigit(closing));
                }
                if j == i + 1 {
                    return Err(TokenizerError::UnexpectedEmptyRange);
                }
                let mut star = false;
                let mut plus = false;
                if j + 1 < n {
                    let suffix = s.get_char(j + 1);
                    if suffix == '*' {
                        star = true;
                    } else if suffix == '+' {
                        plus = true;
                    }
                }
                if star {
                    let ghost pre = result@;
                    let mut v2: Vec<Token> = Vec::new();
                    let mut k: usize = 0;
                    while k < v.len()
                        invariant
                            k <= v.len(),
                            v2@.len() == k,
                            forall|x: int| 0 <= x < k ==> v2@[x] == spec_maybe_more(v@[x].digit),
                        decreases v.len() - k,
                    {
                        v2.push(Token::as_maybe_one_or_more(v[k].digit));
                        k = k + 1;
                    }
                    proof {
                        assert(v2@ =~= bracket_maybes(s@, i as int + 1, j as int));
                    }
                    let mut star_vec: Vec<Vec<Token>> = Vec::new();
                    let mut a: usize = 0;
                    while a < result.0.len()
                        invariant
                            a <= result.0.len(),
                            result@ == pre,
                            star_vec@.len() == a,
                            forall|x: int| 0 <= x < a ==> star_vec@[x]@ == result@[x],
                        decreases result.0.len() - a,
                    {
                        let cl = result.0[a].clone();
                        proof {
                            assert(cl@ =~= result.0[a as int]@);
                        }
                        star_vec.push(cl);
                        a = a + 1;
                    }
                    let mut star_tokens = Tokens(star_vec);
                    proof {
                        assert(star_tokens@ =~= pre);
                    }
                    star_tokens.extend_tokens(v2);
                    result.0.append(&mut star_tokens.0);
                    proof {
                        assert(result@ =~= pre + spec_cross(pre, bracket_maybes(s@, i as int + 1, j as int)));
                    }
                    i = j + 2;
                } else if plus {
                    result.extend_tokens_for_plus(v);
                    i = j + 2;
                } else {
                    result.extend_tokens(v);
                    i = j + 1;
                }
            } else {
                return Err(TokenizerError::UnexpectedChar(c));
            }
        }
        Ok(result)
    }
}

impl Default for Tokens {
    /// The expansion of the empty pattern: a single empty sequence.
    fn default() -> (t: Tokens)
        ensures
            t@ =~= seq![Seq::<Token>::empty()],
    {
        Tokens(vec![Vec::new()])
    }
}

} // verus!
