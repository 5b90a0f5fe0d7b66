use patmap::error::{MapError, RegisterError, TokenizerError};
use patmap::matcher::Matcher;

#[test]
fn test_matcher_empty() {
    let m: Matcher<i32> = Matcher::new();
    assert_eq!(m.get("").unwrap(), None);
    assert_eq!(m.get("1").unwrap(), None);
    assert_eq!(m.get("123").unwrap(), None);
}

#[test]
fn test_plain_pattern_round_trip() {
    let mut m: Matcher<i32> = Matcher::new();
    m.add("123", 7).unwrap();
    assert_eq!(m.get("123").unwrap(), Some(&7));
}

#[test]
fn test_unmatched_prefix_and_extension() {
    // Pattern "123" matches neither its prefixes nor its extensions.
    let mut m: Matcher<i32> = Matcher::new();
    m.add("123", 7).unwrap();
    assert_eq!(m.get("12").unwrap(), None);
    assert_eq!(m.get("1234").unwrap(), None);
    assert_eq!(m.get("123").unwrap(), Some(&7));
}

#[test]
fn test_alternation() {
    // "[12][34]" matches exactly the four two-digit combinations.
    let mut m: Matcher<i32> = Matcher::new();
    m.add("[12][34]", 5).unwrap();
    assert_eq!(m.get("13").unwrap(), Some(&5));
    assert_eq!(m.get("14").unwrap(), Some(&5));
    assert_eq!(m.get("23").unwrap(), Some(&5));
    assert_eq!(m.get("24").unwrap(), Some(&5));
    assert_eq!(m.get("11").unwrap(), None);
    assert_eq!(m.get("12").unwrap(), None);
}

#[test]
fn test_star_quantifier() {
    // "12[3]*4": zero or more threes between "12" and "4".
    let mut m: Matcher<i32> = Matcher::new();
    m.add("12[3]*4", 9).unwrap();
    assert_eq!(m.get("124").unwrap(), Some(&9));
    assert_eq!(m.get("1234").unwrap(), Some(&9));
    assert_eq!(m.get("12334").unwrap(), Some(&9));
    assert_eq!(m.get("123334").unwrap(), Some(&9));
    assert_eq!(m.get("12").unwrap(), None);
}

#[test]
fn test_plus_quantifier() {
    // "12[3]+4": at least one three between "12" and "4".
    let mut m: Matcher<i32> = Matcher::new();
    m.add("12[3]+4", 9).unwrap();
    assert_eq!(m.get("124").unwrap(), None);
    assert_eq!(m.get("1234").unwrap(), Some(&9));
    assert_eq!(m.get("12334").unwrap(), Some(&9));
}

#[test]
fn test_star_alternatives_do_not_mix() {
    // "[12]*" repeats one chosen digit; "12" mixes the two and must miss.
    let mut m: Matcher<i32> = Matcher::new();
    m.add("[12]*", 4).unwrap();
    assert_eq!(m.get("").unwrap(), Some(&4));
    assert_eq!(m.get("1").unwrap(), Some(&4));
    assert_eq!(m.get("11").unwrap(), Some(&4));
    assert_eq!(m.get("222").unwrap(), Some(&4));
    assert_eq!(m.get("12").unwrap(), None);
}

#[test]
fn test_add_idempotent() {
    let mut m: Matcher<i32> = Matcher::new();
    assert_eq!(m.add("1[23]", 6), Ok(()));
    assert_eq!(m.add("1[23]", 6), Ok(()));
    assert_eq!(m.get("12").unwrap(), Some(&6));
    assert_eq!(m.get("13").unwrap(), Some(&6));
}

#[test]
fn test_conflict_same_pattern() {
    let mut m: Matcher<i32> = Matcher::new();
    m.add("123", 1).unwrap();
    assert_eq!(m.add("123", 2), Err(RegisterError::PathAlreadyExists));
    // The first registration is still in place.
    assert_eq!(m.get("123").unwrap(), Some(&1));
}

#[test]
fn test_conflict_shared_expansion() {
    // "12[34]" expands to {123, 124}; "1[23]4" expands to {124, 134}:
    // they share "124", so a second registration with another value fails.
    let mut m: Matcher<i32> = Matcher::new();
    m.add("12[34]", 1).unwrap();
    assert_eq!(m.add("1[23]4", 2), Err(RegisterError::PathAlreadyExists));
    assert_eq!(m.get("124").unwrap(), Some(&1));
}

#[test]
fn test_invalid_query_character_reported_exactly() {
    let mut m: Matcher<i32> = Matcher::new();
    m.add("123456", 3).unwrap();
    assert_eq!(m.get("12a3"), Err(MapError::InvalidDigit('a')));
}

#[test]
fn test_invalid_pattern_character_reported_exactly() {
    let mut m: Matcher<i32> = Matcher::new();
    assert_eq!(
        m.add("12[3a]4", 3),
        Err(RegisterError::Pattern(TokenizerError::InvalidDigit('a')))
    );
}

#[test]
fn test_pattern_errors_propagate() {
    let mut m: Matcher<i32> = Matcher::new();
    assert_eq!(
        m.add("12[34", 0),
        Err(RegisterError::Pattern(TokenizerError::MissingClosingBracket))
    );
    assert_eq!(
        m.add("12[]4", 0),
        Err(RegisterError::Pattern(TokenizerError::UnexpectedEmptyRange))
    );
    assert_eq!(
        m.add("12x4", 0),
        Err(RegisterError::Pattern(TokenizerError::UnexpectedChar('x')))
    );
    assert_eq!(
        m.add("12*4", 0),
        Err(RegisterError::Pattern(TokenizerError::UnexpectedChar('*')))
    );
    // Nothing was registered by the failing calls.
    assert_eq!(m.get("124").unwrap(), None);
}

#[test]
fn test_empty_pattern_matches_empty_string() {
    let mut m: Matcher<i32> = Matcher::new();
    m.add("", 11).unwrap();
    assert_eq!(m.get("").unwrap(), Some(&11));
    assert_eq!(m.get("1").unwrap(), None);
}

#[test]
fn test_exact_upgraded_to_repeatable() {
    // "123" first, then "12[3]+4": the shared transition on 3 is upgraded
    // to repeatable, and both registrations keep working.
    let mut m: Matcher<i32> = Matcher::new();
    m.add("123", 1).unwrap();
    m.add("12[3]+4", 2).unwrap();
    assert_eq!(m.get("123").unwrap(), Some(&1));
    assert_eq!(m.get("1234").unwrap(), Some(&2));
    assert_eq!(m.get("12334").unwrap(), Some(&2));
}

#[test]
fn test_non_transactional_failure() {
    // "[12]3" fails on its second expansion when "23" is taken, but the
    // first expansion "13" has already been committed.
    let mut m: Matcher<i32> = Matcher::new();
    m.add("23", 1).unwrap();
    assert_eq!(m.add("[12]3", 2), Err(RegisterError::PathAlreadyExists));
    assert_eq!(m.get("13").unwrap(), Some(&2));
    assert_eq!(m.get("23").unwrap(), Some(&1));
}

#[test]
fn test_values_can_be_str_references() {
    let mut m: Matcher<&str> = Matcher::new();
    m.add("4[05]", "forty-ish").unwrap();
    assert_eq!(m.get("40").unwrap(), Some(&"forty-ish"));
    assert_eq!(m.get("45").unwrap(), Some(&"forty-ish"));
    assert_eq!(m.get("44").unwrap(), None);
}

#[test]
fn test_deep_probe_redirects_queries() {
    // A repeatable state also accepts any digit one of its children
    // accepts.  After "[3]+[5]+3" the repeatable 3-state at the top has a
    // repeatable 5-child whose own child is a 3-state, so that 5-child
    // accepts 3 too.  Registering "33" then stores its value on the
    // self-looping top state, but a query walks into the 5-child (children
    // are tried before the self-loop) and finds nothing: the two
    // registrations are accepted as compatible, yet "33" itself misses.
    let mut m: Matcher<i32> = Matcher::new();
    m.add("[3]+[5]+3", 1).unwrap();
    assert_eq!(m.add("33", 2), Ok(()));
    assert_eq!(m.get("33").unwrap(), None);
    assert_eq!(m.get("353").unwrap(), Some(&1));
}

#[test]
fn test_repeated_prefix_expansion_can_miss() {
    // "[3]+[5]+3" accepts three-then-five runs ending in 3.  Its automaton
    // is a repeatable 3-state over a repeatable 5-state over an exact
    // 3-state.  A query prefers children over the self-loop, so a run of
    // three leading 3s is sent through the 5-state into the final 3-state
    // too early and gets stuck: not every string of the family is found.
    let mut m: Matcher<i32> = Matcher::new();
    m.add("[3]+[5]+3", 1).unwrap();
    assert_eq!(m.get("353").unwrap(), Some(&1));
    assert_eq!(m.get("3353").unwrap(), Some(&1));
    assert_eq!(m.get("33353").unwrap(), None);
}

#[test]
fn test_non_ascii_character_is_invalid() {
    let mut m: Matcher<i32> = Matcher::new();
    m.add("12", 1).unwrap();
    assert_eq!(m.get("1é"), Err(MapError::InvalidDigit('é')));
}
