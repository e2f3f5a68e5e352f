//! The evaluator's errors and its integer and literal arithmetic.

use scarpet::ast::AssignOp;
use scarpet::vm::{
    VmError, accepts_arg_count, destructure_split, int_literal_value, int_range_len, int_range_term,
    int_rem, match_groups, regex_match, string_literal_value, wrap_index, MatchOutcome, destructure_op,
};

#[test]
fn display_is_human_readable() {
    assert_eq!(VmError::UnknownFunction.message(), "unknown function");
    assert_eq!(VmError::DivisionByZero.message(), "division by zero");
    assert_eq!(
        VmError::StdoutWrite.message(),
        "failed to write to standard output"
    );
    for err in [
        VmError::PoisonedLock,
        VmError::IncomparableMap,
        VmError::ExpectedNumber,
        VmError::DivisionByZero,
        VmError::MapEntryNotPair,
        VmError::InvalidPattern,
        VmError::UnknownFunction,
        VmError::WrongArgCount,
        VmError::ExpectedList,
        VmError::TooManyValuesToUnpack,
        VmError::TooFewValuesToUnpack,
        VmError::NotAssignable,
        VmError::NotAContainer,
        VmError::ImmutableList,
        VmError::IndexOutOfRange,
        VmError::StdoutWrite,
    ] {
        let msg = err.message();
        assert!(!msg.is_empty(), "{err:?} has an empty message");
        assert!(
            !msg.chars().next().unwrap().is_ascii_uppercase(),
            "{err:?} message should read as a phrase, got {msg:?}"
        );
    }
}

#[test]
fn string_literal_strips_quotes_and_expands_escapes() {
    assert_eq!(string_literal_value("'hi'"), "hi");
    assert_eq!(string_literal_value("''"), "");
    assert_eq!(string_literal_value("'a\\nb'"), "a\nb");
    assert_eq!(string_literal_value("'a\\tb'"), "a\tb");
    assert_eq!(string_literal_value("'\\\\'"), "\\");
    assert_eq!(string_literal_value("'it\\'s'"), "it's");
    // Any other escaped character stands for itself.
    assert_eq!(string_literal_value("'\\q'"), "q");
    assert_eq!(string_literal_value("'héllo wörld'"), "héllo wörld");
}

#[test]
fn string_literal_without_a_quote_pair_is_kept_whole() {
    assert_eq!(string_literal_value("'"), "'");
    assert_eq!(string_literal_value("'ab"), "'ab");
    // A lone trailing backslash stays a backslash.
    assert_eq!(string_literal_value("ab\\"), "ab\\");
}

#[test]
fn int_literal_reads_decimal_and_hex() {
    assert_eq!(int_literal_value("42"), Some(42));
    assert_eq!(int_literal_value("0"), Some(0));
    assert_eq!(int_literal_value("0xff"), Some(255));
    assert_eq!(int_literal_value("0XFF"), Some(255));
    assert_eq!(int_literal_value("0x7fffffffffffffff"), Some(i64::MAX));
    assert_eq!(int_literal_value("9223372036854775807"), Some(i64::MAX));
}

#[test]
fn int_literal_leaves_fractions_and_overflow_to_floats() {
    assert_eq!(int_literal_value("1.5"), None);
    assert_eq!(int_literal_value("1e-10"), None);
    assert_eq!(int_literal_value("9223372036854775808"), None);
    assert_eq!(int_literal_value("0x"), None);
    assert_eq!(int_literal_value(""), None);
}

#[test]
fn int_rem_floors_with_divisor_sign() {
    assert_eq!(int_rem(5, 3), Ok(2));
    assert_eq!(int_rem(-5, 3), Ok(1));
    assert_eq!(int_rem(5, -3), Ok(-1));
    assert_eq!(int_rem(-5, -3), Ok(-2));
    assert_eq!(int_rem(6, -3), Ok(0));
    assert_eq!(int_rem(i64::MIN, 7), Ok(6));
}

#[test]
fn int_rem_takes_every_pair_of_longs() {
    assert_eq!(int_rem(i64::MIN, -1), Ok(0));
    assert_eq!(int_rem(i64::MAX, -1), Ok(0));
    assert_eq!(int_rem(i64::MAX, i64::MIN), Ok(-1));
    assert_eq!(int_rem(i64::MIN, i64::MAX), Ok(i64::MAX - 1));
    assert_eq!(int_rem(-1, i64::MAX), Ok(i64::MAX - 1));
    assert_eq!(int_rem(1, i64::MIN), Ok(i64::MIN + 1));
    assert_eq!(int_rem(i64::MIN, i64::MIN), Ok(0));
}

#[test]
fn int_rem_by_zero_is_an_error() {
    assert_eq!(int_rem(1, 0), Err(VmError::DivisionByZero));
}

#[test]
fn wrap_index_cycles_both_ways() {
    assert_eq!(wrap_index(1, 3), 1);
    assert_eq!(wrap_index(-1, 3), 2);
    assert_eq!(wrap_index(5, 3), 2);
    assert_eq!(wrap_index(-4, 3), 2);
    assert_eq!(wrap_index(999_999_999, 1_000_000_000), 999_999_999);
    assert_eq!(wrap_index(i64::MIN, 1), 0);
}

#[test]
fn destructure_split_checks_arity() {
    assert_eq!(
        destructure_split(Some(2), 1, None),
        Err(VmError::TooManyValuesToUnpack)
    );
    assert_eq!(
        destructure_split(Some(1), 2, None),
        Err(VmError::TooFewValuesToUnpack)
    );
    assert_eq!(destructure_split(Some(2), 2, None), Ok((2, 2)));
    assert_eq!(destructure_split(Some(5), 1, Some(1)), Ok((1, 4)));
    assert_eq!(destructure_split(Some(2), 1, Some(1)), Ok((1, 1)));
    assert_eq!(
        destructure_split(Some(1), 1, Some(1)),
        Err(VmError::TooFewValuesToUnpack)
    );
}

#[test]
fn destructure_split_needs_a_list() {
    assert_eq!(destructure_split(None, 1, None), Err(VmError::ExpectedList));
    assert_eq!(destructure_split(None, 0, Some(0)), Err(VmError::ExpectedList));
}

#[test]
fn destructure_op_rejects_swap_and_adding_into_a_rest() {
    assert_eq!(destructure_op(AssignOp::Swap, false), Err(VmError::NotAssignable));
    assert_eq!(destructure_op(AssignOp::Swap, true), Err(VmError::NotAssignable));
    assert_eq!(destructure_op(AssignOp::Add, true), Err(VmError::NotAssignable));
    assert_eq!(destructure_op(AssignOp::Add, false), Ok(()));
    assert_eq!(destructure_op(AssignOp::Assign, true), Ok(()));
}

#[test]
fn int_range_len_spans_the_whole_long_range() {
    assert_eq!(int_range_len(i64::MIN, i64::MAX, i64::MAX), 3);
    assert_eq!(int_range_len(i64::MAX, i64::MIN, i64::MIN), 2);
    assert_eq!(int_range_len(i64::MIN, i64::MAX, 1 << 62), 4);
    assert_eq!(int_range_len(i64::MAX, i64::MIN, -(1 << 62)), 4);
    assert_eq!(int_range_len(0, 0, i64::MIN), 0);
    assert_eq!(int_range_len(-5, i64::MAX, i64::MIN), 0);
}

#[test]
fn int_range_len_counts_terms_short_of_the_end() {
    assert_eq!(int_range_len(0, 5, 1), 5);
    assert_eq!(int_range_len(2, 6, 1), 4);
    assert_eq!(int_range_len(0, 10, 2), 5);
    assert_eq!(int_range_len(0, 10, 3), 4);
    assert_eq!(int_range_len(5, 0, -1), 5);
    assert_eq!(int_range_len(5, 0, -2), 3);
    assert_eq!(int_range_len(0, 1_000_000_000, 1), 1_000_000_000);
}

#[test]
fn int_range_len_is_empty_when_the_step_heads_away() {
    assert_eq!(int_range_len(5, 0, 1), 0);
    assert_eq!(int_range_len(0, 5, -1), 0);
    assert_eq!(int_range_len(0, 5, 0), 0);
    assert_eq!(int_range_len(0, 0, 1), 0);
    assert_eq!(int_range_len(0, 0, -1), 0);
}

#[test]
fn int_range_term_steps_from_the_start() {
    assert_eq!(int_range_term(0, 1, 3), 3);
    assert_eq!(int_range_term(5, -1, 4), 1);
    assert_eq!(int_range_term(1, 2, 3), 7);
    assert_eq!(int_range_term(i64::MAX, 1, 1), i64::MIN);
}

#[test]
fn arg_count_is_exact_without_rest() {
    assert!(accepts_arg_count(1, 1, false));
    assert!(!accepts_arg_count(2, 1, false));
    assert!(!accepts_arg_count(0, 1, false));
    assert!(accepts_arg_count(1, 1, true));
    assert!(accepts_arg_count(3, 1, true));
    assert!(!accepts_arg_count(0, 1, true));
}

#[test]
fn regex_match_without_groups_gives_the_whole_match() {
    assert_eq!(
        regex_match("[0-9]+", "ab123cd45"),
        Ok(MatchOutcome::One(Some("123".to_string())))
    );
}

#[test]
fn regex_match_with_one_group_gives_that_group() {
    assert_eq!(
        regex_match("b([0-9])", "a1b2c3"),
        Ok(MatchOutcome::One(Some("2".to_string())))
    );
    assert_eq!(
        regex_match("a(x)?", "a1"),
        Ok(MatchOutcome::One(None))
    );
}

#[test]
fn regex_match_with_several_groups_gives_them_in_order() {
    assert_eq!(
        regex_match("([a-z])([0-9])(x)?", "a1b2"),
        Ok(MatchOutcome::Many(vec![
            Some("a".to_string()),
            Some("1".to_string()),
            None
        ]))
    );
}

#[test]
fn regex_match_without_a_match_is_no_match() {
    assert_eq!(regex_match("z", "a1b2"), Ok(MatchOutcome::NoMatch));
}

#[test]
fn regex_match_with_a_bad_pattern_is_invalid() {
    assert_eq!(regex_match("(", "a1b2"), Err(VmError::InvalidPattern));
}

#[test]
fn match_groups_picks_by_group_count() {
    assert_eq!(
        match_groups(vec![Some("ab".to_string())]),
        MatchOutcome::One(Some("ab".to_string()))
    );
    assert_eq!(
        match_groups(vec![Some("ab".to_string()), None]),
        MatchOutcome::One(None)
    );
    assert_eq!(
        match_groups(vec![Some("ab".to_string()), Some("a".to_string()), Some("b".to_string())]),
        MatchOutcome::Many(vec![Some("a".to_string()), Some("b".to_string())])
    );
}
