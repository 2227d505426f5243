use lhn::post::{cut, do_run_op, do_run_ops, head, parse, run_op, Operation, ParseError, RunError};

#[test]
fn line_stage_picks_line() {
    assert_eq!(run_op("a\nb\nc", "line 1").unwrap(), "b");
}

#[test]
fn line_stage_first_and_last() {
    assert_eq!(run_op("a\nb\nc", "line 0").unwrap(), "a");
    assert_eq!(run_op("a\nb\nc", "line 2").unwrap(), "c");
}

#[test]
fn field_stage_picks_field() {
    assert_eq!(run_op("v1.2.3 stable", "field 0").unwrap(), "v1.2.3");
    assert_eq!(run_op("v1.2.3 stable", "field 1").unwrap(), "stable");
}

#[test]
fn stages_compose_left_to_right() {
    assert_eq!(run_op("a b\nc d", "line 1 | field 1").unwrap(), "d");
    assert_eq!(run_op("a b\nc d", "line 0|field 0").unwrap(), "a");
}

#[test]
fn unknown_operation_is_parse_error() {
    assert!(matches!(run_op("a\nb", "head 1"), Err(RunError::Parse(_))));
    assert!(matches!(run_op("a\nb", "line 0 | tail 1"), Err(RunError::Parse(_))));
}

#[test]
fn non_digit_index_is_parse_error() {
    assert!(matches!(run_op("a\nb", "line x"), Err(RunError::Parse(_))));
    assert!(matches!(run_op("a\nb", "line -1"), Err(RunError::Parse(_))));
    assert!(matches!(run_op("a\nb", "field 1a"), Err(RunError::Parse(_))));
    assert!(matches!(run_op("a\nb", "line"), Err(RunError::Parse(_))));
    assert!(matches!(run_op("a\nb", "line x 1"), Err(RunError::Parse(_))));
}

#[test]
fn bad_later_stage_wins_over_out_of_range() {
    assert!(matches!(run_op("a", "line 5 | nope 0"), Err(RunError::Parse(_))));
}

#[test]
fn empty_pipeline_is_parse_error() {
    assert!(matches!(run_op("a", ""), Err(RunError::Parse(_))));
}

#[test]
fn index_too_large_for_u32_is_parse_error() {
    assert!(matches!(run_op("a", "line 4294967296"), Err(RunError::Parse(_))));
    assert!(matches!(run_op("a", "line 4294967295"), Err(RunError::OutOfRange)));
}

#[test]
fn out_of_range_stage() {
    assert!(matches!(run_op("a\nb", "line 2"), Err(RunError::OutOfRange)));
    assert!(matches!(run_op("a b", "field 2"), Err(RunError::OutOfRange)));
}

#[test]
fn stage_is_trimmed() {
    assert_eq!(run_op("x y", "  field 1\t").unwrap(), "y");
}

#[test]
fn field_split_keeps_empty_fields() {
    assert_eq!(run_op("a  b", "field 1").unwrap(), "");
    assert_eq!(run_op("a  b", "field 2").unwrap(), "b");
}

#[test]
fn parse_reads_operations() {
    assert_eq!(parse("line 3").unwrap(), Operation::Line(3));
    assert_eq!(parse("field 12").unwrap(), Operation::Field(12));
    assert!(parse("line  7").is_err());
    assert!(parse("line x 3").is_err());
    assert!(parse("field 1 2").is_err());
    assert!(parse("column 1").is_err());
    assert_eq!(parse("cut 1").unwrap_err().reason, "no matching operations");
}

#[test]
fn parse_error_keeps_reason() {
    assert_eq!(ParseError::new("why").reason, "why");
}

#[test]
fn head_and_cut() {
    assert_eq!(head("one\ntwo", 1), Some("two".to_string()));
    assert_eq!(head("one\ntwo", 2), None);
    assert_eq!(head("", 0), Some(String::new()));
    assert_eq!(cut("k=v w", 1), Some("w".to_string()));
    assert_eq!(cut("k=v w", 3), None);
}

#[test]
fn trailing_newline_gives_empty_last_line() {
    assert_eq!(head("x\n", 1), Some(String::new()));
}

#[test]
fn do_run_op_dispatches() {
    assert_eq!(do_run_op("p q\nr s", Operation::Line(1)), Some("r s".to_string()));
    assert_eq!(do_run_op("p q\nr s", Operation::Field(1)), Some("q\nr".to_string()));
}

#[test]
fn do_run_ops_matches_run_op() {
    assert_eq!(do_run_ops("go version go1.21.0 linux/amd64", "field 2").unwrap(), "go1.21.0");
}

#[test]
fn unicode_text_is_kept() {
    assert_eq!(run_op("ä ö\nü ß", "line 1 | field 1").unwrap(), "ß");
}
