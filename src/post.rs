//! A small pipeline language that reduces a command's output to one token:
//! stages `line N` and `field N`, joined by `|`, run left to right.
use vstd::prelude::*;

use crate::text::{
    all_digits, chars_eq, chars_of, digits_value, is_digit, is_space, lemma_split_concat,
    lemma_split_nonempty, lemma_split_prepend, lemma_split_without_sep, lemma_trim_prepend_space,
    lemma_trim_push_space, trim_end, trim_start, parse_u32, split_chars,
    split_on, string_of, trim, trim_chars,
};

verus! {

/// One stage of a pipeline.
#[derive(PartialEq, Eq, Structural, Clone, Copy, Debug)]
pub enum Operation {
    /// The line at this index, counting from zero.
    Line(u32),
    /// The single-space-delimited field at this index, counting from zero.
    Field(u32),
}

/// A stage that names no known operation, or whose index is not a number.
#[derive(Debug)]
pub struct ParseError {
    pub reason: String,
}

impl ParseError {
    pub fn new(reason: &str) -> (r: ParseError)
        ensures
            r.reason@ == reason@,
    {
        ParseError { reason: reason.to_owned() }
    }
}

/// Why a pipeline produced no result.
#[derive(Debug)]
pub enum RunError {
    /// Some stage does not parse.
    Parse(ParseError),
    /// A stage asked for a line or field that is not there.
    OutOfRange,
}

/// What running a pipeline over a text yields.
pub enum Evaluation {
    Value(Seq<char>),
    BadStage,
    OutOfRange,
}

pub open spec fn line_word() -> Seq<char> {
    seq!['l', 'i', 'n', 'e']
}

pub open spec fn field_word() -> Seq<char> {
    seq!['f', 'i', 'e', 'l', 'd']
}

/// The operation a stage denotes: exactly two tokens, separated by one
/// space, the name of the operation and then its index in decimal digits.
pub open spec fn parse_spec(stage: Seq<char>) -> Option<Operation> {
    let tokens = split_on(stage, ' ');
    let name = tokens[0];
    let index = tokens[1];
    if tokens.len() == 2 && all_digits(index) && digits_value(index) <= u32::MAX {
        if name == line_word() {
            Some(Operation::Line(digits_value(index) as u32))
        } else if name == field_word() {
            Some(Operation::Field(digits_value(index) as u32))
        } else {
            None
        }
    } else {
        None
    }
}

/// The `n`-th piece of `s` split at `sep`, if there is one.
pub open spec fn nth_piece(s: Seq<char>, sep: char, n: nat) -> Option<Seq<char>> {
    let parts = split_on(s, sep);
    if n < parts.len() {
        Some(parts[n as int])
    } else {
        None
    }
}

pub open spec fn apply_op(input: Seq<char>, op: Operation) -> Option<Seq<char>> {
    match op {
        Operation::Line(n) => nth_piece(input, '\n', n as nat),
        Operation::Field(n) => nth_piece(input, ' ', n as nat),
    }
}

/// The operations applied in order, each to the output of the one before.
pub open spec fn apply_ops(input: Seq<char>, ops: Seq<Operation>) -> Option<Seq<char>>
    decreases ops.len(),
{
    if ops.len() == 0 {
        Some(input)
    } else {
        match apply_ops(input, ops.drop_last()) {
            Some(mid) => apply_op(mid, ops.last()),
            None => None,
        }
    }
}

/// The trimmed stages of a pipeline.
pub open spec fn stages(pipeline: Seq<char>) -> Seq<Seq<char>> {
    split_on(pipeline, '|').map_values(|st: Seq<char>| trim(st))
}

/// The operations of all stages, if every stage parses.
pub open spec fn parse_all(stages: Seq<Seq<char>>) -> Option<Seq<Operation>>
    decreases stages.len(),
{
    if stages.len() == 0 {
        Some(Seq::empty())
    } else {
        match (parse_all(stages.drop_last()), parse_spec(stages.last())) {
            (Some(ops), Some(op)) => Some(ops.push(op)),
            _ => None,
        }
    }
}

/// Running `pipeline` over `text`: a bad stage anywhere fails the whole
/// pipeline before anything runs.
pub open spec fn evaluation(text: Seq<char>, pipeline: Seq<char>) -> Evaluation {
    match parse_all(stages(pipeline)) {
        None => Evaluation::BadStage,
        Some(ops) => match apply_ops(text, ops) {
            Some(v) => Evaluation::Value(v),
            None => Evaluation::OutOfRange,
        },
    }
}

fn parse_chars(stage: &Vec<char>) -> (r: Option<Operation>)
    ensures
        r == parse_spec(stage@),
{
    let mut tokens = split_chars(stage, ' ');
    proof {
        lemma_split_nonempty(stage@, ' ');
    }
    if tokens.len() != 2 {
        return None;
    }
    let index = match parse_u32(&tokens[1]) {
        Some(v) => v,
        None => {
            return None;
        },
    };
    let name = tokens.swap_remove(0);
    if chars_eq(&name, &vec!['l', 'i', 'n', 'e']) {
        Some(Operation::Line(index))
    } else if chars_eq(&name, &vec!['f', 'i', 'e', 'l', 'd']) {
        Some(Operation::Field(index))
    } else {
        None
    }
}

/// Reads one stage, `line N` or `field N`.
pub fn parse(op_str: &str) -> (r: Result<Operation, ParseError>)
    ensures
        match r {
            Ok(op) => parse_spec(op_str@) == Some(op),
            Err(_) => parse_spec(op_str@) is None,
        },
{
    let stage = chars_of(op_str);
    match parse_chars(&stage) {
        Some(op) => Ok(op),
        None => Err(ParseError::new("no matching operations")),
    }
}

fn nth_piece_chars(input: &Vec<char>, sep: char, n: u32) -> (r: Option<Vec<char>>)
    ensures
        match r {
            Some(v) => nth_piece(input@, sep, n as nat) == Some(v@),
            None => nth_piece(input@, sep, n as nat) is None,
        },
{
    let mut parts = split_chars(input, sep);
    if (n as usize) < parts.len() {
        Some(parts.remove(n as usize))
    } else {
        None
    }
}

fn string_of_piece(piece: Option<Vec<char>>) -> (r: Option<String>)
    ensures
        match piece {
            Some(v) => r matches Some(s) && s@ == v@,
            None => r is None,
        },
{
    match piece {
        Some(v) => Some(string_of(&v)),
        None => None,
    }
}

/// The line of `input` at index `count`, if there is one.
pub fn head(input: &str, count: u32) -> (r: Option<String>)
    ensures
        match r {
            Some(s) => nth_piece(input@, '\n', count as nat) == Some(s@),
            None => nth_piece(input@, '\n', count as nat) is None,
        },
{
    string_of_piece(nth_piece_chars(&chars_of(input), '\n', count))
}

/// The single-space-delimited field of `input` at index `count`, if there is one.
pub fn cut(input: &str, count: u32) -> (r: Option<String>)
    ensures
        match r {
            Some(s) => nth_piece(input@, ' ', count as nat) == Some(s@),
            None => nth_piece(input@, ' ', count as nat) is None,
        },
{
    string_of_piece(nth_piece_chars(&chars_of(input), ' ', count))
}

fn run_op_chars(input: &Vec<char>, operation: Operation) -> (r: Option<Vec<char>>)
    ensures
        match r {
            Some(v) => apply_op(input@, operation) == Some(v@),
            None => apply_op(input@, operation) is None,
        },
{
    match operation {
        Operation::Line(count) => nth_piece_chars(input, '\n', count),
        Operation::Field(count) => nth_piece_chars(input, ' ', count),
    }
}

/// Applies one operation to `input`.
pub fn do_run_op(input: &str, operation: Operation) -> (r: Option<String>)
    ensures
        match r {
            Some(s) => apply_op(input@, operation) == Some(s@),
            None => apply_op(input@, operation) is None,
        },
{
    string_of_piece(run_op_chars(&chars_of(input), operation))
}


/// Running two lists of operations one after the other is running their
/// concatenation.
pub proof fn lemma_apply_ops_concat(input: Seq<char>, a: Seq<Operation>, b: Seq<Operation>)
    ensures
        apply_ops(input, a + b) == match apply_ops(input, a) {
            Some(mid) => apply_ops(mid, b),
            None => None,
        },
    decreases b.len(),
{
    if b.len() == 0 {
        assert(a + b =~= a);
    } else {
        assert((a + b).drop_last() =~= a + b.drop_last());
        lemma_apply_ops_concat(input, a, b.drop_last());
    }
}

/// The stages of two lists parse exactly when each list parses.
pub proof fn lemma_parse_all_concat(a: Seq<Seq<char>>, b: Seq<Seq<char>>)
    ensures
        parse_all(a + b) == match (parse_all(a), parse_all(b)) {
            (Some(x), Some(y)) => Some(x + y),
            _ => None,
        },
    decreases b.len(),
{
    if b.len() == 0 {
        assert(a + b =~= a);
        if let Some(x) = parse_all(a) {
            assert(x + Seq::<Operation>::empty() =~= x);
        }
    } else {
        assert((a + b).drop_last() =~= a + b.drop_last());
        lemma_parse_all_concat(a, b.drop_last());
        if let (Some(x), Some(y)) = (parse_all(a), parse_all(b.drop_last())) {
            if let Some(op) = parse_spec(b.last()) {
                assert((x + y).push(op) =~= x + y.push(op));
            }
        }
    }
}

/// Runs the pipeline `ops` over `cmd_output`.
pub fn do_run_ops(cmd_output: &str, ops: &str) -> (r: Result<String, RunError>)
    ensures
        match r {
            Ok(s) => evaluation(cmd_output@, ops@) == Evaluation::Value(s@),
            Err(RunError::Parse(_)) => evaluation(cmd_output@, ops@) == Evaluation::BadStage,
            Err(RunError::OutOfRange) => evaluation(cmd_output@, ops@) == Evaluation::OutOfRange,
        },
{
    let pieces = split_chars(&chars_of(ops), '|');
    let ghost all = stages(ops@);
    let mut parsed: Vec<Operation> = Vec::new();
    let mut i: usize = 0;
    assert(all.subrange(0, 0) =~= Seq::<Seq<char>>::empty());
    while i < pieces.len()
        invariant
            i <= pieces@.len(),
            all == stages(ops@),
            all.len() == pieces@.len(),
            forall|k: int| 0 <= k < all.len() ==> #[trigger] all[k] == trim(pieces@[k]@),
            parse_all(all.subrange(0, i as int)) == Some(parsed@),
        decreases pieces@.len() - i,
    {
        let stage = trim_chars(&pieces[i]);
        assert(all.subrange(0, i + 1).drop_last() =~= all.subrange(0, i as int));
        match parse_chars(&stage) {
            Some(op) => {
                parsed.push(op);
            },
            None => {
                proof {
                    lemma_parse_all_concat(
                        all.subrange(0, i + 1),
                        all.subrange(i + 1, all.len() as int),
                    );
                    assert(all.subrange(0, i + 1) + all.subrange(i + 1, all.len() as int) =~= all);
                }
                return Err(RunError::Parse(ParseError::new("no matching operations")));
            },
        }
        i += 1;
    }
    assert(all.subrange(0, all.len() as int) =~= all);
    let ghost text = cmd_output@;
    let mut cur = chars_of(cmd_output);
    let mut j: usize = 0;
    assert(parsed@.subrange(0, 0) =~= Seq::<Operation>::empty());
    while j < parsed.len()
        invariant
            j <= parsed@.len(),
            all == stages(ops@),
            text == cmd_output@,
            parse_all(all) == Some(parsed@),
            apply_ops(text, parsed@.subrange(0, j as int)) == Some(cur@),
        decreases parsed@.len() - j,
    {
        assert(parsed@.subrange(0, j + 1).drop_last() =~= parsed@.subrange(0, j as int));
        match run_op_chars(&cur, parsed[j]) {
            Some(v) => {
                cur = v;
            },
            None => {
                proof {
                    lemma_apply_ops_concat(
                        text,
                        parsed@.subrange(0, j + 1),
                        parsed@.subrange(j + 1, parsed@.len() as int),
                    );
                    assert(parsed@.subrange(0, j + 1) + parsed@.subrange(
                        j + 1,
                        parsed@.len() as int,
                    ) =~= parsed@);
                }
                return Err(RunError::OutOfRange);
            },
        }
        j += 1;
    }
    assert(parsed@.subrange(0, parsed@.len() as int) =~= parsed@);
    Ok(string_of(&cur))
}

/// Runs the pipeline `post` over the output `cmd_output` of a probe.
pub fn run_op(cmd_output: &str, post: &str) -> (r: Result<String, RunError>)
    ensures
        match r {
            Ok(s) => evaluation(cmd_output@, post@) == Evaluation::Value(s@),
            Err(RunError::Parse(_)) => evaluation(cmd_output@, post@) == Evaluation::BadStage,
            Err(RunError::OutOfRange) => evaluation(cmd_output@, post@) == Evaluation::OutOfRange,
        },
{
    do_run_ops(cmd_output, post)
}


proof fn lemma_single_stage(word: Seq<char>, digits: Seq<char>)
    requires
        word == line_word() || word == field_word(),
        all_digits(digits),
    ensures
        stages(word + seq![' '] + digits) == seq![word + seq![' '] + digits],
        split_on(word + seq![' '] + digits, ' ') == seq![word, digits],
{
    let p = word + seq![' '] + digits;
    assert(!p.contains('|')) by {
        if p.contains('|') {
            let i = choose|i: int| 0 <= i < p.len() && p[i] == '|';
            if i >= word.len() + 1 {
                assert(is_digit(digits[i - word.len() - 1]));
            }
        }
    }
    lemma_split_without_sep(p, '|');
    assert(!is_space(p[0]));
    assert(is_digit(digits[digits.len() - 1]));
    assert(p.last() == digits.last());
    assert(trim_start(p) == p);
    assert(trim_end(p) == p);
    assert(stages(p) =~= seq![p]);
    assert(!word.contains(' ')) by {
        if word.contains(' ') {
            let i = choose|i: int| 0 <= i < word.len() && word[i] == ' ';
        }
    }
    assert(!digits.contains(' ')) by {
        if digits.contains(' ') {
            let i = choose|i: int| 0 <= i < digits.len() && digits[i] == ' ';
            assert(is_digit(digits[i]));
        }
    }
    lemma_split_concat(word, digits, ' ');
    lemma_split_without_sep(word, ' ');
    lemma_split_without_sep(digits, ' ');
    assert(seq![word] + seq![digits] =~= seq![word, digits]);
}

/// The pipeline `line N` yields the line at index `N` of the text, counting
/// from zero, or fails as out of range when the text has no such line.
pub proof fn law_line_stage(text: Seq<char>, digits: Seq<char>)
    requires
        all_digits(digits),
        digits_value(digits) <= u32::MAX,
    ensures
        evaluation(text, line_word() + seq![' '] + digits) == match nth_piece(
            text,
            '\n',
            digits_value(digits),
        ) {
            Some(v) => Evaluation::Value(v),
            None => Evaluation::OutOfRange,
        },
{
    let p = line_word() + seq![' '] + digits;
    lemma_single_stage(line_word(), digits);
    let op = Operation::Line(digits_value(digits) as u32);
    assert(parse_spec(p) == Some(op));
    assert(seq![p].drop_last() =~= Seq::<Seq<char>>::empty());
    assert(seq![p].last() == p);
    assert(parse_all(Seq::<Seq<char>>::empty()) == Some(Seq::<Operation>::empty()));
    assert(parse_all(seq![p]) == Some(Seq::<Operation>::empty().push(op)));
    assert(seq![op].drop_last() =~= Seq::<Operation>::empty());
    assert(Seq::<Operation>::empty().push(op) =~= seq![op]);
    assert(apply_ops(text, Seq::<Operation>::empty()) == Some(text));
    assert(seq![op].last() == op);
}

/// The pipeline `field N` yields the single-space-delimited field at index
/// `N` of the text, counting from zero, or fails as out of range when the
/// text has no such field.
pub proof fn law_field_stage(text: Seq<char>, digits: Seq<char>)
    requires
        all_digits(digits),
        digits_value(digits) <= u32::MAX,
    ensures
        evaluation(text, field_word() + seq![' '] + digits) == match nth_piece(
            text,
            ' ',
            digits_value(digits),
        ) {
            Some(v) => Evaluation::Value(v),
            None => Evaluation::OutOfRange,
        },
{
    let p = field_word() + seq![' '] + digits;
    lemma_single_stage(field_word(), digits);
    let op = Operation::Field(digits_value(digits) as u32);
    assert(parse_spec(p) == Some(op));
    assert(seq![p].drop_last() =~= Seq::<Seq<char>>::empty());
    assert(seq![p].last() == p);
    assert(parse_all(Seq::<Seq<char>>::empty()) == Some(Seq::<Operation>::empty()));
    assert(parse_all(seq![p]) == Some(Seq::<Operation>::empty().push(op)));
    assert(seq![op].drop_last() =~= Seq::<Operation>::empty());
    assert(Seq::<Operation>::empty().push(op) =~= seq![op]);
    assert(apply_ops(text, Seq::<Operation>::empty()) == Some(text));
    assert(seq![op].last() == op);
}

/// Stages joined by `|` run left to right: the second pipeline runs over
/// what the first one yields. A bad stage on either side fails the whole.
pub proof fn law_pipe_composes(text: Seq<char>, p: Seq<char>, q: Seq<char>)
    ensures
        evaluation(text, p + seq!['|'] + q) == match evaluation(text, p) {
            Evaluation::Value(mid) => evaluation(mid, q),
            Evaluation::BadStage => Evaluation::BadStage,
            Evaluation::OutOfRange => if parse_all(stages(q)) is Some {
                Evaluation::OutOfRange
            } else {
                Evaluation::BadStage
            },
        },
{
    lemma_split_concat(p, q, '|');
    let sp = split_on(p, '|');
    let sq = split_on(q, '|');
    assert((sp + sq).map_values(|st: Seq<char>| trim(st)) =~= sp.map_values(
        |st: Seq<char>| trim(st),
    ) + sq.map_values(|st: Seq<char>| trim(st)));
    assert(stages(p + seq!['|'] + q) == stages(p) + stages(q));
    lemma_parse_all_concat(stages(p), stages(q));
    if let (Some(x), Some(y)) = (parse_all(stages(p)), parse_all(stages(q))) {
        lemma_apply_ops_concat(text, x, y);
    }
}

/// Spaces around the bar change nothing: `p | q` runs as `p|q` does, the
/// second pipeline over what the first one yields.
pub proof fn law_spaced_pipe_composes(text: Seq<char>, p: Seq<char>, q: Seq<char>)
    ensures
        evaluation(text, p + seq![' ', '|', ' '] + q) == match evaluation(text, p) {
            Evaluation::Value(mid) => evaluation(mid, q),
            Evaluation::BadStage => Evaluation::BadStage,
            Evaluation::OutOfRange => if parse_all(stages(q)) is Some {
                Evaluation::OutOfRange
            } else {
                Evaluation::BadStage
            },
        },
{
    let a = p.push(' ');
    let b = seq![' '] + q;
    assert(p + seq![' ', '|', ' '] + q =~= a + seq!['|'] + b);
    lemma_split_concat(a, b, '|');
    lemma_split_concat(p, q, '|');
    lemma_split_prepend(' ', q, '|');
    lemma_split_nonempty(p, '|');
    lemma_split_nonempty(q, '|');
    assert(a.drop_last() =~= p);
    let sp = split_on(p, '|');
    let sq = split_on(q, '|');
    let sa = split_on(a, '|');
    let sb = split_on(b, '|');
    assert(sa == sp.update(sp.len() - 1, sp.last().push(' ')));
    lemma_trim_push_space(sp.last());
    lemma_trim_prepend_space(sq[0]);
    let spaced = p + seq![' ', '|', ' '] + q;
    let bare = p + seq!['|'] + q;
    assert(stages(spaced) =~= stages(bare)) by {
        assert(split_on(spaced, '|') == sa + sb);
        assert(split_on(bare, '|') == sp + sq);
        assert forall|i: int| 0 <= i < (sp + sq).len() implies #[trigger] trim((sa + sb)[i]) == trim(
            (sp + sq)[i],
        ) by {
            if i < sp.len() - 1 {
                assert((sa + sb)[i] == (sp + sq)[i]);
            } else if i == sp.len() - 1 {
                assert((sa + sb)[i] == sp.last().push(' '));
            } else if i == sp.len() {
                assert((sa + sb)[i] == seq![' '] + sq[0]);
            } else {
                assert((sa + sb)[i] == (sp + sq)[i]);
            }
        }
    }
    law_pipe_composes(text, p, q);
}

/// A stage that is not two space-separated tokens, whose first token names
/// no operation, or whose second token is not made of digits, fails the
/// pipeline as a bad stage, wherever it stands.
pub proof fn law_bad_stage_fails(text: Seq<char>, pipeline: Seq<char>, k: int)
    requires
        0 <= k < stages(pipeline).len(),
        ({
            let tokens = split_on(stages(pipeline)[k], ' ');
            tokens.len() != 2 || (tokens[0] != line_word() && tokens[0] != field_word())
                || !all_digits(tokens[1])
        }),
    ensures
        evaluation(text, pipeline) == Evaluation::BadStage,
{
    let all = stages(pipeline);
    assert(parse_spec(all[k]) is None);
    assert(all.subrange(0, k + 1).drop_last() =~= all.subrange(0, k));
    assert(all.subrange(0, k + 1).last() == all[k]);
    assert(parse_all(all.subrange(0, k + 1)) is None);
    lemma_parse_all_concat(all.subrange(0, k + 1), all.subrange(k + 1, all.len() as int));
    assert(all.subrange(0, k + 1) + all.subrange(k + 1, all.len() as int) =~= all);
}

} // verus!
