use vstd::prelude::*;

use crate::model::{
    count_newlines, digits_end, eof_token, find_char, ident_end, is_alnum, is_alpha, is_digit,
    is_op_start, is_punct, keyword_kind, lemma_count_newlines_bounds, lemma_count_newlines_none,
    lemma_count_newlines_single, lemma_count_newlines_split, lemma_digits_end,
    lemma_digits_end_upto, lemma_find_char, lemma_ident_end, lemma_ident_end_upto,
    lemma_number_end, lexically_clean, number_end, scan_from, SpecKind, SpecToken,
};

verus! {

/// Every token's line number is at least `lo`.
pub open spec fn lines_lower_bounded(ts: Seq<SpecToken>, lo: int) -> bool {
    forall|k: int| 0 <= k < ts.len() ==> lo <= (#[trigger] ts[k]).line
}

/// Line numbers never decrease along the token sequence.
pub open spec fn lines_monotone(ts: Seq<SpecToken>) -> bool {
    forall|j: int, k: int|
        0 <= j <= k < ts.len() ==> (#[trigger] ts[j]).line <= (#[trigger] ts[k]).line
}

proof fn lemma_lines_cons(t: SpecToken, rest: Seq<SpecToken>, lo: int, mid: int)
    requires
        t.line == lo,
        lo <= mid,
        lines_lower_bounded(rest, mid),
        lines_monotone(rest),
    ensures
        lines_lower_bounded(seq![t] + rest, lo),
        lines_monotone(seq![t] + rest),
{
    let all = seq![t] + rest;
    assert forall|k: int| 0 <= k < all.len() implies lo <= (#[trigger] all[k]).line by {
        if k > 0 {
            assert(all[k] == rest[k - 1]);
        }
    }
    assert forall|j: int, k: int|
        0 <= j <= k < all.len() implies (#[trigger] all[j]).line <= (#[trigger] all[k]).line by {
        if j > 0 {
            assert(all[j] == rest[j - 1]);
            assert(all[k] == rest[k - 1]);
        } else if k > 0 {
            assert(all[k] == rest[k - 1]);
        }
    }
}

/// From any position, the scan produces at least one token, and the last one
/// is the End-of-Input token.
pub proof fn lemma_scan_from_ends_with_eof(s: Seq<char>, i: int, line: int)
    requires
        0 <= i <= s.len(),
    ensures
        scan_from(s, i, line).tokens.len() > 0,
        scan_from(s, i, line).tokens.last().kind is EndOfInput,
    decreases s.len() - i,
{
    if i < s.len() {
        let c = s[i];
        if is_punct(c) {
            lemma_scan_from_ends_with_eof(s, i + 1, line);
        } else if is_op_start(c) {
            if i + 1 < s.len() && s[i + 1] == '=' {
                lemma_scan_from_ends_with_eof(s, i + 2, line);
            } else {
                lemma_scan_from_ends_with_eof(s, i + 1, line);
            }
        } else if c == '/' {
            if i + 1 < s.len() && s[i + 1] == '/' {
                lemma_find_char(s, i + 2, '\n');
                let j = find_char(s, i + 2, '\n');
                if j < s.len() {
                    lemma_scan_from_ends_with_eof(s, j + 1, line + 1);
                } else {
                    lemma_scan_from_ends_with_eof(s, j, line);
                }
            } else {
                lemma_scan_from_ends_with_eof(s, i + 1, line);
            }
        } else if c == ' ' || c == '\r' || c == '\t' {
            lemma_scan_from_ends_with_eof(s, i + 1, line);
        } else if c == '\n' {
            lemma_scan_from_ends_with_eof(s, i + 1, line + 1);
        } else if c == '"' {
            lemma_find_char(s, i + 1, '"');
            let j = find_char(s, i + 1, '"');
            if j < s.len() {
                lemma_scan_from_ends_with_eof(
                    s,
                    j + 1,
                    line + count_newlines(s.subrange(i + 1, j)),
                );
            } else {
                lemma_scan_from_ends_with_eof(
                    s,
                    s.len() as int,
                    line + count_newlines(s.subrange(i + 1, s.len() as int)),
                );
            }
        } else if is_digit(c) {
            lemma_number_end(s, i);
            lemma_scan_from_ends_with_eof(s, number_end(s, i), line);
        } else if is_alpha(c) {
            lemma_ident_end(s, i);
            lemma_scan_from_ends_with_eof(s, ident_end(s, i), line);
        } else {
            lemma_scan_from_ends_with_eof(s, i + 1, line);
        }
    }
}

/// Law: for every input, the token sequence is non-empty and its last token
/// is End-of-Input.
pub proof fn lemma_tokens_end_with_eof(s: Seq<char>)
    ensures
        scan_from(s, 0, 1).tokens.len() > 0,
        scan_from(s, 0, 1).tokens.last().kind is EndOfInput,
{
    lemma_scan_from_ends_with_eof(s, 0, 1);
}

/// A lexically clean remainder is scanned without a single diagnostic.
pub proof fn lemma_clean_scan_from_has_no_diagnostics(s: Seq<char>, i: int, line: int)
    requires
        0 <= i <= s.len(),
        lexically_clean(s, i),
    ensures
        scan_from(s, i, line).diags == Seq::<crate::model::SpecDiagnostic>::empty(),
    decreases s.len() - i,
{
    if i < s.len() {
        let c = s[i];
        if is_punct(c) {
            lemma_clean_scan_from_has_no_diagnostics(s, i + 1, line);
        } else if is_op_start(c) {
            if i + 1 < s.len() && s[i + 1] == '=' {
                lemma_clean_scan_from_has_no_diagnostics(s, i + 2, line);
            } else {
                lemma_clean_scan_from_has_no_diagnostics(s, i + 1, line);
            }
        } else if c == '/' {
            if i + 1 < s.len() && s[i + 1] == '/' {
                lemma_find_char(s, i + 2, '\n');
                let j = find_char(s, i + 2, '\n');
                if j < s.len() {
                    lemma_clean_scan_from_has_no_diagnostics(s, j + 1, line + 1);
                } else {
                    assert(lexically_clean(s, j));
                    lemma_clean_scan_from_has_no_diagnostics(s, j, line);
                }
            } else {
                lemma_clean_scan_from_has_no_diagnostics(s, i + 1, line);
            }
        } else if c == ' ' || c == '\r' || c == '\t' {
            lemma_clean_scan_from_has_no_diagnostics(s, i + 1, line);
        } else if c == '\n' {
            lemma_clean_scan_from_has_no_diagnostics(s, i + 1, line + 1);
        } else if c == '"' {
            lemma_find_char(s, i + 1, '"');
            let j = find_char(s, i + 1, '"');
            lemma_clean_scan_from_has_no_diagnostics(
                s,
                j + 1,
                line + count_newlines(s.subrange(i + 1, j)),
            );
        } else if is_digit(c) {
            lemma_number_end(s, i);
            lemma_clean_scan_from_has_no_diagnostics(s, number_end(s, i), line);
        } else if is_alpha(c) {
            lemma_ident_end(s, i);
            lemma_clean_scan_from_has_no_diagnostics(s, ident_end(s, i), line);
        }
    }
}

/// Law: for every input whose string literals are all terminated and whose
/// characters all match a scanning rule, the diagnostic list is empty.
pub proof fn lemma_clean_input_has_no_diagnostics(s: Seq<char>)
    requires
        lexically_clean(s, 0),
    ensures
        scan_from(s, 0, 1).diags == Seq::<crate::model::SpecDiagnostic>::empty(),
{
    lemma_clean_scan_from_has_no_diagnostics(s, 0, 1);
}

/// From any position: every produced token's line is at least the current
/// one, lines never decrease along the sequence, and the final token's line
/// is the current one plus the number of newline characters left to consume.
pub proof fn lemma_scan_from_lines(s: Seq<char>, i: int, line: int)
    requires
        0 <= i <= s.len(),
    ensures
        lines_lower_bounded(scan_from(s, i, line).tokens, line),
        lines_monotone(scan_from(s, i, line).tokens),
        scan_from(s, i, line).tokens.last().line == line + count_newlines(
            s.subrange(i, s.len() as int),
        ),
    decreases s.len() - i,
{
    let len = s.len() as int;
    if i >= s.len() {
        assert(s.subrange(i, len) =~= Seq::<char>::empty());
        let toks = scan_from(s, i, line).tokens;
        assert(toks.last().line == line);
        assert(lines_lower_bounded(toks, line));
    } else {
        let c = s[i];
        if is_punct(c) {
            lemma_scan_from_lines(s, i + 1, line);
            lemma_scan_from_ends_with_eof(s, i + 1, line);
            lemma_count_newlines_split(s, i, i + 1, len);
            lemma_count_newlines_single(s, i);
            step_token(s, i, line, i + 1, line);
        } else if is_op_start(c) {
            if i + 1 < s.len() && s[i + 1] == '=' {
                lemma_scan_from_lines(s, i + 2, line);
                lemma_scan_from_ends_with_eof(s, i + 2, line);
                lemma_count_newlines_split(s, i, i + 2, len);
                lemma_count_newlines_none(s, i, i + 2);
                step_token(s, i, line, i + 2, line);
            } else {
                lemma_scan_from_lines(s, i + 1, line);
                lemma_scan_from_ends_with_eof(s, i + 1, line);
                lemma_count_newlines_split(s, i, i + 1, len);
                lemma_count_newlines_single(s, i);
                step_token(s, i, line, i + 1, line);
            }
        } else if c == '/' {
            if i + 1 < s.len() && s[i + 1] == '/' {
                lemma_find_char(s, i + 2, '\n');
                let j = find_char(s, i + 2, '\n');
                if j < s.len() {
                    lemma_scan_from_lines(s, j + 1, line + 1);
                    lemma_count_newlines_split(s, i, j + 1, len);
                    lemma_count_newlines_split(s, i, j, j + 1);
                    lemma_count_newlines_none(s, i, j);
                    lemma_count_newlines_single(s, j);
                } else {
                    lemma_scan_from_lines(s, j, line);
                    lemma_count_newlines_none(s, i, len);
                    assert(count_newlines(s.subrange(j, len)) == 0) by {
                        lemma_count_newlines_none(s, j, len);
                    }
                }
            } else {
                lemma_scan_from_lines(s, i + 1, line);
                lemma_scan_from_ends_with_eof(s, i + 1, line);
                lemma_count_newlines_split(s, i, i + 1, len);
                lemma_count_newlines_single(s, i);
                step_token(s, i, line, i + 1, line);
            }
        } else if c == ' ' || c == '\r' || c == '\t' {
            lemma_scan_from_lines(s, i + 1, line);
            lemma_count_newlines_split(s, i, i + 1, len);
            lemma_count_newlines_single(s, i);
        } else if c == '\n' {
            lemma_scan_from_lines(s, i + 1, line + 1);
            lemma_count_newlines_split(s, i, i + 1, len);
            lemma_count_newlines_single(s, i);
        } else if c == '"' {
            lemma_find_char(s, i + 1, '"');
            let j = find_char(s, i + 1, '"');
            if j < s.len() {
                let cn = count_newlines(s.subrange(i + 1, j));
                lemma_count_newlines_bounds(s.subrange(i + 1, j));
                lemma_scan_from_lines(s, j + 1, line + cn);
                lemma_scan_from_ends_with_eof(s, j + 1, line + cn);
                lemma_count_newlines_split(s, i, j + 1, len);
                lemma_count_newlines_split(s, i, i + 1, j + 1);
                lemma_count_newlines_split(s, i + 1, j, j + 1);
                lemma_count_newlines_single(s, i);
                lemma_count_newlines_single(s, j);
                step_token(s, i, line, j + 1, line + cn);
            } else {
                let cn = count_newlines(s.subrange(i + 1, len));
                lemma_count_newlines_bounds(s.subrange(i + 1, len));
                lemma_scan_from_lines(s, len, line + cn);
                lemma_count_newlines_split(s, i, i + 1, len);
                lemma_count_newlines_single(s, i);
                assert(s.subrange(len, len) =~= Seq::<char>::empty());
            }
        } else if is_digit(c) {
            lemma_number_end(s, i);
            let j = number_end(s, i);
            lemma_scan_from_lines(s, j, line);
            lemma_scan_from_ends_with_eof(s, j, line);
            lemma_count_newlines_split(s, i, j, len);
            assert(count_newlines(s.subrange(i, j)) == 0) by {
                lemma_number_chars(s, i);
                lemma_count_newlines_none(s, i, j);
            }
            step_token(s, i, line, j, line);
        } else if is_alpha(c) {
            lemma_ident_end(s, i);
            let j = ident_end(s, i);
            lemma_scan_from_lines(s, j, line);
            lemma_scan_from_ends_with_eof(s, j, line);
            lemma_count_newlines_split(s, i, j, len);
            assert(count_newlines(s.subrange(i, j)) == 0) by {
                lemma_count_newlines_none(s, i, j);
            }
            step_token(s, i, line, j, line);
        } else {
            lemma_scan_from_lines(s, i + 1, line);
            lemma_count_newlines_split(s, i, i + 1, len);
            lemma_count_newlines_single(s, i);
        }
    }
}

/// A numeric literal consumes only digits and the dot, never a newline.
proof fn lemma_number_chars(s: Seq<char>, i: int)
    requires
        0 <= i < s.len(),
        is_digit(s[i]),
    ensures
        forall|k: int| i <= k < number_end(s, i) ==> s[k] != '\n',
{
    lemma_digits_end(s, i);
    let j = digits_end(s, i);
    if j + 1 < s.len() && s[j] == '.' && is_digit(s[j + 1]) {
        lemma_digits_end(s, j + 2);
    }
}

/// The token emitted at the step from `i` keeps the line facts intact:
/// helper for `lemma_scan_from_lines`, covering every branch that emits one
/// token at the current line and then continues at `next` with `next_line`.
proof fn step_token(s: Seq<char>, i: int, line: int, next: int, next_line: int)
    requires
        0 <= i < s.len(),
        0 <= next <= s.len(),
        line <= next_line,
        lines_lower_bounded(scan_from(s, next, next_line).tokens, next_line),
        lines_monotone(scan_from(s, next, next_line).tokens),
        scan_from(s, i, line).tokens =~= seq![
            scan_from(s, i, line).tokens[0],
        ] + scan_from(s, next, next_line).tokens,
        scan_from(s, i, line).tokens[0].line == line,
    ensures
        lines_lower_bounded(scan_from(s, i, line).tokens, line),
        lines_monotone(scan_from(s, i, line).tokens),
{
    lemma_lines_cons(
        scan_from(s, i, line).tokens[0],
        scan_from(s, next, next_line).tokens,
        line,
        next_line,
    );
}

/// An identifier's lexeme: one letter, then letters and digits.
pub open spec fn ident_shape(lex: Seq<char>) -> bool {
    lex.len() > 0 && is_alpha(lex[0]) && forall|k: int| 0 <= k < lex.len() ==> is_alnum(lex[k])
}

/// A numeric literal's lexeme, split at `p`: digits up to `p`, then either
/// nothing, or a dot followed by at least one digit and nothing else.
pub open spec fn number_split(lex: Seq<char>, p: int) -> bool {
    &&& 0 < p <= lex.len()
    &&& forall|k: int| 0 <= k < p ==> is_digit(lex[k])
    &&& (p == lex.len() || (p + 1 < lex.len() && lex[p] == '.' && forall|k: int|
        p < k < lex.len() ==> is_digit(lex[k])))
}

/// A numeric literal's lexeme: some such split exists.
pub open spec fn number_shape(lex: Seq<char>) -> bool {
    exists|p: int| #[trigger] number_split(lex, p)
}

/// What the scan guarantees of each token's lexeme, by kind: fixed tokens
/// carry their own spelling, keywords their reserved word, identifiers an
/// alphanumeric word outside the keyword table, numbers a digit string with
/// at most one interior dot, and literal kinds carry their payload as the
/// lexeme.
pub open spec fn token_wf(t: SpecToken) -> bool {
    match t.kind {
        SpecKind::LeftParen => t.lexeme == seq!['('],
        SpecKind::RightParen => t.lexeme == seq![')'],
        SpecKind::LeftBrace => t.lexeme == seq!['{'],
        SpecKind::RightBrace => t.lexeme == seq!['}'],
        SpecKind::Comma => t.lexeme == seq![','],
        SpecKind::Dot => t.lexeme == seq!['.'],
        SpecKind::Minus => t.lexeme == seq!['-'],
        SpecKind::Plus => t.lexeme == seq!['+'],
        SpecKind::Semicolon => t.lexeme == seq![';'],
        SpecKind::Slash => t.lexeme == seq!['/'],
        SpecKind::Star => t.lexeme == seq!['*'],
        SpecKind::Bang => t.lexeme == seq!['!'],
        SpecKind::BangEqual => t.lexeme == seq!['!', '='],
        SpecKind::Equal => t.lexeme == seq!['='],
        SpecKind::EqualEqual => t.lexeme == seq!['=', '='],
        SpecKind::Greater => t.lexeme == seq!['>'],
        SpecKind::GreaterEqual => t.lexeme == seq!['>', '='],
        SpecKind::Less => t.lexeme == seq!['<'],
        SpecKind::LessEqual => t.lexeme == seq!['<', '='],
        SpecKind::Identifier(name) => name == t.lexeme && ident_shape(t.lexeme) && keyword_kind(
            t.lexeme,
        ) is None,
        SpecKind::Str(contents) => contents == t.lexeme,
        SpecKind::Number(digits) => digits == t.lexeme && number_shape(t.lexeme),
        SpecKind::And => t.lexeme == "and"@,
        SpecKind::Class => t.lexeme == "class"@,
        SpecKind::Else => t.lexeme == "else"@,
        SpecKind::False => t.lexeme == "false"@,
        SpecKind::Fun => t.lexeme == "fun"@,
        SpecKind::For => t.lexeme == "for"@,
        SpecKind::If => t.lexeme == "if"@,
        SpecKind::Nil => t.lexeme == "nil"@,
        SpecKind::Or => t.lexeme == "or"@,
        SpecKind::Print => t.lexeme == "print"@,
        SpecKind::Return => t.lexeme == "return"@,
        SpecKind::Super => t.lexeme == "super"@,
        SpecKind::This => t.lexeme == "this"@,
        SpecKind::True => t.lexeme == "true"@,
        SpecKind::Var => t.lexeme == "var"@,
        SpecKind::While => t.lexeme == "while"@,
        SpecKind::EndOfInput => t.lexeme == Seq::<char>::empty(),
    }
}

pub open spec fn all_wf(ts: Seq<SpecToken>) -> bool {
    forall|k: int| 0 <= k < ts.len() ==> token_wf(#[trigger] ts[k])
}

proof fn lemma_wf_cons(t: SpecToken, rest: Seq<SpecToken>)
    requires
        token_wf(t),
        all_wf(rest),
    ensures
        all_wf(seq![t] + rest),
{
    let all = seq![t] + rest;
    assert forall|k: int| 0 <= k < all.len() implies token_wf(#[trigger] all[k]) by {
        if k > 0 {
            assert(all[k] == rest[k - 1]);
        }
    }
}

/// Every token the scan produces is well-formed in the sense of `token_wf`.
pub proof fn lemma_scan_from_tokens_wf(s: Seq<char>, i: int, line: int)
    requires
        0 <= i <= s.len(),
    ensures
        all_wf(scan_from(s, i, line).tokens),
    decreases s.len() - i,
{
    if i >= s.len() {
        assert(token_wf(eof_token(line)));
        assert(all_wf(seq![eof_token(line)]));
    } else {
        let c = s[i];
        if is_punct(c) {
            lemma_scan_from_tokens_wf(s, i + 1, line);
            assert(s.subrange(i, i + 1) =~= seq![c]);
            lemma_wf_cons(
                SpecToken { kind: crate::model::punct_kind(c), lexeme: s.subrange(i, i + 1), line },
                scan_from(s, i + 1, line).tokens,
            );
        } else if is_op_start(c) {
            if i + 1 < s.len() && s[i + 1] == '=' {
                lemma_scan_from_tokens_wf(s, i + 2, line);
                assert(s.subrange(i, i + 2) =~= seq![c, '=']);
                lemma_wf_cons(
                    SpecToken {
                        kind: crate::model::op_double_kind(c),
                        lexeme: s.subrange(i, i + 2),
                        line,
                    },
                    scan_from(s, i + 2, line).tokens,
                );
            } else {
                lemma_scan_from_tokens_wf(s, i + 1, line);
                assert(s.subrange(i, i + 1) =~= seq![c]);
                lemma_wf_cons(
                    SpecToken {
                        kind: crate::model::op_single_kind(c),
                        lexeme: s.subrange(i, i + 1),
                        line,
                    },
                    scan_from(s, i + 1, line).tokens,
                );
            }
        } else if c == '/' {
            if i + 1 < s.len() && s[i + 1] == '/' {
                lemma_find_char(s, i + 2, '\n');
                let j = find_char(s, i + 2, '\n');
                if j < s.len() {
                    lemma_scan_from_tokens_wf(s, j + 1, line + 1);
                } else {
                    lemma_scan_from_tokens_wf(s, j, line);
                }
            } else {
                lemma_scan_from_tokens_wf(s, i + 1, line);
                assert(s.subrange(i, i + 1) =~= seq![c]);
                lemma_wf_cons(
                    SpecToken { kind: SpecKind::Slash, lexeme: s.subrange(i, i + 1), line },
                    scan_from(s, i + 1, line).tokens,
                );
            }
        } else if c == ' ' || c == '\r' || c == '\t' {
            lemma_scan_from_tokens_wf(s, i + 1, line);
        } else if c == '\n' {
            lemma_scan_from_tokens_wf(s, i + 1, line + 1);
        } else if c == '"' {
            lemma_find_char(s, i + 1, '"');
            let j = find_char(s, i + 1, '"');
            if j < s.len() {
                let cn = count_newlines(s.subrange(i + 1, j));
                lemma_scan_from_tokens_wf(s, j + 1, line + cn);
                lemma_wf_cons(
                    SpecToken {
                        kind: SpecKind::Str(s.subrange(i + 1, j)),
                        lexeme: s.subrange(i + 1, j),
                        line,
                    },
                    scan_from(s, j + 1, line + cn).tokens,
                );
            } else {
                let cn = count_newlines(s.subrange(i + 1, s.len() as int));
                lemma_scan_from_tokens_wf(s, s.len() as int, line + cn);
            }
        } else if is_digit(c) {
            lemma_number_end(s, i);
            lemma_digits_end(s, i);
            let j = number_end(s, i);
            let d1 = digits_end(s, i);
            let lex = s.subrange(i, j);
            lemma_scan_from_tokens_wf(s, j, line);
            if d1 + 1 < s.len() && s[d1] == '.' && is_digit(s[d1 + 1]) {
                lemma_digits_end(s, d1 + 2);
                assert forall|k: int| 0 <= k < d1 - i implies is_digit(lex[k]) by {
                    assert(lex[k] == s[i + k]);
                }
                assert forall|k: int| d1 - i < k < lex.len() implies is_digit(lex[k]) by {
                    assert(lex[k] == s[i + k]);
                }
                assert(lex[d1 - i] == s[d1]);
                assert(number_split(lex, d1 - i));
            } else {
                assert(j == d1);
                assert forall|k: int| 0 <= k < j - i implies is_digit(lex[k]) by {
                    assert(lex[k] == s[i + k]);
                }
                assert(number_split(lex, j - i));
            }
            lemma_wf_cons(
                SpecToken { kind: SpecKind::Number(lex), lexeme: lex, line },
                scan_from(s, j, line).tokens,
            );
        } else if is_alpha(c) {
            lemma_ident_end(s, i);
            let j = ident_end(s, i);
            let lex = s.subrange(i, j);
            lemma_scan_from_tokens_wf(s, j, line);
            assert forall|k: int| 0 <= k < lex.len() implies is_alnum(lex[k]) by {
                assert(lex[k] == s[i + k]);
            }
            assert(lex[0] == s[i]);
            let kind = match keyword_kind(lex) {
                Some(k) => k,
                None => SpecKind::Identifier(lex),
            };
            assert(token_wf(SpecToken { kind, lexeme: lex, line }));
            lemma_wf_cons(SpecToken { kind, lexeme: lex, line }, scan_from(s, j, line).tokens);
        } else {
            lemma_scan_from_tokens_wf(s, i + 1, line);
        }
    }
}

/// Re-scanning the lexeme of a well-formed token that is not a string
/// literal and not End-of-Input yields exactly that token again (at line 1)
/// followed by End-of-Input.
pub proof fn lemma_relex_wf_token(t: SpecToken)
    requires
        token_wf(t),
        !(t.kind is Str),
        !(t.kind is EndOfInput),
    ensures
        scan_from(t.lexeme, 0, 1).tokens.len() == 2,
        scan_from(t.lexeme, 0, 1).tokens[0].kind == t.kind,
        scan_from(t.lexeme, 0, 1).tokens[0].lexeme == t.lexeme,
{
    let lex = t.lexeme;
    reveal_strlit("and");
    reveal_strlit("class");
    reveal_strlit("else");
    reveal_strlit("false");
    reveal_strlit("for");
    reveal_strlit("fun");
    reveal_strlit("if");
    reveal_strlit("nil");
    reveal_strlit("or");
    reveal_strlit("print");
    reveal_strlit("return");
    reveal_strlit("super");
    reveal_strlit("this");
    reveal_strlit("true");
    reveal_strlit("var");
    reveal_strlit("while");
    match t.kind {
        SpecKind::Identifier(_) | SpecKind::And | SpecKind::Class | SpecKind::Else
            | SpecKind::False | SpecKind::Fun | SpecKind::For | SpecKind::If | SpecKind::Nil
            | SpecKind::Or | SpecKind::Print | SpecKind::Return | SpecKind::Super
            | SpecKind::This | SpecKind::True | SpecKind::Var | SpecKind::While => {
            lemma_ident_end_upto(lex, 0, lex.len() as int);
            assert(lex.subrange(0, lex.len() as int) =~= lex);
            assert(scan_from(lex, lex.len() as int, 1).tokens =~= seq![eof_token(1)]);
        },
        SpecKind::Number(_) => {
            let p = choose|p: int| number_split(lex, p);
            assert(number_split(lex, p));
            if p == lex.len() {
                lemma_digits_end_upto(lex, 0, p);
            } else {
                lemma_digits_end_upto(lex, 0, p);
                lemma_digits_end_upto(lex, p + 2, lex.len() as int);
            }
            assert(number_end(lex, 0) == lex.len());
            assert(lex.subrange(0, lex.len() as int) =~= lex);
            assert(scan_from(lex, lex.len() as int, 1).tokens =~= seq![eof_token(1)]);
        },
        _ => {
            if lex.len() == 1 {
                assert(lex.subrange(0, 1) =~= lex);
                assert(scan_from(lex, 1, 1).tokens =~= seq![eof_token(1)]);
            } else {
                assert(lex.len() == 2);
                assert(lex.subrange(0, 2) =~= lex);
                assert(scan_from(lex, 2, 1).tokens =~= seq![eof_token(1)]);
            }
        },
    }
}

/// Law: re-scanning the lexeme of any single token in isolation reproduces a
/// token of the same kind with the same lexeme, followed only by
/// End-of-Input. String-literal tokens and the End-of-Input token are left
/// out: a string's lexeme is its contents without the quotes, so on its own
/// it no longer spells a string literal, and End-of-Input has an empty
/// lexeme.
pub proof fn lemma_relex_lexeme(s: Seq<char>, n: int)
    requires
        0 <= n < scan_from(s, 0, 1).tokens.len(),
        !(scan_from(s, 0, 1).tokens[n].kind is Str),
        !(scan_from(s, 0, 1).tokens[n].kind is EndOfInput),
    ensures
        scan_from(scan_from(s, 0, 1).tokens[n].lexeme, 0, 1).tokens.len() == 2,
        scan_from(scan_from(s, 0, 1).tokens[n].lexeme, 0, 1).tokens[0].kind == scan_from(
            s,
            0,
            1,
        ).tokens[n].kind,
        scan_from(scan_from(s, 0, 1).tokens[n].lexeme, 0, 1).tokens[0].lexeme == scan_from(
            s,
            0,
            1,
        ).tokens[n].lexeme,
{
    lemma_scan_from_tokens_wf(s, 0, 1);
    lemma_relex_wf_token(scan_from(s, 0, 1).tokens[n]);
}

/// Law: line numbers are monotonically non-decreasing across the token
/// sequence, and the closing End-of-Input token's line is one more than the
/// number of newline characters in the input — every consumed newline,
/// including those inside strings and comments, counts exactly once.
pub proof fn lemma_lines_monotone_and_counted(s: Seq<char>)
    ensures
        lines_monotone(scan_from(s, 0, 1).tokens),
        scan_from(s, 0, 1).tokens.last().line == 1 + count_newlines(s),
{
    lemma_scan_from_lines(s, 0, 1);
    assert(s.subrange(0, s.len() as int) =~= s);
}

} // verus!
