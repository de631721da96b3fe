use vstd::prelude::*;

verus! {

/// Lexical category of a token, at the specification level.
/// Literal kinds carry their decoded payload as a sequence of characters.
/// The numeric literal's payload is its digit string; turning that string
/// into a machine float is left to the embedding program, since the verified
/// core holds no floating-point values.
pub ghost enum SpecKind {
    LeftParen,
    RightParen,
    LeftBrace,
    RightBrace,
    Comma,
    Dot,
    Minus,
    Plus,
    Semicolon,
    Slash,
    Star,
    Bang,
    BangEqual,
    Equal,
    EqualEqual,
    Greater,
    GreaterEqual,
    Less,
    LessEqual,
    Identifier(Seq<char>),
    Str(Seq<char>),
    Number(Seq<char>),
    And,
    Class,
    Else,
    False,
    Fun,
    For,
    If,
    Nil,
    Or,
    Print,
    Return,
    Super,
    This,
    True,
    Var,
    While,
    EndOfInput,
}

/// Specification-level token: category, exact source substring, and the
/// 1-based line on which the token's first character stands.
pub ghost struct SpecToken {
    pub kind: SpecKind,
    pub lexeme: Seq<char>,
    pub line: int,
}

/// Specification-level diagnostic: line, location description (empty at the
/// scanner's own error sites), and message.
pub ghost struct SpecDiagnostic {
    pub line: int,
    pub location: Seq<char>,
    pub message: Seq<char>,
}

/// The full result of one scan: the token sequence and the diagnostics,
/// each in the order of discovery.
pub ghost struct SpecScan {
    pub tokens: Seq<SpecToken>,
    pub diags: Seq<SpecDiagnostic>,
}

pub open spec fn is_digit(c: char) -> bool {
    '0' as u32 <= c as u32 && c as u32 <= '9' as u32
}

pub open spec fn is_alpha(c: char) -> bool {
    ('a' as u32 <= c as u32 && c as u32 <= 'z' as u32)
        || ('A' as u32 <= c as u32 && c as u32 <= 'Z' as u32)
}

pub open spec fn is_alnum(c: char) -> bool {
    is_digit(c) || is_alpha(c)
}

/// Characters that form a complete token on their own.
/// The slash is not here: it may open a line comment.
pub open spec fn is_punct(c: char) -> bool {
    c == '(' || c == ')' || c == '{' || c == '}' || c == ','
        || c == '.' || c == '-' || c == '+' || c == ';' || c == '*'
}

pub open spec fn punct_kind(c: char) -> SpecKind {
    if c == '(' { SpecKind::LeftParen }
    else if c == ')' { SpecKind::RightParen }
    else if c == '{' { SpecKind::LeftBrace }
    else if c == '}' { SpecKind::RightBrace }
    else if c == ',' { SpecKind::Comma }
    else if c == '.' { SpecKind::Dot }
    else if c == '-' { SpecKind::Minus }
    else if c == '+' { SpecKind::Plus }
    else if c == ';' { SpecKind::Semicolon }
    else { SpecKind::Star }
}

/// Characters that may begin a one-or-two-character operator.
pub open spec fn is_op_start(c: char) -> bool {
    c == '!' || c == '=' || c == '<' || c == '>'
}

pub open spec fn op_single_kind(c: char) -> SpecKind {
    if c == '!' { SpecKind::Bang }
    else if c == '=' { SpecKind::Equal }
    else if c == '<' { SpecKind::Less }
    else { SpecKind::Greater }
}

pub open spec fn op_double_kind(c: char) -> SpecKind {
    if c == '!' { SpecKind::BangEqual }
    else if c == '=' { SpecKind::EqualEqual }
    else if c == '<' { SpecKind::LessEqual }
    else { SpecKind::GreaterEqual }
}

/// End of the run of ASCII digits that starts at `i`: the first index at or
/// after `i` whose character is not a digit, or the input's length.
pub open spec fn digits_end(s: Seq<char>, i: int) -> int
    decreases s.len() - i,
    when 0 <= i <= s.len()
{
    if i < s.len() && is_digit(s[i]) {
        digits_end(s, i + 1)
    } else {
        i
    }
}

/// End of the run of ASCII alphanumeric characters that starts at `i`.
pub open spec fn ident_end(s: Seq<char>, i: int) -> int
    decreases s.len() - i,
    when 0 <= i <= s.len()
{
    if i < s.len() && is_alnum(s[i]) {
        ident_end(s, i + 1)
    } else {
        i
    }
}

/// First index at or after `i` holding `target`, or the input's length.
pub open spec fn find_char(s: Seq<char>, i: int, target: char) -> int
    decreases s.len() - i,
    when 0 <= i <= s.len()
{
    if i < s.len() && s[i] != target {
        find_char(s, i + 1, target)
    } else {
        i
    }
}

/// End of the numeric literal that starts at the digit at `i`: the digit run,
/// then one fractional run, but only when the dot is immediately followed by
/// a digit. A trailing dot is never consumed.
pub open spec fn number_end(s: Seq<char>, i: int) -> int {
    let j = digits_end(s, i);
    if j + 1 < s.len() && s[j] == '.' && is_digit(s[j + 1]) {
        digits_end(s, j + 2)
    } else {
        j
    }
}

/// How many newline characters a piece of text holds.
pub open spec fn count_newlines(s: Seq<char>) -> int
    decreases s.len(),
{
    if s.len() == 0 {
        0
    } else {
        count_newlines(s.drop_last()) + if s.last() == '\n' { 1int } else { 0int }
    }
}

/// The fixed keyword table: a reserved word's category, or `None` for any
/// other lexeme. Resolution is a case-sensitive exact match.
pub open spec fn keyword_kind(lex: Seq<char>) -> Option<SpecKind> {
    if lex == "and"@ { Some(SpecKind::And) }
    else if lex == "class"@ { Some(SpecKind::Class) }
    else if lex == "else"@ { Some(SpecKind::Else) }
    else if lex == "false"@ { Some(SpecKind::False) }
    else if lex == "for"@ { Some(SpecKind::For) }
    else if lex == "fun"@ { Some(SpecKind::Fun) }
    else if lex == "if"@ { Some(SpecKind::If) }
    else if lex == "nil"@ { Some(SpecKind::Nil) }
    else if lex == "or"@ { Some(SpecKind::Or) }
    else if lex == "print"@ { Some(SpecKind::Print) }
    else if lex == "return"@ { Some(SpecKind::Return) }
    else if lex == "super"@ { Some(SpecKind::Super) }
    else if lex == "this"@ { Some(SpecKind::This) }
    else if lex == "true"@ { Some(SpecKind::True) }
    else if lex == "var"@ { Some(SpecKind::Var) }
    else if lex == "while"@ { Some(SpecKind::While) }
    else { None }
}

pub open spec fn eof_token(line: int) -> SpecToken {
    SpecToken { kind: SpecKind::EndOfInput, lexeme: Seq::<char>::empty(), line }
}

pub open spec fn unterminated_string_message() -> Seq<char> {
    "Unterminated string"@
}

pub open spec fn unknown_char_message(c: char) -> Seq<char> {
    "Unknown character: "@.push(c)
}

pub open spec fn cons_token(t: SpecToken, rest: SpecScan) -> SpecScan {
    SpecScan { tokens: seq![t] + rest.tokens, diags: rest.diags }
}

pub open spec fn cons_diag(d: SpecDiagnostic, rest: SpecScan) -> SpecScan {
    SpecScan { tokens: rest.tokens, diags: seq![d] + rest.diags }
}

/// The scan of `s` from position `i` onward, with `line` the current
/// 1-based line number. This is the reference model of the scanner: one
/// dispatch step per call, then the scan of what remains, and a final
/// End-of-Input token carrying the final line count.
pub open spec fn scan_from(s: Seq<char>, i: int, line: int) -> SpecScan
    decreases s.len() - i,
    when 0 <= i <= s.len()
    via scan_from_decreases
{
    if i >= s.len() {
        SpecScan { tokens: seq![eof_token(line)], diags: Seq::<SpecDiagnostic>::empty() }
    } else {
        let c = s[i];
        if is_punct(c) {
            cons_token(
                SpecToken { kind: punct_kind(c), lexeme: s.subrange(i, i + 1), line },
                scan_from(s, i + 1, line),
            )
        } else if is_op_start(c) {
            if i + 1 < s.len() && s[i + 1] == '=' {
                cons_token(
                    SpecToken { kind: op_double_kind(c), lexeme: s.subrange(i, i + 2), line },
                    scan_from(s, i + 2, line),
                )
            } else {
                cons_token(
                    SpecToken { kind: op_single_kind(c), lexeme: s.subrange(i, i + 1), line },
                    scan_from(s, i + 1, line),
                )
            }
        } else if c == '/' {
            if i + 1 < s.len() && s[i + 1] == '/' {
                let j = find_char(s, i + 2, '\n');
                if j < s.len() {
                    scan_from(s, j + 1, line + 1)
                } else {
                    scan_from(s, j, line)
                }
            } else {
                cons_token(
                    SpecToken { kind: SpecKind::Slash, lexeme: s.subrange(i, i + 1), line },
                    scan_from(s, i + 1, line),
                )
            }
        } else if c == ' ' || c == '\r' || c == '\t' {
            scan_from(s, i + 1, line)
        } else if c == '\n' {
            scan_from(s, i + 1, line + 1)
        } else if c == '"' {
            let j = find_char(s, i + 1, '"');
            if j < s.len() {
                let content = s.subrange(i + 1, j);
                cons_token(
                    SpecToken { kind: SpecKind::Str(content), lexeme: content, line },
                    scan_from(s, j + 1, line + count_newlines(content)),
                )
            } else {
                cons_diag(
                    SpecDiagnostic {
                        line,
                        location: Seq::<char>::empty(),
                        message: unterminated_string_message(),
                    },
                    scan_from(s, s.len() as int, line + count_newlines(s.subrange(i + 1, s.len() as int))),
                )
            }
        } else if is_digit(c) {
            let j = number_end(s, i);
            cons_token(
                SpecToken { kind: SpecKind::Number(s.subrange(i, j)), lexeme: s.subrange(i, j), line },
                scan_from(s, j, line),
            )
        } else if is_alpha(c) {
            let j = ident_end(s, i);
            let lex = s.subrange(i, j);
            let kind = match keyword_kind(lex) {
                Some(k) => k,
                None => SpecKind::Identifier(lex),
            };
            cons_token(SpecToken { kind, lexeme: lex, line }, scan_from(s, j, line))
        } else {
            cons_diag(
                SpecDiagnostic {
                    line,
                    location: Seq::<char>::empty(),
                    message: unknown_char_message(c),
                },
                scan_from(s, i + 1, line),
            )
        }
    }
}

/// The input is lexically clean from position `i` onward: every string
/// literal that opens is closed before the input ends, and every character
/// reached at dispatch position matches one of the scanner's rules. Exactly
/// these inputs produce no diagnostic.
pub open spec fn lexically_clean(s: Seq<char>, i: int) -> bool
    decreases s.len() - i,
    when 0 <= i <= s.len()
    via lexically_clean_decreases
{
    if i >= s.len() {
        true
    } else {
        let c = s[i];
        if is_punct(c) {
            lexically_clean(s, i + 1)
        } else if is_op_start(c) {
            if i + 1 < s.len() && s[i + 1] == '=' {
                lexically_clean(s, i + 2)
            } else {
                lexically_clean(s, i + 1)
            }
        } else if c == '/' {
            if i + 1 < s.len() && s[i + 1] == '/' {
                let j = find_char(s, i + 2, '\n');
                if j < s.len() {
                    lexically_clean(s, j + 1)
                } else {
                    true
                }
            } else {
                lexically_clean(s, i + 1)
            }
        } else if c == ' ' || c == '\r' || c == '\t' || c == '\n' {
            lexically_clean(s, i + 1)
        } else if c == '"' {
            let j = find_char(s, i + 1, '"');
            j < s.len() && lexically_clean(s, j + 1)
        } else if is_digit(c) {
            lexically_clean(s, number_end(s, i))
        } else if is_alpha(c) {
            lexically_clean(s, ident_end(s, i))
        } else {
            false
        }
    }
}

#[via_fn]
proof fn lexically_clean_decreases(s: Seq<char>, i: int) {
    if 0 <= i && i < s.len() {
        let c = s[i];
        if c == '/' && i + 1 < s.len() && s[i + 1] == '/' {
            lemma_find_char(s, i + 2, '\n');
        } else if c == '"' {
            lemma_find_char(s, i + 1, '"');
        } else if is_digit(c) {
            lemma_number_end(s, i);
        } else if is_alpha(c) {
            lemma_ident_end(s, i);
        }
    }
}

#[via_fn]
proof fn scan_from_decreases(s: Seq<char>, i: int, line: int) {
    if 0 <= i && i < s.len() {
        let c = s[i];
        if c == '/' && i + 1 < s.len() && s[i + 1] == '/' {
            lemma_find_char(s, i + 2, '\n');
        } else if c == '"' {
            lemma_find_char(s, i + 1, '"');
        } else if is_digit(c) {
            lemma_number_end(s, i);
        } else if is_alpha(c) {
            lemma_ident_end(s, i);
        }
    }
}

/// The digit run that starts at `i` ends inside the input, every character
/// in it is a digit, and the character after it (if any) is not.
pub proof fn lemma_digits_end(s: Seq<char>, i: int)
    requires
        0 <= i <= s.len(),
    ensures
        i <= digits_end(s, i) <= s.len(),
        forall|k: int| i <= k < digits_end(s, i) ==> is_digit(s[k]),
        digits_end(s, i) < s.len() ==> !is_digit(s[digits_end(s, i)]),
    decreases s.len() - i,
{
    if i < s.len() && is_digit(s[i]) {
        lemma_digits_end(s, i + 1);
    }
}

/// The alphanumeric run that starts at `i` ends inside the input, every
/// character in it is alphanumeric, and the character after it (if any)
/// is not.
pub proof fn lemma_ident_end(s: Seq<char>, i: int)
    requires
        0 <= i <= s.len(),
    ensures
        i <= ident_end(s, i) <= s.len(),
        forall|k: int| i <= k < ident_end(s, i) ==> is_alnum(s[k]),
        ident_end(s, i) < s.len() ==> !is_alnum(s[ident_end(s, i)]),
        i < s.len() && is_alnum(s[i]) ==> i < ident_end(s, i),
    decreases s.len() - i,
{
    if i < s.len() && is_alnum(s[i]) {
        lemma_ident_end(s, i + 1);
    }
}

/// A digit run's end is pinned down by its characters: digits up to `p`,
/// then the input's end or a non-digit.
pub proof fn lemma_digits_end_upto(s: Seq<char>, i: int, p: int)
    requires
        0 <= i <= p <= s.len(),
        forall|k: int| i <= k < p ==> is_digit(s[k]),
        p == s.len() || !is_digit(s[p]),
    ensures
        digits_end(s, i) == p,
    decreases p - i,
{
    if i < p {
        lemma_digits_end_upto(s, i + 1, p);
    }
}

/// An alphanumeric run's end is pinned down by its characters.
pub proof fn lemma_ident_end_upto(s: Seq<char>, i: int, p: int)
    requires
        0 <= i <= p <= s.len(),
        forall|k: int| i <= k < p ==> is_alnum(s[k]),
        p == s.len() || !is_alnum(s[p]),
    ensures
        ident_end(s, i) == p,
    decreases p - i,
{
    if i < p {
        lemma_ident_end_upto(s, i + 1, p);
    }
}

/// `find_char` lands on the first occurrence of the target at or after `i`,
/// or on the input's length when there is none.
pub proof fn lemma_find_char(s: Seq<char>, i: int, target: char)
    requires
        0 <= i <= s.len(),
    ensures
        i <= find_char(s, i, target) <= s.len(),
        forall|k: int| i <= k < find_char(s, i, target) ==> s[k] != target,
        find_char(s, i, target) < s.len() ==> s[find_char(s, i, target)] == target,
    decreases s.len() - i,
{
    if i < s.len() && s[i] != target {
        lemma_find_char(s, i + 1, target);
    }
}

/// A numeric literal consumes at least its leading digit and stays inside
/// the input.
pub proof fn lemma_number_end(s: Seq<char>, i: int)
    requires
        0 <= i < s.len(),
        is_digit(s[i]),
    ensures
        i < number_end(s, i) <= s.len(),
{
    lemma_digits_end(s, i);
    let j = digits_end(s, i);
    assert(j != i) by {
        if j == i {
            assert(!is_digit(s[i]));
        }
    }
    if j + 1 < s.len() && s[j] == '.' && is_digit(s[j + 1]) {
        lemma_digits_end(s, j + 2);
    }
}

/// Newline counting distributes over concatenation.
pub proof fn lemma_count_newlines_concat(a: Seq<char>, b: Seq<char>)
    ensures
        count_newlines(a + b) == count_newlines(a) + count_newlines(b),
    decreases b.len(),
{
    if b.len() == 0 {
        assert(a + b =~= a);
    } else {
        lemma_count_newlines_concat(a, b.drop_last());
        assert((a + b).drop_last() =~= a + b.drop_last());
        assert((a + b).last() == b.last());
    }
}

/// Newline counting splits at any interior position.
pub proof fn lemma_count_newlines_split(s: Seq<char>, a: int, m: int, b: int)
    requires
        0 <= a <= m <= b <= s.len(),
    ensures
        count_newlines(s.subrange(a, b)) == count_newlines(s.subrange(a, m)) + count_newlines(
            s.subrange(m, b),
        ),
{
    assert(s.subrange(a, b) =~= s.subrange(a, m) + s.subrange(m, b));
    lemma_count_newlines_concat(s.subrange(a, m), s.subrange(m, b));
}

/// A stretch without newline characters counts zero newlines.
pub proof fn lemma_count_newlines_none(s: Seq<char>, a: int, b: int)
    requires
        0 <= a <= b <= s.len(),
        forall|k: int| a <= k < b ==> s[k] != '\n',
    ensures
        count_newlines(s.subrange(a, b)) == 0,
{
    let sub = s.subrange(a, b);
    assert(forall|k: int| 0 <= k < sub.len() ==> sub[k] != '\n');
    lemma_count_newlines_bounds(sub);
}

/// A single character counts one newline exactly when it is one.
pub proof fn lemma_count_newlines_single(s: Seq<char>, a: int)
    requires
        0 <= a < s.len(),
    ensures
        count_newlines(s.subrange(a, a + 1)) == if s[a] == '\n' { 1int } else { 0int },
{
    assert(s.subrange(a, a + 1) =~= seq![s[a]]);
    assert(seq![s[a]].drop_last() =~= Seq::<char>::empty());
    assert(count_newlines(Seq::<char>::empty()) == 0);
    assert(seq![s[a]].last() == s[a]);
}

/// Newline counting is bounded by the text's length, and is zero exactly
/// when the text holds no newline.
pub proof fn lemma_count_newlines_bounds(s: Seq<char>)
    ensures
        0 <= count_newlines(s) <= s.len(),
        (count_newlines(s) == 0) <==> (forall|k: int| 0 <= k < s.len() ==> s[k] != '\n'),
    decreases s.len(),
{
    if s.len() > 0 {
        lemma_count_newlines_bounds(s.drop_last());
        assert(forall|k: int| 0 <= k < s.len() - 1 ==> s[k] == s.drop_last()[k]);
        assert(s.last() == s[s.len() - 1]);
    }
}

} // verus!
