use vstd::prelude::*;

use crate::model::{
    count_newlines, cons_diag, cons_token, digits_end, eof_token, find_char, ident_end, is_alnum,
    is_alpha, is_digit, is_op_start, is_punct, keyword_kind, lemma_ident_end, lemma_number_end,
    number_end, op_double_kind, op_single_kind, punct_kind, scan_from, unknown_char_message,
    unterminated_string_message, SpecDiagnostic, SpecScan, SpecToken,
};
use crate::text::{char_string, chars_string, two_char_string};
use crate::token::{
    diags_view, error, lemma_diags_view_push, lemma_tokens_view_push, tokens_view, Diagnostic,
    Token, TokenKind,
};

verus! {

fn is_digit_char(c: char) -> (b: bool)
    ensures
        b == is_digit(c),
{
    let u = c as u32;
    '0' as u32 <= u && u <= '9' as u32
}

fn is_alpha_char(c: char) -> (b: bool)
    ensures
        b == is_alpha(c),
{
    let u = c as u32;
    ('a' as u32 <= u && u <= 'z' as u32) || ('A' as u32 <= u && u <= 'Z' as u32)
}

fn is_alnum_char(c: char) -> (b: bool)
    ensures
        b == is_alnum(c),
{
    is_digit_char(c) || is_alpha_char(c)
}

/// Index just past the run of ASCII digits that starts at `from`.
fn skip_digits(src: &Vec<char>, from: usize) -> (j: usize)
    requires
        from <= src@.len(),
    ensures
        j as int == digits_end(src@, from as int),
        from <= j <= src@.len(),
{
    let mut j: usize = from;
    while j < src.len() && is_digit_char(src[j])
        invariant
            from <= j <= src@.len(),
            digits_end(src@, from as int) == digits_end(src@, j as int),
        decreases src@.len() - j,
    {
        proof {
            assert(digits_end(src@, j as int) == digits_end(src@, j + 1));
        }
        j = j + 1;
    }
    proof {
        assert(digits_end(src@, j as int) == j);
    }
    j
}

/// Index just past the run of ASCII alphanumeric characters that starts at
/// `from`.
fn skip_alnum(src: &Vec<char>, from: usize) -> (j: usize)
    requires
        from <= src@.len(),
    ensures
        j as int == ident_end(src@, from as int),
        from <= j <= src@.len(),
{
    let mut j: usize = from;
    while j < src.len() && is_alnum_char(src[j])
        invariant
            from <= j <= src@.len(),
            ident_end(src@, from as int) == ident_end(src@, j as int),
        decreases src@.len() - j,
    {
        proof {
            assert(ident_end(src@, j as int) == ident_end(src@, j + 1));
        }
        j = j + 1;
    }
    proof {
        assert(ident_end(src@, j as int) == j);
    }
    j
}

/// First index at or after `from` holding `target`, or the buffer's length.
fn find_char_from(src: &Vec<char>, from: usize, target: char) -> (j: usize)
    requires
        from <= src@.len(),
    ensures
        j as int == find_char(src@, from as int, target),
        from <= j <= src@.len(),
{
    let mut j: usize = from;
    while j < src.len() && src[j] != target
        invariant
            from <= j <= src@.len(),
            find_char(src@, from as int, target) == find_char(src@, j as int, target),
        decreases src@.len() - j,
    {
        proof {
            assert(find_char(src@, j as int, target) == find_char(src@, j + 1, target));
        }
        j = j + 1;
    }
    proof {
        assert(find_char(src@, j as int, target) == j);
    }
    j
}

/// How many newline characters stand in the buffer between `from` (inclusive)
/// and `to` (exclusive).
fn count_newlines_range(src: &Vec<char>, from: usize, to: usize) -> (n: usize)
    requires
        from <= to <= src@.len(),
    ensures
        n as int == count_newlines(src@.subrange(from as int, to as int)),
        n <= to - from,
{
    let mut n: usize = 0;
    let mut k: usize = from;
    proof {
        assert(src@.subrange(from as int, from as int) =~= Seq::<char>::empty());
    }
    while k < to
        invariant
            from <= k <= to <= src@.len(),
            n as int == count_newlines(src@.subrange(from as int, k as int)),
            n <= k - from,
        decreases to - k,
    {
        proof {
            assert(src@.subrange(from as int, k + 1).drop_last() =~= src@.subrange(
                from as int,
                k as int,
            ));
            assert(src@.subrange(from as int, k + 1).last() == src@[k as int]);
        }
        if src[k] == '\n' {
            n = n + 1;
        }
        k = k + 1;
    }
    n
}

/// The fixed keyword table: the reserved-word category of `lex`, or `None`
/// when `lex` is an ordinary identifier. Case-sensitive exact match.
fn keyword_token_kind(lex: &String) -> (k: Option<TokenKind>)
    ensures
        k matches Some(t) ==> keyword_kind(lex@) == Some(t@),
        k is None ==> keyword_kind(lex@) is None,
{
    if *lex == "and".to_owned() { Some(TokenKind::And) }
    else if *lex == "class".to_owned() { Some(TokenKind::Class) }
    else if *lex == "else".to_owned() { Some(TokenKind::Else) }
    else if *lex == "false".to_owned() { Some(TokenKind::False) }
    else if *lex == "for".to_owned() { Some(TokenKind::For) }
    else if *lex == "fun".to_owned() { Some(TokenKind::Fun) }
    else if *lex == "if".to_owned() { Some(TokenKind::If) }
    else if *lex == "nil".to_owned() { Some(TokenKind::Nil) }
    else if *lex == "or".to_owned() { Some(TokenKind::Or) }
    else if *lex == "print".to_owned() { Some(TokenKind::Print) }
    else if *lex == "return".to_owned() { Some(TokenKind::Return) }
    else if *lex == "super".to_owned() { Some(TokenKind::Super) }
    else if *lex == "this".to_owned() { Some(TokenKind::This) }
    else if *lex == "true".to_owned() { Some(TokenKind::True) }
    else if *lex == "var".to_owned() { Some(TokenKind::Var) }
    else if *lex == "while".to_owned() { Some(TokenKind::While) }
    else { None }
}

fn punct_token_kind(c: char) -> (k: TokenKind)
    requires
        is_punct(c),
    ensures
        k@ == punct_kind(c),
{
    if c == '(' { TokenKind::LeftParen }
    else if c == ')' { TokenKind::RightParen }
    else if c == '{' { TokenKind::LeftBrace }
    else if c == '}' { TokenKind::RightBrace }
    else if c == ',' { TokenKind::Comma }
    else if c == '.' { TokenKind::Dot }
    else if c == '-' { TokenKind::Minus }
    else if c == '+' { TokenKind::Plus }
    else if c == ';' { TokenKind::Semicolon }
    else { TokenKind::Star }
}

fn op_single_token_kind(c: char) -> (k: TokenKind)
    requires
        is_op_start(c),
    ensures
        k@ == op_single_kind(c),
{
    if c == '!' { TokenKind::Bang }
    else if c == '=' { TokenKind::Equal }
    else if c == '<' { TokenKind::Less }
    else { TokenKind::Greater }
}

fn op_double_token_kind(c: char) -> (k: TokenKind)
    requires
        is_op_start(c),
    ensures
        k@ == op_double_kind(c),
{
    if c == '!' { TokenKind::BangEqual }
    else if c == '=' { TokenKind::EqualEqual }
    else if c == '<' { TokenKind::LessEqual }
    else { TokenKind::GreaterEqual }
}

/// One dispatch step emitted a token: the accumulated output still lines up
/// with the reference scan.
proof fn lemma_token_step(
    full: SpecScan,
    s: Seq<char>,
    pre_i: int,
    pre_line: int,
    next_i: int,
    next_line: int,
    st: SpecToken,
    pre_tokens: Seq<Token>,
    pre_diags: Seq<Diagnostic>,
    t: Token,
)
    requires
        scan_from(s, pre_i, pre_line) == cons_token(st, scan_from(s, next_i, next_line)),
        t@ == st,
        full.tokens == tokens_view(pre_tokens) + scan_from(s, pre_i, pre_line).tokens,
        full.diags == diags_view(pre_diags) + scan_from(s, pre_i, pre_line).diags,
    ensures
        full.tokens == tokens_view(pre_tokens.push(t)) + scan_from(s, next_i, next_line).tokens,
        full.diags == diags_view(pre_diags) + scan_from(s, next_i, next_line).diags,
{
    let rest = scan_from(s, next_i, next_line);
    lemma_tokens_view_push(pre_tokens, t);
    assert(tokens_view(pre_tokens.push(t)) + rest.tokens =~= tokens_view(pre_tokens) + (seq![st]
        + rest.tokens));
}

/// One dispatch step emitted a diagnostic: the accumulated output still lines
/// up with the reference scan.
proof fn lemma_diag_step(
    full: SpecScan,
    s: Seq<char>,
    pre_i: int,
    pre_line: int,
    next_i: int,
    next_line: int,
    sd: SpecDiagnostic,
    pre_tokens: Seq<Token>,
    pre_diags: Seq<Diagnostic>,
    d: Diagnostic,
)
    requires
        scan_from(s, pre_i, pre_line) == cons_diag(sd, scan_from(s, next_i, next_line)),
        d@ == sd,
        full.tokens == tokens_view(pre_tokens) + scan_from(s, pre_i, pre_line).tokens,
        full.diags == diags_view(pre_diags) + scan_from(s, pre_i, pre_line).diags,
    ensures
        full.tokens == tokens_view(pre_tokens) + scan_from(s, next_i, next_line).tokens,
        full.diags == diags_view(pre_diags.push(d)) + scan_from(s, next_i, next_line).diags,
{
    let rest = scan_from(s, next_i, next_line);
    lemma_diags_view_push(pre_diags, d);
    assert(diags_view(pre_diags.push(d)) + rest.diags =~= diags_view(pre_diags) + (seq![sd]
        + rest.diags));
}

/// One full scan of the character buffer: the ordered token sequence (closed
/// by an End-of-Input token) together with the ordered lexical diagnostics,
/// exactly as the reference model `scan_from` describes them, starting at the
/// first character on line 1.
///
/// The length bound is a machine limit: the line counter may reach one more
/// than the number of characters consumed, and must itself fit in `usize`.
pub fn scan_tokens(source: &Vec<char>) -> (r: (Vec<Token>, Vec<Diagnostic>))
    requires
        source@.len() < usize::MAX,
    ensures
        tokens_view(r.0@) == scan_from(source@, 0, 1).tokens,
        diags_view(r.1@) == scan_from(source@, 0, 1).diags,
        r.0@.len() > 0,
        r.0@.last()@.kind is EndOfInput,
        r.0@.last()@.line == 1 + count_newlines(source@),
{
    let ghost s = source@;
    let ghost full = scan_from(s, 0, 1);
    let mut tokens: Vec<Token> = Vec::new();
    let mut diags: Vec<Diagnostic> = Vec::new();
    let mut i: usize = 0;
    let mut line: usize = 1;

    proof {
        assert(tokens_view(tokens@) =~= Seq::<SpecToken>::empty());
        assert(diags_view(diags@) =~= Seq::<SpecDiagnostic>::empty());
        assert(full.tokens =~= tokens_view(tokens@) + scan_from(s, 0, 1).tokens);
        assert(full.diags =~= diags_view(diags@) + scan_from(s, 0, 1).diags);
    }

    while i < source.len()
        invariant
            source@ == s,
            i <= s.len() < usize::MAX,
            1 <= line,
            line as int <= 1 + i as int,
            full == scan_from(s, 0, 1),
            full.tokens == tokens_view(tokens@) + scan_from(s, i as int, line as int).tokens,
            full.diags == diags_view(diags@) + scan_from(s, i as int, line as int).diags,
        decreases s.len() - i,
    {
        let c = source[i];
        let ghost pre_i = i as int;
        let ghost pre_line = line as int;
        let ghost pre_tokens = tokens@;
        let ghost pre_diags = diags@;

        if c == '(' || c == ')' || c == '{' || c == '}' || c == ',' || c == '.' || c == '-'
            || c == '+' || c == ';' || c == '*' {
            let kind = punct_token_kind(c);
            let t = Token::new(kind, char_string(c), line);
            tokens.push(t);
            i = i + 1;
            proof {
                let st = SpecToken {
                    kind: punct_kind(c),
                    lexeme: s.subrange(pre_i, pre_i + 1),
                    line: pre_line,
                };
                assert(seq![c] =~= s.subrange(pre_i, pre_i + 1));
                assert(scan_from(s, pre_i, pre_line) == cons_token(
                    st,
                    scan_from(s, i as int, line as int),
                ));
                lemma_token_step(
                    full, s, pre_i, pre_line, i as int, line as int, st, pre_tokens, pre_diags, t,
                );
            }
        } else if c == '!' || c == '=' || c == '<' || c == '>' {
            if i + 1 < source.len() && source[i + 1] == '=' {
                let kind = op_double_token_kind(c);
                let t = Token::new(kind, two_char_string(c, '='), line);
                tokens.push(t);
                i = i + 2;
                proof {
                    let st = SpecToken {
                        kind: op_double_kind(c),
                        lexeme: s.subrange(pre_i, pre_i + 2),
                        line: pre_line,
                    };
                    assert(seq![c, '='] =~= s.subrange(pre_i, pre_i + 2));
                    assert(scan_from(s, pre_i, pre_line) == cons_token(
                        st,
                        scan_from(s, i as int, line as int),
                    ));
                    lemma_token_step(
                        full, s, pre_i, pre_line, i as int, line as int, st, pre_tokens,
                        pre_diags, t,
                    );
                }
            } else {
                let kind = op_single_token_kind(c);
                let t = Token::new(kind, char_string(c), line);
                tokens.push(t);
                i = i + 1;
                proof {
                    let st = SpecToken {
                        kind: op_single_kind(c),
                        lexeme: s.subrange(pre_i, pre_i + 1),
                        line: pre_line,
                    };
                    assert(seq![c] =~= s.subrange(pre_i, pre_i + 1));
                    assert(scan_from(s, pre_i, pre_line) == cons_token(
                        st,
                        scan_from(s, i as int, line as int),
                    ));
                    lemma_token_step(
                        full, s, pre_i, pre_line, i as int, line as int, st, pre_tokens,
                        pre_diags, t,
                    );
                }
            }
        } else if c == '/' {
            if i + 1 < source.len() && source[i + 1] == '/' {
                let j = find_char_from(source, i + 2, '\n');
                if j < source.len() {
                    i = j + 1;
                    line = line + 1;
                } else {
                    i = j;
                }
                proof {
                    assert(scan_from(s, pre_i, pre_line) == scan_from(s, i as int, line as int));
                }
            } else {
                let t = Token::new(TokenKind::Slash, char_string(c), line);
                tokens.push(t);
                i = i + 1;
                proof {
                    let st = SpecToken {
                        kind: crate::model::SpecKind::Slash,
                        lexeme: s.subrange(pre_i, pre_i + 1),
                        line: pre_line,
                    };
                    assert(seq![c] =~= s.subrange(pre_i, pre_i + 1));
                    assert(scan_from(s, pre_i, pre_line) == cons_token(
                        st,
                        scan_from(s, i as int, line as int),
                    ));
                    lemma_token_step(
                        full, s, pre_i, pre_line, i as int, line as int, st, pre_tokens,
                        pre_diags, t,
                    );
                }
            }
        } else if c == ' ' || c == '\r' || c == '\t' {
            i = i + 1;
            proof {
                assert(scan_from(s, pre_i, pre_line) == scan_from(s, i as int, line as int));
            }
        } else if c == '\n' {
            i = i + 1;
            line = line + 1;
            proof {
                assert(scan_from(s, pre_i, pre_line) == scan_from(s, i as int, line as int));
            }
        } else if c == '"' {
            let j = find_char_from(source, i + 1, '"');
            let nl = count_newlines_range(source, i + 1, j);
            if j < source.len() {
                let contents = chars_string(source, i + 1, j);
                let lexeme = contents.clone();
                let t = Token::new(TokenKind::Str(contents), lexeme, line);
                tokens.push(t);
                i = j + 1;
                line = line + nl;
                proof {
                    let st = SpecToken {
                        kind: crate::model::SpecKind::Str(s.subrange(pre_i + 1, j as int)),
                        lexeme: s.subrange(pre_i + 1, j as int),
                        line: pre_line,
                    };
                    assert(scan_from(s, pre_i, pre_line) == cons_token(
                        st,
                        scan_from(s, i as int, line as int),
                    ));
                    lemma_token_step(
                        full, s, pre_i, pre_line, i as int, line as int, st, pre_tokens,
                        pre_diags, t,
                    );
                }
            } else {
                let d = error(line, "Unterminated string");
                diags.push(d);
                i = source.len();
                line = line + nl;
                proof {
                    let sd = SpecDiagnostic {
                        line: pre_line,
                        location: Seq::<char>::empty(),
                        message: unterminated_string_message(),
                    };
                    assert(scan_from(s, pre_i, pre_line) == cons_diag(
                        sd,
                        scan_from(s, i as int, line as int),
                    ));
                    lemma_diag_step(
                        full, s, pre_i, pre_line, i as int, line as int, sd, pre_tokens,
                        pre_diags, d,
                    );
                }
            }
        } else if is_digit_char(c) {
            let d1 = skip_digits(source, i);
            let end: usize;
            if d1 < source.len() - 1 && source[d1] == '.' && is_digit_char(source[d1 + 1]) {
                end = skip_digits(source, d1 + 2);
            } else {
                end = d1;
            }
            proof {
                lemma_number_end(s, pre_i);
                assert(end as int == number_end(s, pre_i));
            }
            let lexeme = chars_string(source, i, end);
            let payload = lexeme.clone();
            let t = Token::new(TokenKind::Number(payload), lexeme, line);
            tokens.push(t);
            i = end;
            proof {
                let st = SpecToken {
                    kind: crate::model::SpecKind::Number(s.subrange(pre_i, end as int)),
                    lexeme: s.subrange(pre_i, end as int),
                    line: pre_line,
                };
                assert(scan_from(s, pre_i, pre_line) == cons_token(
                    st,
                    scan_from(s, i as int, line as int),
                ));
                lemma_token_step(
                    full, s, pre_i, pre_line, i as int, line as int, st, pre_tokens, pre_diags, t,
                );
            }
        } else if is_alpha_char(c) {
            proof {
                lemma_ident_end(s, pre_i);
            }
            let end = skip_alnum(source, i);
            let lexeme = chars_string(source, i, end);
            let kw = keyword_token_kind(&lexeme);
            let t = match kw {
                Some(k) => Token::new(k, lexeme, line),
                None => {
                    let name = lexeme.clone();
                    Token::new(TokenKind::Identifier(name), lexeme, line)
                },
            };
            tokens.push(t);
            i = end;
            proof {
                let lex = s.subrange(pre_i, end as int);
                let st = SpecToken {
                    kind: match keyword_kind(lex) {
                        Some(k) => k,
                        None => crate::model::SpecKind::Identifier(lex),
                    },
                    lexeme: lex,
                    line: pre_line,
                };
                assert(t@ == st);
                assert(scan_from(s, pre_i, pre_line) == cons_token(
                    st,
                    scan_from(s, i as int, line as int),
                ));
                lemma_token_step(
                    full, s, pre_i, pre_line, i as int, line as int, st, pre_tokens, pre_diags, t,
                );
            }
        } else {
            let mut message = "Unknown character: ".to_owned();
            message.push(c);
            let d = error(line, message.as_str());
            diags.push(d);
            i = i + 1;
            proof {
                let sd = SpecDiagnostic {
                    line: pre_line,
                    location: Seq::<char>::empty(),
                    message: unknown_char_message(c),
                };
                assert(d@ == sd);
                assert(scan_from(s, pre_i, pre_line) == cons_diag(
                    sd,
                    scan_from(s, i as int, line as int),
                ));
                lemma_diag_step(
                    full, s, pre_i, pre_line, i as int, line as int, sd, pre_tokens, pre_diags, d,
                );
            }
        }
    }

    let ghost pre_tokens = tokens@;
    let t = Token::new(TokenKind::EndOfInput, String::new(), line);
    tokens.push(t);
    proof {
        assert(scan_from(s, i as int, line as int).tokens =~= seq![eof_token(line as int)]);
        assert(t@ == eof_token(line as int));
        lemma_tokens_view_push(pre_tokens, t);
        assert(tokens_view(tokens@) =~= tokens_view(pre_tokens) + seq![eof_token(line as int)]);
        assert(tokens_view(tokens@) == full.tokens);
        assert(scan_from(s, i as int, line as int).diags =~= Seq::<SpecDiagnostic>::empty());
        assert(diags_view(diags@) =~= full.diags);
        crate::laws::lemma_tokens_end_with_eof(s);
        crate::laws::lemma_lines_monotone_and_counted(s);
        assert(tokens@.last()@ == tokens_view(tokens@).last());
    }
    (tokens, diags)
}

} // verus!
