use lox_scanner::scanner::scan_tokens;
use lox_scanner::token::{error, Diagnostic, Token, TokenKind};

fn chars(s: &str) -> Vec<char> {
    s.chars().collect()
}

fn scan(s: &str) -> (Vec<Token>, Vec<Diagnostic>) {
    scan_tokens(&chars(s))
}

fn number_value(t: &Token) -> f64 {
    match &t.kind {
        TokenKind::Number(digits) => digits.parse::<f64>().unwrap(),
        _ => panic!("expected a number token, got {:?}", t.kind),
    }
}

#[test]
fn empty_input_yields_only_end_of_input() {
    let (tokens, diags) = scan("");
    assert_eq!(tokens.len(), 1);
    assert!(matches!(tokens[0].kind, TokenKind::EndOfInput));
    assert_eq!(tokens[0].lexeme, "");
    assert_eq!(tokens[0].line, 1);
    assert!(diags.is_empty());
}

#[test]
fn grouped_expression_with_comment() {
    let (tokens, diags) = scan("(1 + 2.5) // comment\n");
    assert_eq!(tokens.len(), 6);
    assert!(matches!(tokens[0].kind, TokenKind::LeftParen));
    assert_eq!(tokens[0].lexeme, "(");
    assert_eq!(number_value(&tokens[1]), 1.0);
    assert!(matches!(tokens[2].kind, TokenKind::Plus));
    assert_eq!(tokens[2].lexeme, "+");
    assert_eq!(number_value(&tokens[3]), 2.5);
    assert_eq!(tokens[3].lexeme, "2.5");
    assert!(matches!(tokens[4].kind, TokenKind::RightParen));
    assert!(matches!(tokens[5].kind, TokenKind::EndOfInput));
    assert_eq!(tokens[5].line, 2);
    for t in &tokens[..5] {
        assert_eq!(t.line, 1);
    }
    assert!(diags.is_empty());
}

#[test]
fn unterminated_string_is_reported_and_emits_no_token() {
    let (tokens, diags) = scan("var x = \"hi;");
    assert_eq!(diags.len(), 1);
    assert_eq!(diags[0].message, "Unterminated string");
    assert_eq!(diags[0].line, 1);
    assert_eq!(diags[0].location, "");
    assert_eq!(tokens.len(), 4);
    assert!(matches!(tokens[0].kind, TokenKind::Var));
    assert!(matches!(&tokens[1].kind, TokenKind::Identifier(n) if n == "x"));
    assert!(matches!(tokens[2].kind, TokenKind::Equal));
    assert!(matches!(tokens[3].kind, TokenKind::EndOfInput));
}

#[test]
fn greedy_two_character_operators() {
    let (tokens, diags) = scan("!=<=>==== ");
    assert_eq!(tokens.len(), 6);
    assert!(matches!(tokens[0].kind, TokenKind::BangEqual));
    assert_eq!(tokens[0].lexeme, "!=");
    assert!(matches!(tokens[1].kind, TokenKind::LessEqual));
    assert_eq!(tokens[1].lexeme, "<=");
    assert!(matches!(tokens[2].kind, TokenKind::GreaterEqual));
    assert_eq!(tokens[2].lexeme, ">=");
    assert!(matches!(tokens[3].kind, TokenKind::EqualEqual));
    assert_eq!(tokens[3].lexeme, "==");
    assert!(matches!(tokens[4].kind, TokenKind::Equal));
    assert_eq!(tokens[4].lexeme, "=");
    assert!(matches!(tokens[5].kind, TokenKind::EndOfInput));
    assert!(diags.is_empty());
}

#[test]
fn two_character_matching_never_overlaps() {
    let (tokens, diags) = scan("!=<=>=== ");
    assert_eq!(tokens.len(), 5);
    assert!(matches!(tokens[0].kind, TokenKind::BangEqual));
    assert!(matches!(tokens[1].kind, TokenKind::LessEqual));
    assert!(matches!(tokens[2].kind, TokenKind::GreaterEqual));
    assert!(matches!(tokens[3].kind, TokenKind::EqualEqual));
    assert!(matches!(tokens[4].kind, TokenKind::EndOfInput));
    assert!(diags.is_empty());
}

#[test]
fn trailing_dot_is_not_part_of_the_number() {
    let (tokens, diags) = scan("3.");
    assert_eq!(tokens.len(), 3);
    assert_eq!(number_value(&tokens[0]), 3.0);
    assert_eq!(tokens[0].lexeme, "3");
    assert!(matches!(tokens[1].kind, TokenKind::Dot));
    assert_eq!(tokens[1].lexeme, ".");
    assert!(matches!(tokens[2].kind, TokenKind::EndOfInput));
    assert!(diags.is_empty());
}

#[test]
fn unknown_character_is_reported_and_scanning_continues() {
    let (tokens, diags) = scan("(@)");
    assert_eq!(diags.len(), 1);
    assert_eq!(diags[0].message, "Unknown character: @");
    assert_eq!(diags[0].line, 1);
    assert_eq!(tokens.len(), 3);
    assert!(matches!(tokens[0].kind, TokenKind::LeftParen));
    assert!(matches!(tokens[1].kind, TokenKind::RightParen));
    assert!(matches!(tokens[2].kind, TokenKind::EndOfInput));
}

#[test]
fn every_keyword_is_resolved() {
    let (tokens, diags) =
        scan("and class else false for fun if nil or print return super this true var while");
    assert!(diags.is_empty());
    assert_eq!(tokens.len(), 17);
    assert!(matches!(tokens[0].kind, TokenKind::And));
    assert!(matches!(tokens[1].kind, TokenKind::Class));
    assert!(matches!(tokens[2].kind, TokenKind::Else));
    assert!(matches!(tokens[3].kind, TokenKind::False));
    assert!(matches!(tokens[4].kind, TokenKind::For));
    assert!(matches!(tokens[5].kind, TokenKind::Fun));
    assert!(matches!(tokens[6].kind, TokenKind::If));
    assert!(matches!(tokens[7].kind, TokenKind::Nil));
    assert!(matches!(tokens[8].kind, TokenKind::Or));
    assert!(matches!(tokens[9].kind, TokenKind::Print));
    assert!(matches!(tokens[10].kind, TokenKind::Return));
    assert!(matches!(tokens[11].kind, TokenKind::Super));
    assert!(matches!(tokens[12].kind, TokenKind::This));
    assert!(matches!(tokens[13].kind, TokenKind::True));
    assert!(matches!(tokens[14].kind, TokenKind::Var));
    assert!(matches!(tokens[15].kind, TokenKind::While));
    assert!(matches!(tokens[16].kind, TokenKind::EndOfInput));
}

#[test]
fn keyword_lookup_is_exact_and_case_sensitive() {
    let (tokens, _) = scan("android And orchid");
    assert!(matches!(&tokens[0].kind, TokenKind::Identifier(n) if n == "android"));
    assert!(matches!(&tokens[1].kind, TokenKind::Identifier(n) if n == "And"));
    assert!(matches!(&tokens[2].kind, TokenKind::Identifier(n) if n == "orchid"));
}

#[test]
fn string_contents_keep_newlines_and_lines_advance() {
    let (tokens, diags) = scan("\"a\nb\"x");
    assert!(diags.is_empty());
    assert_eq!(tokens.len(), 3);
    assert!(matches!(&tokens[0].kind, TokenKind::Str(c) if c == "a\nb"));
    assert_eq!(tokens[0].lexeme, "a\nb");
    assert_eq!(tokens[0].line, 1);
    assert!(matches!(&tokens[1].kind, TokenKind::Identifier(n) if n == "x"));
    assert_eq!(tokens[1].line, 2);
    assert_eq!(tokens[2].line, 2);
}

#[test]
fn unterminated_string_reports_the_opening_line() {
    let (tokens, diags) = scan("\n\"a\nb");
    assert_eq!(diags.len(), 1);
    assert_eq!(diags[0].message, "Unterminated string");
    assert_eq!(diags[0].line, 2);
    assert_eq!(tokens.len(), 1);
    assert!(matches!(tokens[0].kind, TokenKind::EndOfInput));
    assert_eq!(tokens[0].line, 3);
}

#[test]
fn comment_reaching_end_of_input_is_truncated() {
    let (tokens, diags) = scan("x // trailing words");
    assert!(diags.is_empty());
    assert_eq!(tokens.len(), 2);
    assert!(matches!(&tokens[0].kind, TokenKind::Identifier(n) if n == "x"));
    assert!(matches!(tokens[1].kind, TokenKind::EndOfInput));
    assert_eq!(tokens[1].line, 1);
}

#[test]
fn consecutive_dots_split_the_number() {
    let (tokens, diags) = scan("1..2");
    assert!(diags.is_empty());
    assert_eq!(tokens.len(), 5);
    assert_eq!(number_value(&tokens[0]), 1.0);
    assert!(matches!(tokens[1].kind, TokenKind::Dot));
    assert!(matches!(tokens[2].kind, TokenKind::Dot));
    assert_eq!(number_value(&tokens[3]), 2.0);
    assert!(matches!(tokens[4].kind, TokenKind::EndOfInput));
}

#[test]
fn single_character_punctuation_kinds() {
    let (tokens, diags) = scan("(){},.-+;*/");
    assert!(diags.is_empty());
    assert_eq!(tokens.len(), 12);
    assert!(matches!(tokens[0].kind, TokenKind::LeftParen));
    assert!(matches!(tokens[1].kind, TokenKind::RightParen));
    assert!(matches!(tokens[2].kind, TokenKind::LeftBrace));
    assert!(matches!(tokens[3].kind, TokenKind::RightBrace));
    assert!(matches!(tokens[4].kind, TokenKind::Comma));
    assert!(matches!(tokens[5].kind, TokenKind::Dot));
    assert!(matches!(tokens[6].kind, TokenKind::Minus));
    assert!(matches!(tokens[7].kind, TokenKind::Plus));
    assert!(matches!(tokens[8].kind, TokenKind::Semicolon));
    assert!(matches!(tokens[9].kind, TokenKind::Star));
    assert!(matches!(tokens[10].kind, TokenKind::Slash));
    assert!(matches!(tokens[11].kind, TokenKind::EndOfInput));
}

#[test]
fn single_character_operators_without_equal() {
    let (tokens, diags) = scan("!a<b>c=d");
    assert!(diags.is_empty());
    assert!(matches!(tokens[0].kind, TokenKind::Bang));
    assert!(matches!(tokens[2].kind, TokenKind::Less));
    assert!(matches!(tokens[4].kind, TokenKind::Greater));
    assert!(matches!(tokens[6].kind, TokenKind::Equal));
}

#[test]
fn division_between_numbers_emits_slash() {
    let (tokens, diags) = scan("8/2");
    assert!(diags.is_empty());
    assert_eq!(number_value(&tokens[0]), 8.0);
    assert!(matches!(tokens[1].kind, TokenKind::Slash));
    assert_eq!(tokens[1].lexeme, "/");
    assert_eq!(number_value(&tokens[2]), 2.0);
}

#[test]
fn lines_count_across_plain_newlines() {
    let (tokens, _) = scan("a\nb\nc");
    assert_eq!(tokens[0].line, 1);
    assert_eq!(tokens[1].line, 2);
    assert_eq!(tokens[2].line, 3);
    assert_eq!(tokens[3].line, 3);
    let lines: Vec<usize> = tokens.iter().map(|t| t.line).collect();
    let mut sorted = lines.clone();
    sorted.sort();
    assert_eq!(lines, sorted);
}

#[test]
fn whitespace_is_discarded() {
    let (tokens, diags) = scan(" \t\r x");
    assert!(diags.is_empty());
    assert_eq!(tokens.len(), 2);
    assert!(matches!(&tokens[0].kind, TokenKind::Identifier(n) if n == "x"));
    assert_eq!(tokens[0].line, 1);
}

#[test]
fn every_unknown_character_gets_its_own_diagnostic() {
    let (tokens, diags) = scan("@\n#");
    assert_eq!(diags.len(), 2);
    assert_eq!(diags[0].message, "Unknown character: @");
    assert_eq!(diags[0].line, 1);
    assert_eq!(diags[1].message, "Unknown character: #");
    assert_eq!(diags[1].line, 2);
    assert_eq!(tokens.len(), 1);
}

#[test]
fn error_builds_a_diagnostic_with_empty_location() {
    let d = error(3, "msg");
    assert_eq!(d.line, 3);
    assert_eq!(d.location, "");
    assert_eq!(d.message, "msg");
}

#[test]
fn token_new_keeps_its_fields() {
    let t = Token::new(TokenKind::Comma, ",".to_string(), 7);
    assert!(matches!(t.kind, TokenKind::Comma));
    assert_eq!(t.lexeme, ",");
    assert_eq!(t.line, 7);
}

#[test]
fn number_payload_equals_lexeme() {
    let (tokens, _) = scan("12.25");
    assert!(matches!(&tokens[0].kind, TokenKind::Number(d) if d == "12.25"));
    assert_eq!(tokens[0].lexeme, "12.25");
    assert_eq!(number_value(&tokens[0]), 12.25);
}
