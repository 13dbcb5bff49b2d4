use tautology::from_str::parse::{accept, reject, CharSource, Error, Lexer, Next, Scanner, Source};
use tautology::from_str::{Parser, Token, TokenSource};
use tautology::Prop;

fn token_source_from_string<'string>(s: &'string str) -> TokenSource<'string> {
    let cs = CharSource::new(s);
    let scanner = Scanner::try_from(cs).expect("char source should result in valid scanner");
    TokenSource::new(scanner)
}

fn parser_from_string<'string>(s: &'string str) -> Parser<'string, TokenSource<'string>> {
    let ts = token_source_from_string(s);
    let lexer = Lexer::try_from(ts).expect("token source should result in valid lexer");
    Parser::new(lexer)
}

fn returned_value(result: Result<Prop, Error>) -> String {
    match result {
        Ok(value) => value.to_string(),
        Err(error) => {
            format!("error at {}: {}", error.offset(), error.message())
        }
    }
}

fn returned_error(result: Result<Prop, Error>) -> Error {
    match result {
        Ok(_) => Error::new(0, "expected error"),
        Err(error) => error,
    }
}

#[test]
fn token_source_empty_string() {
    let mut ts = token_source_from_string("");

    assert_eq!(ts.next(), accept(Next::Value(0, Token::EndOfInput)));
    assert_eq!(ts.next(), accept(Next::Value(0, Token::EndOfInput)));
}

#[test]
fn token_source_name() {
    let mut ts = token_source_from_string("atom_something_else");

    assert_eq!(ts.next(), accept(Next::Value(0, Token::Name("atom"))));
}

#[test]
fn token_source_skip_spaces() {
    let mut ts = token_source_from_string("    atom_something_else");

    assert_eq!(ts.next(), accept(Next::Value(4, Token::Name("atom"))));
}

#[test]
fn token_source_or() {
    let mut ts = token_source_from_string("|");

    assert_eq!(ts.next(), accept(Next::Value(0, Token::Or)));
}

#[test]
fn token_source_and() {
    let mut ts = token_source_from_string("&");

    assert_eq!(ts.next(), accept(Next::Value(0, Token::And)));
}

#[test]
fn token_source_not() {
    let mut ts = token_source_from_string("~");

    assert_eq!(ts.next(), accept(Next::Value(0, Token::Not)));
}

#[test]
fn token_source_open() {
    let mut ts = token_source_from_string("(");

    assert_eq!(ts.next(), accept(Next::Value(0, Token::Open)));
}

#[test]
fn token_source_close() {
    let mut ts = token_source_from_string(")");

    assert_eq!(ts.next(), accept(Next::Value(0, Token::Close)));
}

#[test]
fn token_source_implies() {
    let mut ts = token_source_from_string("->");

    assert_eq!(ts.next(), accept(Next::Value(0, Token::Implies)));
}

#[test]
fn token_source_broken_implies() {
    let mut ts = token_source_from_string("-");

    assert_eq!(ts.next(), reject(1, "expected ->"));
}

#[test]
fn token_source_invalid_character() {
    let mut ts = token_source_from_string("   123");

    assert_eq!(ts.next(), reject(3, "invalid character"));
}

#[test]
fn parse_atom_valid() {
    let mut parser = parser_from_string("atom");

    assert_eq!(returned_value(parser.atom()), "atom");
}

#[test]
fn parse_atom_invalid() {
    let mut parser = parser_from_string("&");

    assert_eq!(returned_error(parser.atom()), Error::new(0, "expected atom"));
}

#[test]
fn parse_negation_valid() {
    let mut parser = parser_from_string("~atom");

    assert_eq!(returned_value(parser.negation()), "¬atom");
}

#[test]
fn parse_negation_invalid() {
    let mut parser = parser_from_string("&");

    assert_eq!(returned_error(parser.negation()), Error::new(0, "expected ~"));
}

#[test]
fn parse_negation_missing_proposition() {
    let mut parser = parser_from_string("~");

    assert_eq!(returned_error(parser.negation()), Error::new(1, "expected proposition"));
}

#[test]
fn parse_parentheses_valid() {
    let mut parser = parser_from_string("(atom)");

    assert_eq!(returned_value(parser.parentheses()), "atom");
}

#[test]
fn parse_parentheses_invalid() {
    let mut parser = parser_from_string("&");

    assert_eq!(returned_error(parser.parentheses()), Error::new(0, "expected ("));
}

#[test]
fn parse_parentheses_missing_proposition() {
    let mut parser = parser_from_string("(");

    assert_eq!(returned_error(parser.parentheses()), Error::new(1, "expected proposition"));
}

#[test]
fn parse_parentheses_missing_parenthesis() {
    let mut parser = parser_from_string("(atom");

    assert_eq!(returned_error(parser.parentheses()), Error::new(5, "expected )"));
}

#[test]
fn parse_factor_atom() {
    let mut parser = parser_from_string("atom");

    assert_eq!(returned_value(parser.factor()), "atom");
}

#[test]
fn parse_factor_negation() {
    let mut parser = parser_from_string("~atom");

    assert_eq!(returned_value(parser.factor()), "¬atom");
}

#[test]
fn parse_factor_parentheses() {
    let mut parser = parser_from_string("(~atom)");

    assert_eq!(returned_value(parser.factor()), "¬atom");
}

#[test]
fn parse_factor_invalid() {
    let mut parser = parser_from_string("&");

    assert_eq!(returned_error(parser.factor()), Error::new(0, "expected proposition"));
}

#[test]
fn parse_term_simple() {
    let mut parser = parser_from_string("a");

    assert_eq!(returned_value(parser.term()), "a");
}

#[test]
fn parse_term_and() {
    let mut parser = parser_from_string("a & b");

    assert_eq!(returned_value(parser.term()), "a ∧ b");
}

#[test]
fn parse_term_and_and() {
    let mut parser = parser_from_string("a & b & c");

    assert_eq!(returned_value(parser.term()), "a ∧ b ∧ c");
}

#[test]
fn parse_term_invalid() {
    let mut parser = parser_from_string("&");

    assert_eq!(returned_error(parser.term()), Error::new(0, "expected proposition"));
}

#[test]
fn parse_term_missing_term() {
    let mut parser = parser_from_string("a &");

    assert_eq!(returned_error(parser.term()), Error::new(3, "expected proposition"));
}

#[test]
fn parse_expression_simple() {
    let mut parser = parser_from_string("a");

    assert_eq!(returned_value(parser.expression()), "a");
}

#[test]
fn parse_expression_and() {
    let mut parser = parser_from_string("a | b");

    assert_eq!(returned_value(parser.expression()), "a ∨ b");
}

#[test]
fn parse_expression_and_and() {
    let mut parser = parser_from_string("a | b | c");

    assert_eq!(returned_value(parser.expression()), "a ∨ b ∨ c");
}

#[test]
fn parse_expression_invalid() {
    let mut parser = parser_from_string("&");

    assert_eq!(returned_error(parser.expression()), Error::new(0, "expected proposition"));
}

#[test]
fn parse_expression_missing_expression() {
    let mut parser = parser_from_string("a |");

    assert_eq!(returned_error(parser.expression()), Error::new(3, "expected proposition"));
}

#[test]
fn parse_proposition_simple() {
    let mut parser = parser_from_string("a");

    assert_eq!(returned_value(parser.proposition()), "a");
}

#[test]
fn parse_proposition_and() {
    let mut parser = parser_from_string("a -> b");

    assert_eq!(returned_value(parser.proposition()), "¬a ∨ b");
}

#[test]
fn parse_proposition_and_and() {
    let mut parser = parser_from_string("a -> b -> c");

    assert_eq!(returned_value(parser.proposition()), "¬a ∨ ¬b ∨ c");
}

#[test]
fn parse_proposition_invalid() {
    let mut parser = parser_from_string("&");

    assert_eq!(returned_error(parser.proposition()), Error::new(0, "expected proposition"));
}

#[test]
fn parse_proposition_missing_proposition() {
    let mut parser = parser_from_string("a ->");

    assert_eq!(returned_error(parser.proposition()), Error::new(4, "expected proposition"));
}

#[test]
fn parse_top_level_valid() {
    let mut parser = parser_from_string("atom");

    assert_eq!(returned_value(parser.top_level()), "atom");
}

#[test]
fn parse_top_level_invalid() {
    let mut parser = parser_from_string("&");

    assert_eq!(returned_error(parser.top_level()), Error::new(0, "expected proposition"));
}

#[test]
fn parse_top_level_no_end_of_input() {
    let mut parser = parser_from_string("atom atom");

    assert_eq!(returned_error(parser.top_level()), Error::new(5, "unexpected input"));
}

#[test]
fn parse_rich_landed_saintly() {
    let result = Prop::from_str("(landed -> rich) & ~(saintly & rich) -> (landed -> ~saintly)");

    assert_eq!(
        returned_value(result),
        "¬((¬landed ∨ rich) ∧ ¬(saintly ∧ rich)) ∨ ¬landed ∨ ¬saintly"
    );
}
