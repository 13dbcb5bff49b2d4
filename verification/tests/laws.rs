use tautology::display::pretty::{print, try_print, Text};
use tautology::from_str::parse::Error;
use tautology::Prop;

fn atoms() -> (Prop, Prop, Prop) {
    (Prop::atom("a"), Prop::atom("b"), Prop::atom("c"))
}

fn landed_saintly() -> Prop {
    let rich = Prop::atom("rich");
    let landed = Prop::atom("landed");
    let saintly = Prop::atom("saintly");
    let assumption1 = landed.implies(&rich);
    let assumption2 = saintly.and(&rich).not();
    let conclusion = landed.implies(&saintly.not());

    assumption1.and(&assumption2).implies(&conclusion)
}

#[test]
fn excluded_middle_is_a_tautology() {
    let (a, _, _) = atoms();

    assert!(a.or(&a.not()).is_tautology());
    assert!(a.implies(&a).is_tautology());
}

#[test]
fn contradiction_is_not_a_tautology() {
    let (a, _, _) = atoms();
    let p = a.and(&a.not());

    assert!(!p.is_tautology());
    assert!(!p.evaluate(&[]));
    assert!(!p.evaluate(&[&a]));
}

#[test]
fn implication_is_not_a_tautology_and_fails_somewhere() {
    let (a, b, _) = atoms();
    let p = a.implies(&b);

    assert!(!p.is_tautology());
    assert!(!p.evaluate(&[&a]));
    assert!(p.evaluate(&[&b]));
}

#[test]
fn conjunction_elimination_is_a_tautology() {
    let (a, b, _) = atoms();

    assert!(a.and(&b).implies(&a).is_tautology());
    assert!(a.implies(&a.or(&b)).is_tautology());
}

#[test]
fn tautology_holds_under_every_valuation() {
    let p = landed_saintly();
    let rich = Prop::atom("rich");
    let landed = Prop::atom("landed");
    let saintly = Prop::atom("saintly");

    assert!(p.is_tautology());
    assert!(p.evaluate(&[]));
    assert!(p.evaluate(&[&rich]));
    assert!(p.evaluate(&[&landed]));
    assert!(p.evaluate(&[&saintly]));
    assert!(p.evaluate(&[&rich, &landed]));
    assert!(p.evaluate(&[&rich, &saintly]));
    assert!(p.evaluate(&[&landed, &saintly]));
    assert!(p.evaluate(&[&rich, &landed, &saintly]));
}

#[test]
fn evaluate_ignores_compound_true_atoms() {
    let (a, b, _) = atoms();
    let both = a.and(&b);

    assert!(!a.evaluate(&[&both]));
    assert!(a.evaluate(&[&both, &a]));
}

#[test]
fn normal_forms_keep_the_truth_value() {
    let (a, b, c) = atoms();
    let p = a.or(&b.not()).and(&c.implies(&a)).not();
    let nnf = p.nnf();
    let cnf = nnf.cnf();
    let valuations: [&[&Prop]; 8] = [
        &[],
        &[&a],
        &[&b],
        &[&c],
        &[&a, &b],
        &[&a, &c],
        &[&b, &c],
        &[&a, &b, &c],
    ];

    for valuation in valuations {
        assert_eq!(nnf.evaluate(valuation), p.evaluate(valuation));
        assert_eq!(cnf.evaluate(valuation), p.evaluate(valuation));
    }
}

#[test]
fn normal_forms_are_idempotent() {
    let p = landed_saintly();
    let nnf = p.nnf();
    let cnf = nnf.cnf();

    assert_eq!(nnf.nnf().to_string(), nnf.to_string());
    assert_eq!(cnf.nnf().cnf().to_string(), cnf.to_string());
}

#[test]
fn nnf_pushes_negations_to_atoms() {
    let (a, b, c) = atoms();
    let p = a.or(&b.not()).and(&c).not();

    assert_eq!(p.nnf().to_string(), "¬a ∧ b ∨ ¬c");
    assert_eq!(a.not().not().nnf().to_string(), "a");
}

#[test]
fn display_parenthesizes_weaker_operators() {
    let (a, b, c) = atoms();

    assert_eq!(a.or(&b).and(&c).to_string(), "(a ∨ b) ∧ c");
    assert_eq!(a.and(&b.or(&c)).to_string(), "a ∧ (b ∨ c)");
    assert_eq!(a.or(&b).not().to_string(), "¬(a ∨ b)");
    assert_eq!(a.and(&b).not().to_string(), "¬(a ∧ b)");
    assert_eq!(a.not().not().to_string(), "¬¬a");
}

#[test]
fn pretty_string_of_a_short_proposition_is_the_plain_one() {
    let p = landed_saintly();

    assert_eq!(p.to_pretty_string(), p.to_string());
    assert_eq!(p.try_to_pretty_string(), Some(p.to_string()));
}

#[test]
fn pretty_string_breaks_long_lines() {
    let p = landed_saintly().nnf().cnf();

    assert_eq!(
        p.to_pretty_string(),
        "(landed ∨ saintly ∨ ¬landed ∨ ¬saintly) ∧\n\
         (¬rich ∨ saintly ∨ ¬landed ∨ ¬saintly) ∧\n\
         (landed ∨ rich ∨ ¬landed ∨ ¬saintly) ∧\n\
         (¬rich ∨ rich ∨ ¬landed ∨ ¬saintly)"
    );
}

#[test]
fn pretty_string_of_deep_negations() {
    let mut p = Prop::atom("a");
    for _ in 0..60 {
        p = p.not();
    }
    let expected = format!("{}a", "¬".repeat(60));

    assert_eq!(p.try_to_pretty_string(), Some(expected));
    assert_eq!(p.not().try_to_pretty_string(), None);
}

#[test]
fn pretty_counts_graphemes_not_characters() {
    let accented = "e\u{301}e\u{301}e\u{301}e\u{301}e\u{301}e\u{301}e\u{301}e\u{301}e\u{301}e\u{301}";
    let text = Text::block(
        0,
        [
            Text::string(accented),
            Text::string_or_break(" "),
            Text::string("1234567890"),
        ],
    );
    let lines = print(text, 21);

    assert_eq!(lines, vec![format!("{} 1234567890", accented)]);
}

#[test]
fn print_refuses_a_block_indented_past_the_line() {
    let text = Text::block(5, [Text::string("ab")]);

    assert_eq!(try_print(&text, 3), None);
    assert_eq!(try_print(&text, 5), Some(vec!["ab".to_string()]));
}

#[test]
fn print_breaks_at_every_break_that_does_not_fit() {
    let text = Text::block(
        2,
        [
            Text::string("aaaa"),
            Text::string_or_break(" "),
            Text::string("bbbb"),
            Text::string_or_break(" "),
            Text::string("cccc"),
        ],
    );
    let lines = print(text, 9);

    assert_eq!(lines, vec!["aaaa bbbb", "  cccc"]);
}

#[test]
fn parse_errors_of_each_kind() {
    let cases = [
        ("", Error::new(0, "expected proposition")),
        ("a &", Error::new(3, "expected proposition")),
        ("a b", Error::new(2, "unexpected input")),
        ("a - b", Error::new(3, "expected ->")),
        ("a $", Error::new(2, "invalid character")),
        ("(a | b", Error::new(6, "expected )")),
        ("~", Error::new(1, "expected proposition")),
        ("a | ¬b", Error::new(4, "invalid character")),
    ];

    for (text, error) in cases {
        match Prop::from_str(text) {
            Ok(prop) => panic!("{} parsed as {}", text, prop.to_string()),
            Err(e) => assert_eq!(e, error, "{}", text),
        }
    }
}

#[test]
fn parse_precedence_and_associativity() {
    let cases = [
        ("a | b & c", "a ∨ b ∧ c"),
        ("(a | b) & c", "(a ∨ b) ∧ c"),
        ("~a & b", "¬a ∧ b"),
        ("~(a & b)", "¬(a ∧ b)"),
        ("a -> b | c", "¬a ∨ b ∨ c"),
        ("  spaced   &  out  ", "spaced ∧ out"),
        ("a->b", "¬a ∨ b"),
    ];

    for (text, shown) in cases {
        match Prop::from_str(text) {
            Ok(prop) => assert_eq!(prop.to_string(), shown, "{}", text),
            Err(e) => panic!("{} failed at {}: {}", text, e.offset(), e.message()),
        }
    }
}

#[test]
fn parsed_tautology_is_recognised() {
    let p = Prop::from_str("(landed -> rich) & ~(saintly & rich) -> (landed -> ~saintly)")
        .expect("the proposition should parse");

    assert!(p.is_tautology());
    assert!(!Prop::from_str("a | b").expect("should parse").is_tautology());
}
