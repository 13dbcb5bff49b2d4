use tautology::cnf::distribute;
use tautology::nnf::positive;
use tautology::Prop;

fn rich_landed_saintly() -> Prop {
    let rich = Prop::atom("rich");
    let landed = Prop::atom("landed");
    let saintly = Prop::atom("saintly");
    let assumption1 = landed.implies(&rich);
    let assumption2 = saintly.and(&rich).not();
    let conclusion = landed.implies(&saintly.not());

    assumption1.and(&assumption2).implies(&conclusion)
}

#[test]
fn cnf_distribute_disjunctions() {
    let rich = Prop::atom("rich");
    let landed = Prop::atom("landed");
    let saintly = Prop::atom("saintly");
    let goal = distribute(&rich.and(&saintly), &landed.and(&rich.not()));

    assert_eq!(
        goal.to_string(),
        "(rich ∨ landed) ∧ (saintly ∨ landed) ∧ (rich ∨ ¬rich) ∧ (saintly ∨ ¬rich)"
    );
}

#[test]
fn cnf_cnf_of_rich_landed_saintly() {
    assert_eq!(
        rich_landed_saintly().nnf().cnf().to_string(),
        "(landed ∨ saintly ∨ ¬landed ∨ ¬saintly) ∧ (¬rich ∨ saintly ∨ ¬landed ∨ ¬saintly) ∧ (landed ∨ rich ∨ ¬landed ∨ ¬saintly) ∧ (¬rich ∨ rich ∨ ¬landed ∨ ¬saintly)"
    );
}

#[test]
fn display_display_atom() {
    let a = Prop::atom("a");

    assert_eq!(a.to_string(), "a");
}

#[test]
fn display_display_negation() {
    let a = Prop::atom("a");

    assert_eq!(a.not().to_string(), "¬a");
}

#[test]
fn display_display_disjunction() {
    let a = Prop::atom("a");
    let b = Prop::atom("b");

    assert_eq!(a.or(&b).to_string(), "a ∨ b");
}

#[test]
fn display_display_conjunction() {
    let a = Prop::atom("a");
    let b = Prop::atom("b");

    assert_eq!(a.and(&b).to_string(), "a ∧ b");
}

#[test]
fn display_display_implication() {
    let a = Prop::atom("a");
    let b = Prop::atom("b");

    assert_eq!(a.implies(&b).to_string(), "¬a ∨ b");
}

#[test]
fn display_no_parentheses_on_different_operator_precedences() {
    let a = Prop::atom("a");
    let b = Prop::atom("b");
    let c = Prop::atom("c");

    assert_eq!(a.not().and(&b).or(&c).to_string(), "¬a ∧ b ∨ c");
}

#[test]
fn display_no_parentheses_on_same_operator_precedence() {
    let a = Prop::atom("a");
    let b = Prop::atom("b");
    let c = Prop::atom("c");
    let d = Prop::atom("d");

    assert_eq!(a.and(&b).and(&c.and(&d)).to_string(), "a ∧ b ∧ c ∧ d");
}

#[test]
fn display_display_rich_landed_saintly() {
    assert_eq!(
        rich_landed_saintly().to_string(),
        "¬((¬landed ∨ rich) ∧ ¬(saintly ∧ rich)) ∨ ¬landed ∨ ¬saintly"
    );
}

#[test]
fn mod_display_atom() {
    let a = Prop::atom("a");

    assert_eq!(a.to_pretty_string(), "a");
}

#[test]
fn mod_display_negation() {
    let a = Prop::atom("a");

    assert_eq!(a.not().to_pretty_string(), "¬a");
}

#[test]
fn mod_display_disjunction() {
    let a = Prop::atom("a");
    let b = Prop::atom("b");

    assert_eq!(a.or(&b).to_pretty_string(), "a ∨ b");
}

#[test]
fn mod_display_conjunction() {
    let a = Prop::atom("a");
    let b = Prop::atom("b");

    assert_eq!(a.and(&b).to_pretty_string(), "a ∧ b");
}

#[test]
fn mod_display_implication() {
    let a = Prop::atom("a");
    let b = Prop::atom("b");

    assert_eq!(a.implies(&b).to_pretty_string(), "¬a ∨ b");
}

#[test]
fn mod_no_parentheses_on_different_operator_precedences() {
    let a = Prop::atom("a");
    let b = Prop::atom("b");
    let c = Prop::atom("c");

    assert_eq!(a.not().and(&b).or(&c).to_pretty_string(), "¬a ∧ b ∨ c");
}

#[test]
fn mod_no_parentheses_on_same_operator_precedence() {
    let a = Prop::atom("a");
    let b = Prop::atom("b");
    let c = Prop::atom("c");
    let d = Prop::atom("d");

    assert_eq!(a.and(&b).and(&c.and(&d)).to_pretty_string(), "a ∧ b ∧ c ∧ d");
}

#[test]
fn mod_display_rich_landed_saintly() {
    assert_eq!(
        rich_landed_saintly().to_pretty_string(),
        "¬((¬landed ∨ rich) ∧ ¬(saintly ∧ rich)) ∨ ¬landed ∨ ¬saintly"
    );
}

#[test]
fn evaluate_evaluate_false_atom() {
    let a = Prop::atom("a");

    assert!(!a.evaluate(&[]));
}

#[test]
fn evaluate_evaluate_true_atom() {
    let a = Prop::atom("a");

    assert!(a.evaluate(&[&a]));
}

#[test]
fn evaluate_evaluate_negation_of_false_atom() {
    let a = Prop::atom("a");

    assert!(a.not().evaluate(&[]));
}

#[test]
fn evaluate_evaluate_negation_of_true_atom() {
    let a = Prop::atom("a");

    assert!(!a.not().evaluate(&[&a]));
}

#[test]
fn evaluate_evaluate_conjunction_not_a_not_b() {
    let a = Prop::atom("a");
    let b = Prop::atom("b");

    assert!(!a.and(&b).evaluate(&[]));
}

#[test]
fn evaluate_evaluate_conjunction_not_a_b() {
    let a = Prop::atom("a");
    let b = Prop::atom("b");

    assert!(!a.and(&b).evaluate(&[&b]));
}

#[test]
fn evaluate_evaluate_conjunction_a_not_b() {
    let a = Prop::atom("a");
    let b = Prop::atom("b");

    assert!(!a.and(&b).evaluate(&[&a]));
}

#[test]
fn evaluate_evaluate_conjunction_a_b() {
    let a = Prop::atom("a");
    let b = Prop::atom("b");

    assert!(a.and(&b).evaluate(&[&a, &b]));
}

#[test]
fn evaluate_evaluate_disjunction_not_a_not_b() {
    let a = Prop::atom("a");
    let b = Prop::atom("b");

    assert!(!a.or(&b).evaluate(&[]));
}

#[test]
fn evaluate_evaluate_disjunction_not_a_b() {
    let a = Prop::atom("a");
    let b = Prop::atom("b");

    assert!(a.or(&b).evaluate(&[&b]));
}

#[test]
fn evaluate_evaluate_disjunction_a_not_b() {
    let a = Prop::atom("a");
    let b = Prop::atom("b");

    assert!(a.or(&b).evaluate(&[&a]));
}

#[test]
fn evaluate_evaluate_disjunction_a_b() {
    let a = Prop::atom("a");
    let b = Prop::atom("b");

    assert!(a.or(&b).evaluate(&[&a, &b]));
}

#[test]
fn evaluate_evaluate_rich_landed_saintly() {
    let landed = Prop::atom("landed");

    assert!(rich_landed_saintly().evaluate(&[&landed]));
}

#[test]
fn propositions_evaluate_false_atom() {
    let a = Prop::atom("a");

    assert!(!a.evaluate(&[]));
}

#[test]
fn propositions_evaluate_true_atom() {
    let a = Prop::atom("a");

    assert!(a.evaluate(&[&a]));
}

#[test]
fn propositions_evaluate_negation_of_false_atom() {
    let a = Prop::atom("a");

    assert!(a.not().evaluate(&[]));
}

#[test]
fn propositions_evaluate_negation_of_true_atom() {
    let a = Prop::atom("a");

    assert!(!a.not().evaluate(&[&a]));
}

#[test]
fn propositions_evaluate_conjunction_not_a_not_b() {
    let a = Prop::atom("a");
    let b = Prop::atom("b");

    assert!(!a.and(&b).evaluate(&[]));
}

#[test]
fn propositions_evaluate_conjunction_not_a_b() {
    let a = Prop::atom("a");
    let b = Prop::atom("b");

    assert!(!a.and(&b).evaluate(&[&b]));
}

#[test]
fn propositions_evaluate_conjunction_a_not_b() {
    let a = Prop::atom("a");
    let b = Prop::atom("b");

    assert!(!a.and(&b).evaluate(&[&a]));
}

#[test]
fn propositions_evaluate_conjunction_a_b() {
    let a = Prop::atom("a");
    let b = Prop::atom("b");

    assert!(a.and(&b).evaluate(&[&a, &b]));
}

#[test]
fn propositions_evaluate_disjunction_not_a_not_b() {
    let a = Prop::atom("a");
    let b = Prop::atom("b");

    assert!(!a.or(&b).evaluate(&[]));
}

#[test]
fn propositions_evaluate_disjunction_not_a_b() {
    let a = Prop::atom("a");
    let b = Prop::atom("b");

    assert!(a.or(&b).evaluate(&[&b]));
}

#[test]
fn propositions_evaluate_disjunction_a_not_b() {
    let a = Prop::atom("a");
    let b = Prop::atom("b");

    assert!(a.or(&b).evaluate(&[&a]));
}

#[test]
fn propositions_evaluate_disjunction_a_b() {
    let a = Prop::atom("a");
    let b = Prop::atom("b");

    assert!(a.or(&b).evaluate(&[&a, &b]));
}

#[test]
fn propositions_evaluate_rich_landed_saintly() {
    let landed = Prop::atom("landed");

    assert!(rich_landed_saintly().evaluate(&[&landed]));
}

#[test]
fn of_not_saintly_and_rich() {
    let rich = Prop::atom("rich");
    let saintly = Prop::atom("saintly");
    let nnf = positive(&saintly.and(&rich).not());

    assert_eq!(nnf.to_string(), "¬saintly ∨ ¬rich");
}

#[test]
fn tautology_are_the_landed_saintly() {
    assert!(rich_landed_saintly().is_tautology());
}

#[test]
fn propositions_no_parentheses_on_different_operator_precedences() {
    let a = Prop::atom("a");
    let b = Prop::atom("b");
    let c = Prop::atom("c");

    assert_eq!(a.not().and(&b).or(&c).to_string(), "¬a ∧ b ∨ c");
}

#[test]
fn propositions_no_parentheses_on_same_operator_precedence() {
    let a = Prop::atom("a");
    let b = Prop::atom("b");
    let c = Prop::atom("c");
    let d = Prop::atom("d");

    assert_eq!(a.and(&b).and(&c.and(&d)).to_string(), "a ∧ b ∧ c ∧ d");
}

#[test]
fn nnf_of_not_saintly_and_rich() {
    let rich = Prop::atom("rich");
    let saintly = Prop::atom("saintly");
    let nnf = positive(&saintly.and(&rich).not());

    assert_eq!(nnf.to_string(), "¬saintly ∨ ¬rich");
}

#[test]
fn propositions_distribute_disjunctions() {
    let rich = Prop::atom("rich");
    let landed = Prop::atom("landed");
    let saintly = Prop::atom("saintly");
    let goal = distribute(&rich.and(&saintly), &landed.and(&rich.not()));

    assert_eq!(
        goal.to_string(),
        "(rich ∨ landed) ∧ (saintly ∨ landed) ∧ (rich ∨ ¬rich) ∧ (saintly ∨ ¬rich)"
    );
}

#[test]
fn propositions_display_rich_landed_saintly() {
    assert_eq!(
        rich_landed_saintly().to_string(),
        "¬((¬landed ∨ rich) ∧ ¬(saintly ∧ rich)) ∨ ¬landed ∨ ¬saintly"
    );
}

#[test]
fn propositions_cnf_of_rich_landed_saintly() {
    assert_eq!(
        positive(&rich_landed_saintly()).cnf().to_string(),
        "(landed ∨ saintly ∨ ¬landed ∨ ¬saintly) ∧ (¬rich ∨ saintly ∨ ¬landed ∨ ¬saintly) ∧ (landed ∨ rich ∨ ¬landed ∨ ¬saintly) ∧ (¬rich ∨ rich ∨ ¬landed ∨ ¬saintly)"
    );
}

#[test]
fn propositions_are_the_landed_saintly() {
    assert!(rich_landed_saintly().is_tautology());
}
