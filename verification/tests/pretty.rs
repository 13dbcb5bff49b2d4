use tautology::display::pretty::{print, Text};
use tautology::display::term;
use tautology::Prop;

#[test]
fn print_string() {
    let text = Text::string("1234567890");
    let lines = print(text, 30);

    assert_eq!(lines, vec!["1234567890"]);
}

#[test]
fn print_string_or_break() {
    let text = Text::string_or_break("1234567890");
    let lines = print(text, 30);

    assert_eq!(lines, vec!["1234567890"]);
}

#[test]
fn print_block_that_fits() {
    let text = Text::block(0, [Text::string("1234567890")]);
    let lines = print(text, 30);

    assert_eq!(lines, vec!["1234567890"]);
}

#[test]
fn print_block_thats_too_wide() {
    let text = Text::block(0, [Text::string("1234567890")]);
    let lines = print(text, 5);

    assert_eq!(lines, vec!["1234567890"]);
}

#[test]
fn print_block_with_break_that_fits() {
    let text = Text::block(
        0,
        [
            Text::string("1234567890"),
            Text::string_or_break(" "),
            Text::string("1234567890"),
        ],
    );
    let lines = print(text, 30);

    assert_eq!(lines, vec!["1234567890 1234567890"]);
}

#[test]
fn print_block_with_break_thats_too_wide() {
    let text = Text::block(
        0,
        [
            Text::string("1234567890"),
            Text::string_or_break(" "),
            Text::string("1234567890"),
        ],
    );
    let lines = print(text, 15);

    assert_eq!(lines, vec!["1234567890", "1234567890"]);
}

#[test]
fn print_block_with_break_and_indentation_that_fits() {
    let text = Text::block(
        4,
        [
            Text::string("1234567890"),
            Text::string_or_break(" "),
            Text::string("1234567890"),
        ],
    );
    let lines = print(text, 30);

    assert_eq!(lines, vec!["1234567890 1234567890"]);
}

#[test]
fn print_block_with_break_and_indentation_thats_too_wide() {
    let text = Text::block(
        4,
        [
            Text::string("1234567890"),
            Text::string_or_break(" "),
            Text::string("1234567890"),
        ],
    );
    let lines = print(text, 15);

    assert_eq!(lines, vec!["1234567890", "    1234567890"]);
}

#[test]
fn display_rich_landed_saintly_narrowly() {
    let rich = Prop::atom("rich");
    let landed = Prop::atom("landed");
    let saintly = Prop::atom("saintly");
    let assumption1 = landed.implies(&rich);
    let assumption2 = saintly.and(&rich).not();
    let conclusion = landed.implies(&saintly.not());
    let prop = assumption1.and(&assumption2).implies(&conclusion);
    let text = term(&prop, 0);
    let lines = print(text, 30);

    assert_eq!(
        lines,
        vec![
            "¬((¬landed ∨ rich) ∧",
            "  ¬(saintly ∧ rich)) ∨",
            "¬landed ∨ ¬saintly"
        ]
    );
}
