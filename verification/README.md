# Tautology checker

A tautology checker for propositional logic, after Lawrence Paulson's
checker from *ML for the Working Programmer*, verified with Verus.

A proposition is parsed from text (`~`, `&`, `|`, `->`, parentheses and
names), brought into negation normal form and then into conjunctive normal
form; it is a tautology exactly when every clause holds some atom both
unnegated and negated. Propositions print on one line, or pretty-printed
into lines of 60 characters.

## Layout

- `src/formula.rs`: the mathematical model of propositions (`Formula`),
  their truth value and the normal forms.
- `src/types.rs`: `Prop`, shared terms behind reference-counted handles.
- `src/nnf.rs`, `src/cnf.rs`, `src/tautology.rs`, `src/evaluate.rs`: the
  transformations, the checker and evaluation, each with the laws it keeps.
- `src/from_str/`: the character source, streams, the lexer and the
  recursive-descent parser.
- `src/display/`: writing propositions on one line and the pretty-printer.
- `app/main.rs`: the command-line tool.

## Use

The tool in `app/` takes propositions as arguments and prints each one
and whether it is a tautology:

    tautology "a | b"
    text: a | b
    prop: a ∨ b
    taut: false
