//! Utilities for pretty-printing values.

use unicode_segmentation::UnicodeSegmentation;
use vstd::prelude::*;
use vstd::string::StringExecFns;

verus! {

/// The number of grapheme clusters of a string, as the
/// `unicode_segmentation` crate counts extended grapheme clusters.
pub uninterp spec fn grapheme_count(s: Seq<char>) -> nat;

/// The kinds of text elements, seen as values.
pub enum ItemView {
    String(Seq<char>),
    Break(Seq<char>),
    Block(nat, Seq<TextView>),
}

/// A text element, seen as a value.
pub struct TextView {
    pub item: ItemView,
    pub length: nat,
    pub followed_by_break: bool,
    pub distance_to_break: nat,
}

/// The text that we want to pretty-print consists of a set of `Item`s.
enum Item<'item> {
    /// A simple string that will be printed verbatim.
    String { value: &'item str },
    /// A potential line-break if the current line gets too long.
    /// Either print the `value` if it fits, or continue on a new line.
    Break { value: &'item str },
    /// A block of text `Item`s that will be indented.
    Block { indentation: usize, items: Vec<Text<'item>> },
}

/// A `Text` element consists of the `Item` that describes what kind of
/// text element it represents. We precompute the total length of the
/// text item in characters. We also precompute the distance to the
/// next potential line-break, if any.
pub struct Text<'text> {
    /// The text `Item`.
    item: Item<'text>,
    /// Its length in characters.
    length: usize,
    /// Can we break the current line in the current block?
    followed_by_break: bool,
    /// Where can we break the line in the current block?
    distance_to_break: usize,
}

impl<'text> View for Text<'text> {
    type V = TextView;

    closed spec fn view(&self) -> TextView {
        text_view(*self)
    }
}

/// The value of a text element.
closed spec fn text_view(t: Text) -> TextView
    decreases t, 0nat,
{
    TextView {
        item: match t.item {
            Item::String { value } => ItemView::String(value@),
            Item::Break { value } => ItemView::Break(value@),
            Item::Block { indentation, items } => {
                proof {
                    assert(decreases_to!(t => t.item));
                    assert(decreases_to!(t.item => items));
                    assert(decreases_to!(items => items@));
                }
                ItemView::Block(indentation as nat, texts_view(items@))
            },
        },
        length: t.length as nat,
        followed_by_break: t.followed_by_break,
        distance_to_break: t.distance_to_break as nat,
    }
}

/// The values of a sequence of text elements.
closed spec fn texts_view(items: Seq<Text>) -> Seq<TextView>
    decreases items, 1nat,
{
    if items.len() == 0 {
        Seq::empty()
    } else {
        proof {
            assert(decreases_to!(items => items[0]));
            assert(decreases_to!(items => items.drop_first()));
        }
        seq![text_view(items[0])] + texts_view(items.drop_first())
    }
}

proof fn lemma_texts_view(items: Seq<Text>)
    ensures
        texts_view(items) == views(items),
    decreases items.len(),
{
    if items.len() > 0 {
        lemma_texts_view(items.drop_first());
        assert(texts_view(items) =~= views(items));
    } else {
        assert(texts_view(items) =~= views(items));
    }
}

/// The items of a block are seen one by one.
proof fn lemma_block_view(t: &Text)
    ensures
        t.item matches Item::Block { indentation, items } ==> t@.item == ItemView::Block(
            indentation as nat,
            views(items@),
        ),
{
    if let Item::Block { items, .. } = &t.item {
        lemma_texts_view(items@);
    }
}

/// The total length of a sequence of text elements.
pub open spec fn sum_lengths(items: Seq<TextView>) -> nat
    decreases items.len(),
{
    if items.len() == 0 {
        0
    } else {
        items[0].length + sum_lengths(items.drop_first())
    }
}

/// Whether there is a potential line-break among `items`, and the length
/// of the items before the first one.
pub open spec fn break_info(items: Seq<TextView>) -> (bool, nat)
    decreases items.len(),
{
    if items.len() == 0 {
        (false, 0)
    } else if items[0].item is Break {
        (true, 0)
    } else {
        let (found, distance) = break_info(items.drop_first());
        (found, distance + items[0].length)
    }
}

/// The items of a block, each told about the potential line-break that
/// follows it in the block.
pub open spec fn annotate(items: Seq<TextView>) -> Seq<TextView> {
    Seq::new(
        items.len(),
        |i: int|
            TextView {
                item: items[i].item,
                length: items[i].length,
                followed_by_break: break_info(items.skip(i + 1)).0,
                distance_to_break: break_info(items.skip(i + 1)).1,
            },
    )
}

/// A literal string.
pub open spec fn string_text(value: Seq<char>) -> TextView {
    TextView {
        item: ItemView::String(value),
        length: grapheme_count(value),
        followed_by_break: false,
        distance_to_break: 0,
    }
}

/// A potential line-break.
pub open spec fn break_text(value: Seq<char>) -> TextView {
    TextView {
        item: ItemView::Break(value),
        length: grapheme_count(value),
        followed_by_break: true,
        distance_to_break: 0,
    }
}

/// An indented block of text elements.
pub open spec fn block_text(indentation: nat, items: Seq<TextView>) -> TextView {
    TextView {
        item: ItemView::Block(indentation, annotate(items)),
        length: sum_lengths(items),
        followed_by_break: false,
        distance_to_break: 0,
    }
}

/// The lengths of a text element are those of its strings, and the items
/// of each block know the potential line-breaks that follow them.
pub open spec fn wf_text(t: TextView) -> bool
    decreases t,
{
    match t.item {
        ItemView::String(value) => t.length == grapheme_count(value),
        ItemView::Break(value) => t.length == grapheme_count(value),
        ItemView::Block(_, items) => {
            &&& t.length == sum_lengths(items)
            &&& forall|i: int| #![trigger items[i]] 0 <= i < items.len() ==> wf_text(items[i])
            &&& forall|i: int|
                0 <= i < items.len() ==> (#[trigger] items[i].followed_by_break, items[i].distance_to_break)
                    == break_info(items.skip(i + 1))
        },
    }
}

/// The text printed on one line: its strings and line-break values in order.
pub open spec fn flat(t: TextView) -> Seq<char>
    decreases t,
{
    match t.item {
        ItemView::String(value) => value,
        ItemView::Break(value) => value,
        ItemView::Block(_, items) => flat_items(items),
    }
}

/// The texts of a sequence of items printed on one line.
pub open spec fn flat_items(items: Seq<TextView>) -> Seq<char>
    decreases items,
{
    if items.len() == 0 {
        Seq::empty()
    } else {
        proof {
            assert(decreases_to!(items => items.drop_first()));
        }
        flat(items[0]) + flat_items(items.drop_first())
    }
}

/// No block is indented by more than its own length.
pub open spec fn well_indented(t: TextView) -> bool
    decreases t,
{
    match t.item {
        ItemView::Block(indentation, items) => {
            &&& indentation <= t.length
            &&& forall|i: int| #![trigger items[i]] 0 <= i < items.len() ==> well_indented(items[i])
        },
        _ => true,
    }
}

/// The state of the output, seen as a value.
pub struct OutputView {
    pub lines: Seq<Seq<char>>,
    pub current: Seq<char>,
    pub space_left: nat,
    pub line_width: nat,
}

/// Append `s` of length `len` to the current line.
pub open spec fn out_append(o: OutputView, s: Seq<char>, len: nat) -> OutputView {
    OutputView {
        lines: o.lines,
        current: o.current + s,
        space_left: if o.space_left >= len { (o.space_left - len) as nat } else { 0 },
        line_width: o.line_width,
    }
}

/// `n` spaces.
pub open spec fn spaces(n: nat) -> Seq<char> {
    Seq::new(n, |i: int| ' ')
}

/// End the current line and start a new one indented by `indent`.
pub open spec fn out_line_break(o: OutputView, indent: nat) -> OutputView {
    out_append(
        OutputView {
            lines: o.lines.push(o.current),
            current: Seq::empty(),
            space_left: o.line_width,
            line_width: o.line_width,
        },
        spaces(indent),
        indent,
    )
}

/// Where a text element can break at the earliest: at the next line-break
/// in its block, if any, or at the next line-break `after` the block.
pub open spec fn next_distance(t: TextView, after: nat) -> nat {
    t.distance_to_break + if t.followed_by_break { 0 } else { after }
}

/// The output after printing `t` in the `available` space, with the next
/// potential line-break `distance` characters after it; `None` where the
/// printer cannot proceed (a block indented by more than the space left on
/// the line, or a line-break in more space than the line width).
pub open spec fn spec_pretty(o: OutputView, t: TextView, available: nat, distance: nat) -> Option<OutputView>
    decreases t,
{
    match t.item {
        ItemView::String(value) => Some(out_append(o, value, t.length)),
        ItemView::Block(indentation, items) => if indentation <= o.space_left {
            spec_pretty_items(o, items, (o.space_left - indentation) as nat, distance)
        } else {
            None
        },
        ItemView::Break(value) => if t.length + distance <= o.space_left {
            Some(out_append(o, value, t.length))
        } else if available <= o.line_width {
            Some(out_line_break(o, (o.line_width - available) as nat))
        } else {
            None
        },
    }
}

/// The output after printing the items of a block in `space`.
pub open spec fn spec_pretty_items(o: OutputView, items: Seq<TextView>, space: nat, distance: nat) -> Option<OutputView>
    decreases items,
{
    if items.len() == 0 {
        Some(o)
    } else {
        proof {
            assert(decreases_to!(items => items.drop_first()));
        }
        match spec_pretty(o, items[0], space, next_distance(items[0], distance)) {
            Some(o1) => spec_pretty_items(o1, items.drop_first(), space, distance),
            None => None,
        }
    }
}

/// The empty output for lines of width `line_width`.
pub open spec fn new_output(line_width: nat) -> OutputView {
    OutputView { lines: Seq::empty(), current: Seq::empty(), space_left: line_width, line_width }
}

/// The lines of `t` printed to fit into `line_width`, where it can be printed.
pub open spec fn spec_print(t: TextView, line_width: nat) -> Option<Seq<Seq<char>>> {
    match spec_pretty(new_output(line_width), t, line_width, 0) {
        Some(o) => Some(o.lines.push(o.current)),
        None => None,
    }
}

/// `Vec::from` on an array: a vector of the same items in the same order.
#[verifier::external_body]
fn vec_from_array<T, const N: usize>(items: [T; N]) -> (v: Vec<T>)
    ensures
        v@ == items@,
{
    Vec::from(items)
}

/// The views of a sequence of text elements.
pub open spec fn views(items: Seq<Text>) -> Seq<TextView> {
    items.map_values(|t: Text| t@)
}

proof fn lemma_break_info_bound(items: Seq<TextView>)
    ensures
        break_info(items).1 <= sum_lengths(items),
        !break_info(items).0 ==> break_info(items).1 == sum_lengths(items),
    decreases items.len(),
{
    if items.len() > 0 {
        lemma_break_info_bound(items.drop_first());
    }
}

proof fn lemma_sum_lengths_skip(items: Seq<TextView>, i: int)
    requires
        0 <= i < items.len(),
    ensures
        sum_lengths(items.skip(i)) == items[i].length + sum_lengths(items.skip(i + 1)),
        sum_lengths(items.skip(i)) <= sum_lengths(items),
    decreases i,
{
    assert(items.skip(i).drop_first() =~= items.skip(i + 1));
    if i > 0 {
        lemma_sum_lengths_skip(items.drop_first(), i - 1);
        assert(items.drop_first().skip(i - 1) =~= items.skip(i));
        assert(items.drop_first().skip(i) =~= items.skip(i + 1));
    } else {
        assert(items.skip(0) =~= items);
    }
}

proof fn lemma_annotate_sum(items: Seq<TextView>)
    ensures
        sum_lengths(annotate(items)) == sum_lengths(items),
    decreases items.len(),
{
    if items.len() > 0 {
        lemma_annotate_sum(items.drop_first());
        assert forall|i: int| 0 <= i < items.len() - 1 implies #[trigger] annotate(items).drop_first()[i].length
            == annotate(items.drop_first())[i].length by {}
        lemma_sum_lengths_congruent(annotate(items).drop_first(), annotate(items.drop_first()));
    }
}

proof fn lemma_sum_lengths_congruent(a: Seq<TextView>, b: Seq<TextView>)
    requires
        a.len() == b.len(),
        forall|i: int| 0 <= i < a.len() ==> #[trigger] a[i].length == b[i].length,
    ensures
        sum_lengths(a) == sum_lengths(b),
    decreases a.len(),
{
    if a.len() > 0 {
        lemma_sum_lengths_congruent(a.drop_first(), b.drop_first());
    }
}

/// A block made of well-formed items is well-formed.
proof fn lemma_block_wf(indentation: nat, items: Seq<TextView>)
    requires
        forall|i: int| 0 <= i < items.len() ==> #[trigger] wf_text(items[i]),
    ensures
        wf_text(block_text(indentation, items)),
{
    let annotated = annotate(items);
    lemma_annotate_sum(items);
    assert forall|i: int| 0 <= i < annotated.len() implies wf_text(#[trigger] annotated[i]) by {
        assert(wf_text(items[i]));
        lemma_wf_ignores_position(items[i], annotated[i]);
    }
    assert forall|i: int| 0 <= i < annotated.len() implies (#[trigger] annotated[i].followed_by_break,
        annotated[i].distance_to_break) == break_info(annotated.skip(i + 1)) by {
        lemma_break_info_congruent(items.skip(i + 1), annotated.skip(i + 1));
    }
}

/// A block indented by no more than its length, made of well-indented
/// items, is well-indented.
proof fn lemma_block_well_indented(indentation: nat, items: Seq<TextView>)
    requires
        forall|i: int| 0 <= i < items.len() ==> well_indented(#[trigger] items[i]),
        indentation <= sum_lengths(items),
    ensures
        well_indented(block_text(indentation, items)),
{
    let annotated = annotate(items);
    assert forall|i: int| 0 <= i < annotated.len() implies well_indented(#[trigger] annotated[i]) by {
        assert(well_indented(items[i]));
    }
}

/// Being well-formed does not depend on the position of an element in its block.
proof fn lemma_wf_ignores_position(a: TextView, b: TextView)
    requires
        wf_text(a),
        a.item == b.item,
        a.length == b.length,
    ensures
        wf_text(b),
{
}

proof fn lemma_break_info_congruent(a: Seq<TextView>, b: Seq<TextView>)
    requires
        a.len() == b.len(),
        forall|i: int| 0 <= i < a.len() ==> #[trigger] a[i].length == b[i].length && a[i].item == b[i].item,
    ensures
        break_info(a) == break_info(b),
    decreases a.len(),
{
    if a.len() > 0 {
        assert(a[0].length == b[0].length && a[0].item == b[0].item);
        lemma_break_info_congruent(a.drop_first(), b.drop_first());
    }
}

proof fn lemma_flat_items_congruent(a: Seq<TextView>, b: Seq<TextView>)
    requires
        a.len() == b.len(),
        forall|i: int| 0 <= i < a.len() ==> (#[trigger] a[i]).item == b[i].item,
    ensures
        flat_items(a) == flat_items(b),
    decreases a.len(),
{
    if a.len() > 0 {
        assert(a[0].item == b[0].item);
        assert(flat(a[0]) == flat(b[0]));
        lemma_flat_items_congruent(a.drop_first(), b.drop_first());
    }
}

/// A block is printed on one line as its items are, one after another.
pub proof fn lemma_flat_block(indentation: nat, items: Seq<TextView>)
    ensures
        flat(block_text(indentation, items)) == flat_items(items),
{
    lemma_flat_items_congruent(annotate(items), items);
}

/// Appending two strings one after the other, where both fit on the
/// line, appends them together.
proof fn lemma_out_append_twice(o: OutputView, s1: Seq<char>, len1: nat, s2: Seq<char>, len2: nat)
    ensures
        out_append(out_append(o, s1, len1), s2, len2) == out_append(o, s1 + s2, len1 + len2),
{
    assert(o.current + s1 + s2 =~= o.current + (s1 + s2));
}

/// Items that fit into the space left on the line, together with what
/// follows them up to the next potential line-break, are printed on the
/// current line.
proof fn lemma_pretty_items_fit(o: OutputView, items: Seq<TextView>, space: nat, distance: nat)
    requires
        forall|i: int| 0 <= i < items.len() ==> wf_text(#[trigger] items[i]) && well_indented(items[i]),
        forall|i: int| 0 <= i < items.len() ==> (#[trigger] items[i].followed_by_break, items[i].distance_to_break)
            == break_info(items.skip(i + 1)),
        sum_lengths(items) + distance <= o.space_left,
    ensures
        spec_pretty_items(o, items, space, distance) == Some(out_append(o, flat_items(items), sum_lengths(items))),
    decreases items, 0nat,
{
    if items.len() == 0 {
        assert(o.current + Seq::<char>::empty() =~= o.current);
    } else {
        let first = items[0];
        let rest = items.drop_first();
        assert(items.skip(1) =~= rest);
        lemma_break_info_bound(rest);
        assert(wf_text(first) && well_indented(first));
        assert((first.followed_by_break, first.distance_to_break) == break_info(items.skip(1)));
        assert(decreases_to!(items => items[0]));
        lemma_pretty_fits(o, first, space, next_distance(first, distance));
        let o1 = out_append(o, flat(first), first.length);
        assert forall|i: int| 0 <= i < rest.len() implies wf_text(#[trigger] rest[i]) && well_indented(rest[i]) by {
            assert(rest[i] == items[i + 1]);
        }
        assert forall|i: int| 0 <= i < rest.len() implies (#[trigger] rest[i].followed_by_break,
            rest[i].distance_to_break) == break_info(rest.skip(i + 1)) by {
            assert(rest[i] == items[i + 1]);
            assert(rest.skip(i + 1) =~= items.skip(i + 2));
        }
        assert(decreases_to!(items => rest));
        lemma_pretty_items_fit(o1, rest, space, distance);
        lemma_out_append_twice(o, flat(first), first.length, flat_items(rest), sum_lengths(rest));
    }
}

/// A well-formed text that fits into the space left on the line, together
/// with what follows it up to the next potential line-break, is printed
/// on the current line.
proof fn lemma_pretty_fits(o: OutputView, t: TextView, available: nat, distance: nat)
    requires
        wf_text(t),
        well_indented(t),
        t.length + distance <= o.space_left,
    ensures
        spec_pretty(o, t, available, distance) == Some(out_append(o, flat(t), t.length)),
    decreases t, 1nat,
{
    if let ItemView::Block(indentation, items) = t.item {
        assert(decreases_to!(t => t.item));
        assert(decreases_to!(t.item => items));
        lemma_pretty_items_fit(o, items, (o.space_left - indentation) as nat, distance);
    }
}

/// A well-formed, well-indented text no longer than the line width is
/// printed on one line: all of its strings and line-break values, in order.
pub proof fn lemma_print_fits(t: TextView, line_width: nat)
    requires
        wf_text(t),
        well_indented(t),
        t.length <= line_width,
    ensures
        spec_print(t, line_width) == Some(seq![flat(t)]),
{
    let o = new_output(line_width);
    lemma_pretty_fits(o, t, line_width, 0);
    assert(Seq::<char>::empty() + flat(t) =~= flat(t));
    assert(Seq::<Seq<char>>::empty().push(flat(t)) =~= seq![flat(t)]);
}

/// The text holds a potential line-break, at any depth.
pub open spec fn has_break(t: TextView) -> bool
    decreases t,
{
    match t.item {
        ItemView::String(_) => false,
        ItemView::Break(_) => true,
        ItemView::Block(_, items) => has_break_items(items),
    }
}

/// Some item of a sequence holds a potential line-break, at any depth.
pub open spec fn has_break_items(items: Seq<TextView>) -> bool
    decreases items,
{
    if items.len() == 0 {
        false
    } else {
        proof {
            assert(decreases_to!(items => items.drop_first()));
        }
        has_break(items[0]) || has_break_items(items.drop_first())
    }
}

proof fn lemma_no_break_found(items: Seq<TextView>)
    requires
        !has_break_items(items),
    ensures
        !break_info(items).0,
    decreases items.len(),
{
    if items.len() > 0 {
        assert(!has_break(items[0]));
        lemma_no_break_found(items.drop_first());
    }
}

/// Printing never takes back a line.
proof fn lemma_lines_grow(o: OutputView, t: TextView, available: nat, distance: nat)
    requires
        spec_pretty(o, t, available, distance) is Some,
    ensures
        spec_pretty(o, t, available, distance)->0.lines.len() >= o.lines.len(),
    decreases t, 1nat,
{
    if let ItemView::Block(indentation, items) = t.item {
        assert(decreases_to!(t => t.item));
        assert(decreases_to!(t.item => items));
        lemma_lines_grow_items(o, items, (o.space_left - indentation) as nat, distance);
    }
}

proof fn lemma_lines_grow_items(o: OutputView, items: Seq<TextView>, space: nat, distance: nat)
    requires
        spec_pretty_items(o, items, space, distance) is Some,
    ensures
        spec_pretty_items(o, items, space, distance)->0.lines.len() >= o.lines.len(),
    decreases items, 0nat,
{
    if items.len() > 0 {
        assert(decreases_to!(items => items[0]));
        assert(decreases_to!(items => items.drop_first()));
        lemma_lines_grow(o, items[0], space, next_distance(items[0], distance));
        let o1 = spec_pretty(o, items[0], space, next_distance(items[0], distance))->0;
        lemma_lines_grow_items(o1, items.drop_first(), space, distance);
    }
}

/// A well-formed text without a potential line-break is appended to the
/// current line as it is.
proof fn lemma_unbreakable(o: OutputView, t: TextView, available: nat, distance: nat)
    requires
        wf_text(t),
        !has_break(t),
        spec_pretty(o, t, available, distance) is Some,
    ensures
        spec_pretty(o, t, available, distance) == Some(out_append(o, flat(t), t.length)),
    decreases t, 1nat,
{
    if let ItemView::Block(indentation, items) = t.item {
        assert(decreases_to!(t => t.item));
        assert(decreases_to!(t.item => items));
        lemma_unbreakable_items(o, items, (o.space_left - indentation) as nat, distance);
    }
}

proof fn lemma_unbreakable_items(o: OutputView, items: Seq<TextView>, space: nat, distance: nat)
    requires
        forall|i: int| #![trigger items[i]] 0 <= i < items.len() ==> wf_text(items[i]),
        !has_break_items(items),
        spec_pretty_items(o, items, space, distance) is Some,
    ensures
        spec_pretty_items(o, items, space, distance) == Some(out_append(o, flat_items(items), sum_lengths(items))),
    decreases items, 0nat,
{
    if items.len() == 0 {
        assert(o.current + Seq::<char>::empty() =~= o.current);
    } else {
        let first = items[0];
        let rest = items.drop_first();
        assert(wf_text(first));
        assert(decreases_to!(items => items[0]));
        assert(decreases_to!(items => items.drop_first()));
        lemma_unbreakable(o, first, space, next_distance(first, distance));
        let o1 = out_append(o, flat(first), first.length);
        assert forall|i: int| #![trigger rest[i]] 0 <= i < rest.len() implies wf_text(rest[i]) by {
            assert(rest[i] == items[i + 1]);
        }
        lemma_unbreakable_items(o1, rest, space, distance);
        lemma_out_append_twice(o, flat(first), first.length, flat_items(rest), sum_lengths(rest));
    }
}

/// Where printing a text that holds a potential line-break ends no line,
/// what follows the text up to the next potential line-break (`distance`
/// characters) still fits on the line: a line-break is kept on the line
/// only when everything up to the next one fits, counted past the end of
/// the blocks that enclose it.
pub proof fn lemma_kept_breaks_leave_room(o: OutputView, t: TextView, available: nat, distance: nat)
    requires
        wf_text(t),
        has_break(t),
        spec_pretty(o, t, available, distance) is Some,
        spec_pretty(o, t, available, distance)->0.lines.len() == o.lines.len(),
    ensures
        spec_pretty(o, t, available, distance)->0.space_left >= distance,
    decreases t, 1nat,
{
    if let ItemView::Block(indentation, items) = t.item {
        assert(decreases_to!(t => t.item));
        assert(decreases_to!(t.item => items));
        lemma_kept_breaks_leave_room_items(o, items, (o.space_left - indentation) as nat, distance);
    }
}

/// Where printing the items of a block, one of which holds a potential
/// line-break, ends no line, the `distance` characters after the block up
/// to the next potential line-break still fit on the line.
pub proof fn lemma_kept_breaks_leave_room_items(o: OutputView, items: Seq<TextView>, space: nat, distance: nat)
    requires
        forall|i: int| #![trigger items[i]] 0 <= i < items.len() ==> wf_text(items[i]),
        forall|i: int| 0 <= i < items.len() ==> (#[trigger] items[i].followed_by_break, items[i].distance_to_break)
            == break_info(items.skip(i + 1)),
        has_break_items(items),
        spec_pretty_items(o, items, space, distance) is Some,
        spec_pretty_items(o, items, space, distance)->0.lines.len() == o.lines.len(),
    ensures
        spec_pretty_items(o, items, space, distance)->0.space_left >= distance,
    decreases items, 0nat,
{
    let first = items[0];
    let rest = items.drop_first();
    assert(wf_text(first));
    assert(decreases_to!(items => items[0]));
    assert(decreases_to!(items => items.drop_first()));
    let d1 = next_distance(first, distance);
    let o1 = spec_pretty(o, first, space, d1)->0;
    lemma_lines_grow(o, first, space, d1);
    lemma_lines_grow_items(o1, rest, space, distance);
    assert forall|i: int| #![trigger rest[i]] 0 <= i < rest.len() implies wf_text(rest[i]) by {
        assert(rest[i] == items[i + 1]);
    }
    if has_break_items(rest) {
        assert forall|i: int| 0 <= i < rest.len() implies (#[trigger] rest[i].followed_by_break,
            rest[i].distance_to_break) == break_info(rest.skip(i + 1)) by {
            assert(rest[i] == items[i + 1]);
            assert(rest.skip(i + 1) =~= items.skip(i + 2));
        }
        lemma_kept_breaks_leave_room_items(o1, rest, space, distance);
    } else {
        assert(items.skip(1) =~= rest);
        assert((first.followed_by_break, first.distance_to_break) == break_info(items.skip(1)));
        lemma_no_break_found(rest);
        lemma_break_info_bound(rest);
        lemma_kept_breaks_leave_room(o, first, space, d1);
        lemma_unbreakable_items(o1, rest, space, distance);
    }
}

impl<'text> Text<'text> {
    /// Create a new literal `string` that will be printed verbatim.
    pub fn string(value: &'text str) -> (t: Text<'text>)
        ensures
            t@ == string_text(value@),
            wf_text(t@),
            well_indented(t@),
            t@.length <= value@.len(),
            value@.len() > 0 ==> t@.length > 0,
    {
        Text {
            item: Item::String { value },
            length: number_of_graphemes(value),
            followed_by_break: false,
            distance_to_break: 0,
        }
    }

    /// Create a potential line-break. Either we print the
    /// `value` if it fits on the current line or we continue
    /// on a new line if it doesn't fit.
    pub fn string_or_break(value: &'text str) -> (t: Text<'text>)
        ensures
            t@ == break_text(value@),
            wf_text(t@),
            well_indented(t@),
    {
        Text {
            item: Item::Break { value },
            length: number_of_graphemes(value),
            followed_by_break: true,
            distance_to_break: 0,
        }
    }

    /// Create an indented block of text that consists of more
    /// text elements.
    pub fn block<const N: usize>(indentation: usize, items: [Text<'text>; N]) -> (t: Text<'text>)
        requires
            forall|i: int| 0 <= i < N ==> #[trigger] wf_text(items@[i]@),
            sum_lengths(views(items@)) <= usize::MAX,
        ensures
            t@ == block_text(indentation as nat, views(items@)),
            wf_text(t@),
            (forall|i: int| 0 <= i < N ==> #[trigger] well_indented(items@[i]@)) && indentation <= t@.length
                ==> well_indented(t@),
    {
        let ghost original = views(items@);
        let mut items = vec_from_array(items);
        // Calculate the distance to the next potential line-break
        // in the current block. Start at the end of the block and
        // work backwards.
        let mut found_break = false;
        let mut distance: usize = 0;
        let mut i = items.len();
        proof {
            assert(original.skip(i as int) =~= Seq::<TextView>::empty());
        }
        while i > 0
            invariant
                i <= items.len(),
                items.len() == original.len(),
                (found_break, distance as nat) == break_info(original.skip(i as int)),
                forall|k: int| 0 <= k < i ==> #[trigger] items@[k]@ == original[k],
                forall|k: int| i <= k < items.len() ==> #[trigger] items@[k]@ == annotate(original)[k],
                sum_lengths(original) <= usize::MAX,
            decreases i,
        {
            i = i - 1;
            proof {
                lemma_break_info_bound(original.skip(i + 1));
                lemma_sum_lengths_skip(original, i as int);
                assert(original.skip(i as int).drop_first() =~= original.skip(i + 1));
                assert(original.skip(i as int)[0] == original[i as int]);
                assert(items@[i as int]@ == original[i as int]);
            }
            let ghost before = items@;
            items[i].followed_by_break = found_break;
            items[i].distance_to_break = distance;
            proof {
                assert(items@[i as int].item == before[i as int].item);
                assert(items@[i as int].length == before[i as int].length);
                assert(items@[i as int]@ == annotate(original)[i as int]);
                assert forall|k: int| 0 <= k < items.len() && k != i implies #[trigger] items@[k] == before[k] by {}
            }
            match items[i].item {
                Item::Break { .. } => {
                    found_break = true;
                    distance = 0;
                },
                _ => {
                    distance = distance + items[i].length;
                },
            }
        }
        let mut length: usize = 0;
        let mut j: usize = 0;
        assert(original.skip(0) =~= original);
        while j < items.len()
            invariant
                j <= items.len(),
                items.len() == original.len(),
                forall|k: int| 0 <= k < items.len() ==> #[trigger] items@[k]@ == annotate(original)[k],
                length as nat + sum_lengths(original.skip(j as int)) == sum_lengths(original),
                sum_lengths(original) <= usize::MAX,
            decreases items.len() - j,
        {
            proof {
                lemma_sum_lengths_skip(original, j as int);
                assert(items@[j as int]@ == annotate(original)[j as int]);
            }
            length = length + items[j].length;
            j = j + 1;
        }
        proof {
            assert(original.skip(j as int) =~= Seq::<TextView>::empty());
            lemma_block_wf(indentation as nat, original);
            if (forall|i: int| 0 <= i < original.len() ==> well_indented(#[trigger] original[i])) && indentation <= length {
                lemma_block_well_indented(indentation as nat, original);
            }
        }
        let t = Text { length, item: Item::Block { indentation, items }, followed_by_break: false, distance_to_break: 0 };
        proof {
            lemma_block_view(&t);
            assert(views(items@) =~= annotate(original));
        }
        assert(t@ =~= block_text(indentation as nat, original));
        t
    }
}

/// Pretty-print the provided `text`. Try to make it fit into `line_width`.
pub fn print(text: Text, line_width: usize) -> (lines: Vec<String>)
    requires
        wf_text(text@),
        spec_print(text@, line_width as nat) is Some,
    ensures
        lines@.map_values(|s: String| s@) == spec_print(text@, line_width as nat)->0,
{
    match try_print(&text, line_width) {
        Some(lines) => lines,
        None => {
            assert(false);
            Vec::new()
        },
    }
}

/// Pretty-print the provided `text` into lines of `line_width`, where the
/// text can be printed so: `None` where a block is indented by more than
/// the space left on its line.
pub fn try_print(text: &Text, line_width: usize) -> (lines: Option<Vec<String>>)
    requires
        wf_text(text@),
    ensures
        match lines {
            Some(lines) => spec_print(text@, line_width as nat) == Some(lines@.map_values(|s: String| s@)),
            None => spec_print(text@, line_width as nat) is None,
        },
{
    let output = Output::new(line_width);
    match pretty(output, text, line_width, 0) {
        Some(output) => Some(output.finish()),
        None => None,
    }
}

/// Pretty-print a text element in the `available_space`.
fn pretty(mut output: Output, text: &Text, available_space: usize, distance_to_break: usize) -> (r: Option<Output>)
    requires
        wf_text(text@),
        output.wf(),
        available_space <= output@.line_width,
        text@.length + distance_to_break <= usize::MAX,
    ensures
        match r {
            Some(o) => {
                &&& o.wf()
                &&& spec_pretty(output@, text@, available_space as nat, distance_to_break as nat) == Some(o@)
                &&& o@.line_width == output@.line_width
            },
            None => spec_pretty(output@, text@, available_space as nat, distance_to_break as nat) is None,
        },
    decreases text,
{
    match &text.item {
        // Print a string by appending it verbatim to the output.
        Item::String { value } => output.append_string(value, text.length),
        // Print a text block by printing its items.
        Item::Block { indentation, items } => {
            proof {
                lemma_block_view(text);
            }
            let ghost views = text@.item->Block_1;
            let ghost start = output@;
            if *indentation > output.space_left {
                return None;
            }
            let space_for_block = output.space_for_block(*indentation);
            let mut i: usize = 0;
            proof {
                assert(views.skip(0) =~= views);
            }
            #[verifier::loop_isolation(false)]
            while i < items.len()
                invariant
                    0 <= i <= items.len(),
                    text.item == (Item::Block { indentation: *indentation, items: *items }),
                    views.len() == items@.len(),
                    forall|k: int| 0 <= k < items@.len() ==> #[trigger] views[k] == items@[k]@,
                    forall|k: int| 0 <= k < views.len() ==> #[trigger] wf_text(views[k]),
                    forall|k: int| 0 <= k < views.len() ==> (#[trigger] views[k].followed_by_break, views[k].distance_to_break)
                        == break_info(views.skip(k + 1)),
                    sum_lengths(views) + distance_to_break <= usize::MAX,
                    output.wf(),
                    output@.line_width == start.line_width,
                    space_for_block <= start.line_width,
                    spec_pretty(start, text@, available_space as nat, distance_to_break as nat)
                        == spec_pretty_items(start, views, space_for_block as nat, distance_to_break as nat),
                    spec_pretty_items(start, views, space_for_block as nat, distance_to_break as nat)
                        == spec_pretty_items(output@, views.skip(i as int), space_for_block as nat, distance_to_break as nat),
                decreases items.len() - i,
            {
                let item = &items[i];
                proof {
                    assert(views.skip(i as int).drop_first() =~= views.skip(i + 1));
                    assert(views.skip(i as int)[0] == views[i as int]);
                    lemma_break_info_bound(views.skip(i + 1));
                    lemma_sum_lengths_skip(views, i as int);
                    assert(decreases_to!(*text => text.item));
                    assert(decreases_to!(text.item => text.item->items));
                    assert(decreases_to!(*items => items[i as int]));
                }
                let next = next_potential_line_break(item, distance_to_break);
                let ghost before = output@;
                match pretty(output, item, space_for_block, next) {
                    Some(o) => {
                        output = o;
                    },
                    None => {
                        assert(spec_pretty_items(before, views.skip(i as int), space_for_block as nat, distance_to_break as nat)
                            is None);
                        return None;
                    },
                }
                i = i + 1;
            }
            proof {
                assert(views.skip(i as int) =~= Seq::<TextView>::empty());
            }
        },
        // Print a potential line-break either by printing its value
        // verbatim on the current line, or by continuing on a new line.
        Item::Break { value } => {
            if text.length + distance_to_break <= output.space_left {
                output.append_string(value, text.length)
            } else {
                let len = output.line_width - available_space;
                output.line_break(len);
            }
        },
    }
    Some(output)
}

/// Utility function to compute the number of characters (graphemes)
/// in a string: `UnicodeSegmentation::graphemes(string, true).count()`.
/// The crate splits the string into non-empty extended grapheme clusters,
/// so there are no more of them than characters, and none only in the
/// empty string; what the count is otherwise is left to the crate.
#[verifier::external_body]
fn number_of_graphemes(string: &str) -> (n: usize)
    ensures
        n == grapheme_count(string@),
        n <= string@.len(),
        (n == 0) == (string@.len() == 0),
{
    string.graphemes(true).count()
}

/// Utility function to find the next potential line-break in the `text`.
/// We can break at the earliest at the next line-break in the current
/// block, if any, or at the next line-break `after` the current block.
fn next_potential_line_break(text: &Text, after: usize) -> (d: usize)
    requires
        text@.distance_to_break + after <= usize::MAX,
    ensures
        d == next_distance(text@, after as nat),
{
    text.distance_to_break + if text.followed_by_break { 0 } else { after }
}

/// Utility struct to collect the output of the pretty-printing process.
struct Output {
    /// The current line.
    current_line: String,
    /// How much space is left on the current line in characters.
    space_left: usize,
    /// Previously printed lines.
    lines: Vec<String>,
    /// The maximum width or length of a line in characters.
    line_width: usize,
}

impl View for Output {
    type V = OutputView;

    closed spec fn view(&self) -> OutputView {
        OutputView {
            lines: self.lines@.map_values(|s: String| s@),
            current: self.current_line@,
            space_left: self.space_left as nat,
            line_width: self.line_width as nat,
        }
    }
}

impl Output {
    spec fn wf(&self) -> bool {
        self.space_left <= self.line_width
    }

    /// Create a new output struct.
    fn new(line_width: usize) -> (o: Self)
        ensures
            o.wf(),
            o@ == new_output(line_width as nat),
    {
        let o = Output { space_left: line_width, current_line: String::new(), lines: Vec::new(), line_width };
        assert(o@.lines =~= Seq::<Seq<char>>::empty());
        o
    }

    /// Finish and return what we have printed.
    fn finish(self) -> (lines: Vec<String>)
        ensures
            lines@.map_values(|s: String| s@) == self@.lines.push(self@.current),
    {
        let ghost before = self@;
        let Output { current_line, mut lines, .. } = self;
        lines.push(current_line);
        assert(lines@.map_values(|s: String| s@) =~= before.lines.push(before.current));
        lines
    }

    /// Append a string verbatim to the current line.
    fn append_string(&mut self, s: &str, len: usize)
        requires
            old(self).wf(),
        ensures
            final(self).wf(),
            final(self)@ == out_append(old(self)@, s@, len as nat),
    {
        self.current_line.append(s);
        self.space_left = self.space_left.saturating_sub(len);
    }

    /// End the current line and start a new one.
    fn line_break(&mut self, indent: usize)
        requires
            old(self).wf(),
        ensures
            final(self).wf(),
            final(self)@ == out_line_break(old(self)@, indent as nat),
    {
        let ghost before = self@;
        self.lines.push(self.current_line.clone());
        self.space_left = self.line_width;
        self.current_line = String::new();
        assert(self@.lines =~= before.lines.push(before.current));
        let indentation = spaces_string(indent);
        self.append_string(indentation.as_str(), indent)
    }

    /// Calculate how much space is available for a text block
    /// with `indentation` on the current line. That is, how
    /// wide can the lines of the text block be.
    fn space_for_block(&mut self, indentation: usize) -> (space: usize)
        requires
            indentation <= old(self).space_left,
        ensures
            *final(self) == *old(self),
            space == old(self).space_left - indentation,
    {
        self.space_left - indentation
    }
}

/// `" ".repeat(n)`
fn spaces_string(n: usize) -> (s: String)
    ensures
        s@ == spaces(n as nat),
{
    let mut s = String::new();
    let mut i: usize = 0;
    proof {
        reveal_strlit(" ");
    }
    while i < n
        invariant
            i <= n,
            s@ == spaces(i as nat),
            " "@ == seq![' '],
        decreases n - i,
    {
        s.append(" ");
        i = i + 1;
        assert(s@ =~= spaces(i as nat));
    }
    s
}

} // verus!
