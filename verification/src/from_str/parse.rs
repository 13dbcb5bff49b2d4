//! Utilities for writing lexers and parsers.

use vstd::prelude::*;
use vstd::std_specs::iter::IteratorSpec;
use vstd::string::StringSliceAdditionalSpecFns;
use vstd::utf8::{
    encode_scalar, encode_utf8, encode_utf8_decode_utf8, encode_utf8_first_scalar,
    encode_utf8_valid_utf8, has_width_1_encoding, has_width_2_encoding, has_width_3_encoding,
    is_char_boundary, is_char_boundary_iff_not_is_continuation_byte,
    is_char_boundary_start_end_of_seq, length_of_first_scalar, pop_first_scalar, valid_utf8,
    valid_utf8_split,
};

verus! {

/// What an error is made of: its offset and its message.
pub type ErrorView = (usize, Seq<char>);

/// `Error` represents an error in the source text.
/// Error messages must be static strings `&'static str`.
#[derive(Debug, PartialEq)]
pub struct Error {
    /// The offset of the error in the source text.
    offset: usize,
    /// The error message.
    message: &'static str,
}

impl View for Error {
    type V = ErrorView;

    closed spec fn view(&self) -> ErrorView {
        (self.offset, self.message@)
    }
}

impl Error {
    /// Create an error at `offset` with a descriptive `message`.
    pub fn new(offset: usize, message: &'static str) -> (e: Self)
        ensures
            e@ == (offset, message@),
    {
        Error { offset, message }
    }

    /// Return the `offset` of the error in the source text.
    pub fn offset(&self) -> (offset: usize)
        ensures
            offset == self@.0,
    {
        self.offset
    }

    /// Return the error `message`.
    pub fn message(&self) -> (message: &str)
        ensures
            message@ == self@.1,
    {
        self.message
    }
}

/// `Next` represents the next item from a `Source`.
#[derive(Debug, PartialEq)]
pub enum Next<Value> {
    /// A value with its offset.
    Value(usize, Value),
    /// There are no further items in the `Source`.
    End(usize),
}

impl<T: View> View for Next<T> {
    type V = Next<T::V>;

    open spec fn view(&self) -> Next<T::V> {
        match self {
            Next::Value(offset, value) => Next::Value(*offset, value@),
            Next::End(offset) => Next::End(*offset),
        }
    }
}

/// What a call of `next` hands back, seen through the views of its parts.
pub open spec fn next_view<T: View>(r: Result<Next<T>, Error>) -> Result<Next<T::V>, ErrorView> {
    match r {
        Ok(next) => Ok(next@),
        Err(error) => Err(error@),
    }
}

/// The view of an optional item.
pub open spec fn option_view<T: View>(o: Option<T>) -> Option<T::V> {
    match o {
        Some(t) => Some(t@),
        None => None,
    }
}

/// The view of the outcome of a step that hands back no value.
pub open spec fn unit_view(r: Result<(), Error>) -> Result<(), ErrorView> {
    match r {
        Ok(()) => Ok(()),
        Err(error) => Err(error@),
    }
}

/// `Source` represents an abstract source of `Item`.
///
/// A source is a state machine: `state` is its abstract state and `step`
/// says what `next` hands back from a state and which state follows.
pub trait Source: Sized {
    /// The item type must be cheap to copy.
    type Item: Copy + View;

    /// The abstract state of the source.
    type State;

    spec fn state(&self) -> Self::State;

    /// The internal invariant of the source.
    spec fn wf(&self) -> bool;

    /// The result of `next` from `state`, and the state after it.
    spec fn step(state: Self::State) -> (Self::State, Result<Next<<Self::Item as View>::V>, ErrorView>);

    /// Get the `next` item from the source, if any.
    fn next(&mut self) -> (r: Result<Next<Self::Item>, Error>)
        requires
            old(self).wf(),
        ensures
            final(self).wf(),
            Self::step(old(self).state()) == (final(self).state(), next_view(r)),
    ;
}

/// The number of bytes of the UTF-8 encoding of the first `i` characters.
pub open spec fn byte_offset(text: Seq<char>, i: int) -> int {
    encode_utf8(text.take(i)).len() as int
}

/// The encoding of a concatenation is the concatenation of the encodings.
pub proof fn lemma_encode_concat(a: Seq<char>, b: Seq<char>)
    ensures
        encode_utf8(a + b) == encode_utf8(a) + encode_utf8(b),
    decreases a.len(),
{
    if a.len() == 0 {
        assert(a + b =~= b);
        assert(encode_utf8(a) =~= Seq::<u8>::empty());
        assert(encode_utf8(a) + encode_utf8(b) =~= encode_utf8(b));
    } else {
        assert((a + b).drop_first() =~= a.drop_first() + b);
        assert((a + b)[0] == a[0]);
        lemma_encode_concat(a.drop_first(), b);
        assert(encode_utf8(a + b) =~= encode_scalar(a[0] as u32) + encode_utf8(a.drop_first() + b));
        assert(encode_utf8(a) =~= encode_scalar(a[0] as u32) + encode_utf8(a.drop_first()));
    }
}

/// The byte offset of the next character follows from the width of its encoding.
pub proof fn lemma_byte_offset_next(text: Seq<char>, i: int)
    requires
        0 <= i < text.len(),
    ensures
        byte_offset(text, i + 1) == byte_offset(text, i) + encode_scalar(text[i] as u32).len(),
{
    assert(text.take(i + 1) =~= text.take(i) + seq![text[i]]);
    lemma_encode_concat(text.take(i), seq![text[i]]);
    assert(seq![text[i]].drop_first() =~= Seq::<char>::empty());
    assert(encode_utf8(seq![text[i]]) =~= encode_scalar(text[i] as u32) + encode_utf8(Seq::<char>::empty()));
}

/// Byte offsets grow with the number of characters.
pub proof fn lemma_byte_offset_monotone(text: Seq<char>, i: int, j: int)
    requires
        0 <= i <= j <= text.len(),
    ensures
        byte_offset(text, i) <= byte_offset(text, j),
        byte_offset(text, j) <= encode_utf8(text).len(),
{
    assert(text.take(j) =~= text.take(i) + text.subrange(i, j));
    lemma_encode_concat(text.take(i), text.subrange(i, j));
    assert(text =~= text.take(j) + text.skip(j));
    lemma_encode_concat(text.take(j), text.skip(j));
}

/// The encoding of a prefix ends on a character boundary.
pub proof fn lemma_prefix_boundary(text: Seq<char>, i: int)
    requires
        0 <= i <= text.len(),
    ensures
        is_char_boundary(encode_utf8(text), byte_offset(text, i)),
    decreases i,
{
    let bytes = encode_utf8(text);
    encode_utf8_valid_utf8(text);
    if i > 0 {
        encode_utf8_first_scalar(text);
        assert(pop_first_scalar(bytes) =~= encode_utf8(text.drop_first()));
        lemma_prefix_boundary(text.drop_first(), i - 1);
        assert(text.take(i) =~= seq![text[0]] + text.drop_first().take(i - 1));
        lemma_encode_concat(seq![text[0]], text.drop_first().take(i - 1));
        assert(seq![text[0]].drop_first() =~= Seq::<char>::empty());
        assert(encode_utf8(seq![text[0]]) =~= encode_scalar(text[0] as u32) + encode_utf8(Seq::<char>::empty()));
        lemma_byte_offset_monotone(text, i, text.len() as int);
        assert(byte_offset(text, i) - length_of_first_scalar(bytes) == byte_offset(text.drop_first(), i - 1));
    }
}

/// The bytes between two character boundaries encode the characters between them.
pub proof fn lemma_encode_subrange(text: Seq<char>, i: int, j: int)
    requires
        0 <= i <= j <= text.len(),
    ensures
        encode_utf8(text).subrange(byte_offset(text, i), byte_offset(text, j))
            == encode_utf8(text.subrange(i, j)),
{
    assert(text =~= text.take(i) + text.subrange(i, j) + text.skip(j));
    lemma_encode_concat(text.take(i) + text.subrange(i, j), text.skip(j));
    lemma_encode_concat(text.take(i), text.subrange(i, j));
    assert(text.take(j) =~= text.take(i) + text.subrange(i, j));
    assert(encode_utf8(text).subrange(byte_offset(text, i), byte_offset(text, j))
        =~= encode_utf8(text.subrange(i, j)));
}

/// A character boundary of a sequence, seen from an earlier boundary.
proof fn lemma_boundary_shift(bytes: Seq<u8>, a: int, b: int)
    requires
        valid_utf8(bytes),
        0 <= a <= b <= bytes.len(),
        is_char_boundary(bytes, a),
        is_char_boundary(bytes, b),
    ensures
        valid_utf8(bytes.subrange(a, bytes.len() as int)),
        is_char_boundary(bytes.subrange(a, bytes.len() as int), b - a),
{
    let rest = bytes.subrange(a, bytes.len() as int);
    valid_utf8_split(bytes, a);
    if b == bytes.len() {
        is_char_boundary_start_end_of_seq(rest);
    } else {
        is_char_boundary_iff_not_is_continuation_byte(bytes, b);
        is_char_boundary_iff_not_is_continuation_byte(rest, b - a);
    }
}

/// The width of the UTF-8 encoding of `c` in bytes.
fn utf8_width(c: char) -> (w: usize)
    ensures
        w == encode_scalar(c as u32).len(),
        1 <= w <= 4,
{
    let v = c as u32;
    if v < 0x80 {
        assert(has_width_1_encoding(v));
        1
    } else if v < 0x800 {
        assert(has_width_2_encoding(v));
        2
    } else if v < 0x10000 {
        assert(has_width_3_encoding(v)) by {
            vstd::utf8::char_is_scalar(c);
        }
        3
    } else {
        4
    }
}

/// `CharSource` is a source of characters derived from a string `&str`.
pub struct CharSource<'string> {
    /// The source string.
    source: &'string str,
    /// The characters of the string.
    chars: Vec<char>,
    /// The index of the next character.
    index: usize,
    /// The byte offset of the next character.
    offset: usize,
}

impl<'string> CharSource<'string> {
    /// Create a new character source from a `&str`.
    pub fn new(source: &'string str) -> (cs: Self)
        ensures
            cs.wf(),
            cs.state() == (source@, 0nat),
    {
        let bytes = source.as_bytes();
        let bytes_len = bytes.len();
        let mut chars: Vec<char> = Vec::new();
        proof {
            broadcast use vstd::string::group_string_axioms;
        }
        let mut iter = source.chars();
        loop
            invariant
                chars@ + iter.remaining() == source@,
                iter.decrease() is Some,
            ensures
                chars@ == source@,
            decreases iter.decrease()->0,
        {
            proof {
                broadcast use vstd::string::group_string_axioms;
            }
            match iter.next() {
                Some(c) => {
                    chars.push(c);
                    assert(chars@ + iter.remaining() =~= source@);
                },
                None => {
                    assert(chars@ =~= source@);
                    break;
                },
            }
        }
        proof {
            assert(bytes_len == bytes@.len());
            assert(bytes@ == encode_utf8(source@));
            assert(source@.take(0) =~= Seq::<char>::empty());
            assert(encode_utf8(Seq::<char>::empty()) =~= Seq::<u8>::empty());
        }
        CharSource { source, chars, index: 0, offset: 0 }
    }
}

impl<'string> Source for CharSource<'string> {
    /// The items of a CharSource are characters.
    type Item = char;

    /// The characters of the string and the index of the next one.
    type State = (Seq<char>, nat);

    closed spec fn state(&self) -> (Seq<char>, nat) {
        (self.chars@, self.index as nat)
    }

    closed spec fn wf(&self) -> bool {
        &&& self.chars@ == self.source@
        &&& self.index <= self.chars@.len()
        &&& self.offset == byte_offset(self.chars@, self.index as int)
        &&& encode_utf8(self.chars@).len() <= usize::MAX
    }

    open spec fn step(state: (Seq<char>, nat)) -> ((Seq<char>, nat), Result<Next<char>, ErrorView>) {
        let (text, index) = state;
        if index >= text.len() {
            (state, Ok(Next::End(byte_offset(text, index as int) as usize)))
        } else {
            ((text, index + 1), Ok(Next::Value(byte_offset(text, index as int) as usize, text[index as int])))
        }
    }

    /// Get the `next` item from the source.
    fn next(&mut self) -> (r: Result<Next<Self::Item>, Error>) {
        let offset = self.offset;
        // There are no further characters after the end of the string.
        if self.index == self.chars.len() {
            let r = accept(Next::End(offset));
            assert(next_view(r) == Ok::<Next<char>, ErrorView>(Next::End(offset)));
            return r;
        }
        let c = self.chars[self.index];
        proof {
            lemma_byte_offset_next(self.chars@, self.index as int);
            lemma_byte_offset_monotone(self.chars@, self.index + 1, self.chars@.len() as int);
        }
        self.offset = self.offset + utf8_width(c);
        self.index = self.index + 1;
        let r = accept(Next::Value(offset, c));
        assert(next_view(r) == Ok::<Next<char>, ErrorView>(Next::Value(offset, c)));
        r
    }
}

/// A `Stream` of items from a `Source` `Src`.
pub struct Stream<Src> where Src: Source, Src::Item: Copy {
    source: Src,
    offset: usize,
    next: Option<Src::Item>,
}

impl<Src> View for Stream<Src> where Src: Source, Src::Item: Copy {
    /// The state of the source, the offset of the current item, and the
    /// current item.
    type V = (Src::State, usize, Option<<Src::Item as View>::V>);

    closed spec fn view(&self) -> Self::V {
        (self.source.state(), self.offset, option_view(self.next))
    }
}

impl<Src> Stream<Src> where Src: Source, Src::Item: Copy {
    /// The internal invariant of the stream.
    pub closed spec fn wf(&self) -> bool {
        self.source.wf()
    }

    /// The stream after synchronizing to the next item of the source at
    /// `view`, and the outcome.
    pub open spec fn spec_sync(view: (Src::State, usize, Option<<Src::Item as View>::V>)) -> (
        (Src::State, usize, Option<<Src::Item as View>::V>),
        Result<(), ErrorView>,
    ) {
        let (state, result) = Src::step(view.0);
        match result {
            Ok(Next::Value(offset, value)) => ((state, offset, Some(value)), Ok(())),
            Ok(Next::End(offset)) => ((state, offset, None), Ok(())),
            Err(error) => ((state, view.1, view.2), Err(error)),
        }
    }

    /// The stream after advancing from `view`, and the outcome.
    pub open spec fn spec_advance(view: (Src::State, usize, Option<<Src::Item as View>::V>)) -> (
        (Src::State, usize, Option<<Src::Item as View>::V>),
        Result<(), ErrorView>,
    ) {
        match view.2 {
            Some(_) => Self::spec_sync(view),
            None => (view, Err((view.1, "unexpected end of input"@))),
        }
    }

    /// Create a new stream from a `Source`.
    ///
    /// Note: `Stream<Src>` does not implement the `TryFrom` trait, because
    /// a generic implementation for all types that satisfy the `Source`
    /// trait conflicts with the default implementation in `core`.
    pub fn try_from(source: Src) -> (r: Result<Self, Error>)
        requires
            source.wf(),
        ensures
            ({
                let (after, result) = Self::spec_sync((source.state(), 0, None));
                match r {
                    Ok(stream) => stream.wf() && result == Ok::<(), ErrorView>(()) && stream@ == after,
                    Err(error) => result == Err::<(), ErrorView>(error@),
                }
            }),
    {
        let mut stream = Stream { source, offset: 0, next: None };
        match stream.advance_to_next_item() {
            Ok(()) => accept(stream),
            Err(error) => Err(error),
        }
    }

    /// Get the current item in the stream.
    pub fn item(&self) -> (item: Option<Src::Item>)
        ensures
            option_view(item) == self@.2,
    {
        self.next
    }

    /// Get the offset of the current item in the stream.
    pub fn offset(&self) -> (offset: usize)
        ensures
            offset == self@.1,
    {
        self.offset
    }

    /// Advance the stream to the next item.
    pub fn advance(&mut self) -> (r: Result<(), Error>)
        requires
            old(self).wf(),
        ensures
            final(self).wf(),
            Self::spec_advance(old(self)@) == (final(self)@, unit_view(r)),
    {
        match self.next {
            // Get next item if we're not yet at the end.
            Some(_) => self.advance_to_next_item(),
            // Error if we're advancing past the end of the stream.
            None => reject(self.offset, "unexpected end of input"),
        }
    }

    // Synchronize the stream to the next item.
    fn advance_to_next_item(&mut self) -> (r: Result<(), Error>)
        requires
            old(self).wf(),
        ensures
            final(self).wf(),
            Self::spec_sync(old(self)@) == (final(self)@, unit_view(r)),
    {
        match self.source.next() {
            // Update fields with next item and offset.
            Ok(Next::Value(offset, value)) => {
                self.offset = offset;
                self.next = Some(value);
                accept(())
            },
            // Update fields to the end of the stream.
            Ok(Next::End(offset)) => {
                self.offset = offset;
                self.next = None;
                accept(())
            },
            // Forward errors to the calling function.
            Err(error) => Err(error),
        }
    }
}

/// A `Scanner` is a stream of characters from a `CharSource`.
pub type Scanner<'string> = Stream<CharSource<'string>>;

impl<'a> Stream<CharSource<'a>> {
    /// Get the slice of the source text between `begin` and `end`.
    pub fn slice(&self, begin: usize, end: usize) -> (s: &'a str)
        requires
            self.wf(),
            begin <= end <= encode_utf8(self@.0.0).len(),
            is_char_boundary(encode_utf8(self@.0.0), begin as int),
            is_char_boundary(encode_utf8(self@.0.0), end as int),
        ensures
            s.spec_bytes() == encode_utf8(self@.0.0).subrange(begin as int, end as int),
    {
        let source: &'a str = self.source.source;
        let ghost bytes = encode_utf8(source@);
        proof {
            encode_utf8_valid_utf8(source@);
            lemma_boundary_shift(bytes, begin as int, end as int);
        }
        let (_, rest) = source.split_at(begin);
        let (middle, _) = rest.split_at(end - begin);
        assert(middle.spec_bytes() =~= bytes.subrange(begin as int, end as int));
        middle
    }
}

/// What a scanner is made of: the state of its character source, the
/// offset of the current character and the current character.
pub type ScannerView = ((Seq<char>, nat), usize, Option<char>);

/// The index of the current character of a scanner.
pub open spec fn scanner_position(view: ScannerView) -> nat {
    match view.2 {
        Some(_) => (view.0.1 - 1) as nat,
        None => view.0.1,
    }
}

/// The current character and its offset agree with the character source.
pub open spec fn scanner_consistent(view: ScannerView) -> bool {
    let (text, index) = view.0;
    &&& index <= text.len()
    &&& match view.2 {
        Some(c) => {
            &&& index >= 1
            &&& c == text[index - 1]
            &&& view.1 == byte_offset(text, index - 1) as usize
        },
        None => index == text.len() && view.1 == byte_offset(text, index as int) as usize,
    }
}

/// A scanner starts at the first character of its text.
pub proof fn lemma_scanner_start<'a>(text: Seq<char>)
    ensures
        Stream::<CharSource<'a>>::spec_sync(((text, 0nat), 0usize, None)).1 == Ok::<(), ErrorView>(()),
        scanner_consistent(Stream::<CharSource<'a>>::spec_sync(((text, 0nat), 0usize, None)).0),
        scanner_position(Stream::<CharSource<'a>>::spec_sync(((text, 0nat), 0usize, None)).0) == 0,
        Stream::<CharSource<'a>>::spec_sync(((text, 0nat), 0usize, None)).0.0.0 == text,
{
    assert(text.take(0) =~= Seq::<char>::empty());
    assert(encode_utf8(Seq::<char>::empty()) =~= Seq::<u8>::empty());
}

/// Advancing a scanner from a character moves it to the following one.
pub proof fn lemma_scanner_advance<'a>(view: ScannerView)
    requires
        scanner_consistent(view),
    ensures
        scanner_consistent(Stream::<CharSource<'a>>::spec_advance(view).0),
        Stream::<CharSource<'a>>::spec_advance(view).0.0.0 == view.0.0,
        view.2 is Some ==> {
            &&& Stream::<CharSource<'a>>::spec_advance(view).1 == Ok::<(), ErrorView>(())
            &&& scanner_position(Stream::<CharSource<'a>>::spec_advance(view).0) == scanner_position(view) + 1
        },
        view.2 is None ==> Stream::<CharSource<'a>>::spec_advance(view).0 == view,
{
}

/// What the invariant of a scanner tells about its text.
pub proof fn lemma_scanner_wf<'a>(scanner: &Stream<CharSource<'a>>)
    requires
        scanner.wf(),
    ensures
        encode_utf8(scanner@.0.0).len() <= usize::MAX,
        scanner@.0.1 <= scanner@.0.0.len(),
{
}

/// A `Lexer` is a stream of tokens from a token source.
pub type Lexer<TokenSource> = Stream<TokenSource>;

/// Utility function to `accept` a clause in a parsing function with `value`.
pub fn accept<Value>(value: Value) -> (r: Result<Value, Error>)
    ensures
        r == Ok::<Value, Error>(value),
{
    Ok(value)
}

/// Utility function to `reject` a clause in a parsing function
/// with explanation `message` at `offset` in the source text.
pub fn reject<Value>(offset: usize, message: &'static str) -> (r: Result<Value, Error>)
    ensures
        r matches Err(error) && error@ == (offset, message@),
{
    Err(Error::new(offset, message))
}

} // verus!
