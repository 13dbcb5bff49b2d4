use tautology::from_str::parse::{accept, reject, CharSource, Error, Next, Scanner, Source, Stream};

#[test]
fn char_source_empty_string() {
    let mut cs = CharSource::new("");

    assert_eq!(cs.next(), accept(Next::End(0)));
    assert_eq!(cs.next(), accept(Next::End(0)));
}

#[test]
fn char_source_not_empty_string() {
    let mut cs = CharSource::new("abc");

    assert_eq!(cs.next(), accept(Next::Value(0, 'a')));
    assert_eq!(cs.next(), accept(Next::Value(1, 'b')));
    assert_eq!(cs.next(), accept(Next::Value(2, 'c')));
    assert_eq!(cs.next(), accept(Next::End(3)));
    assert_eq!(cs.next(), accept(Next::End(3)));
}

#[test]
fn stream_try_from_empty_string() {
    let cs = CharSource::new("");
    let stream = Stream::try_from(cs).expect("char source should result in valid stream");

    assert_eq!(stream.offset(), 0);
    assert_eq!(stream.item(), None);
}

#[test]
fn stream_try_from_not_empty_string() {
    let cs = CharSource::new("abc");
    let stream = Stream::try_from(cs).expect("char source should result in valid stream");

    assert_eq!(stream.offset(), 0);
    assert_eq!(stream.item(), Some('a'));
}

#[test]
fn stream_advance_empty_string() {
    let cs = CharSource::new("");
    let mut stream = Stream::try_from(cs).expect("char source should result in valid stream");

    assert_eq!(stream.advance(), reject(0, "unexpected end of input"));
}

#[test]
fn stream_advance_not_empty_string() {
    let cs = CharSource::new("abc");
    let mut stream = Stream::try_from(cs).expect("char source should result in valid stream");

    assert_eq!(stream.offset(), 0);
    assert_eq!(stream.item(), Some('a'));
    assert_eq!(stream.advance(), accept(()));

    assert_eq!(stream.offset(), 1);
    assert_eq!(stream.item(), Some('b'));
    assert_eq!(stream.advance(), accept(()));

    assert_eq!(stream.offset(), 2);
    assert_eq!(stream.item(), Some('c'));
    assert_eq!(stream.advance(), accept(()));

    assert_eq!(stream.offset(), 3);
    assert_eq!(stream.item(), None);
    assert_eq!(stream.advance(), reject(3, "unexpected end of input"));
}

#[test]
fn expect_char_in_input() {
    let cs = CharSource::new("abc");
    let mut scanner = Scanner::try_from(cs).expect("char source should result in valid stream");

    assert_eq!(helper_function_for_expect_macro(&mut scanner), accept(()));
}

#[test]
fn repeat_char_in_input() {
    let cs = CharSource::new("abc");
    let mut scanner = Scanner::try_from(cs).expect("char source should result in valid stream");

    assert_eq!(helper_function_for_repeat_macro(&mut scanner), accept(vec!['a', 'b', 'c']));
}

fn helper_function_for_expect_macro(scanner: &mut Scanner) -> Result<(), Error> {
    let Some('a') = scanner.item() else {
        return reject(scanner.offset(), "expected 'a'");
    };
    scanner.advance()?;
    let Some('b') = scanner.item() else {
        return reject(scanner.offset(), "expected 'a'");
    };
    scanner.advance()?;
    let Some('c') = scanner.item() else {
        return reject(scanner.offset(), "expected 'a'");
    };
    scanner.advance()?;
    accept(())
}

fn helper_function_for_repeat_macro(scanner: &mut Scanner) -> Result<Vec<char>, Error> {
    let mut result = Vec::new();
    while let Some(ch) = scanner.item() {
        scanner.advance()?;
        result.push(ch);
    }
    accept(result)
}
