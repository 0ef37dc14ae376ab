use nastran::datfile::BufferUtil;
use nastran::datfile::{maybe_any_field, maybe_field, maybe_first_field, parse_buffer, parse_line, Card, Deck, Field};

/// A field with real numbers as values, for comparing with expected results.
#[derive(Debug, Clone, PartialEq)]
enum Value {
    Blank,
    Int(i32),
    Float(f32),
    Double(f64),
    Continuation([u8; 8]),
    DoubleContinuation([u8; 8]),
    String([u8; 8]),
    DoubleString([u8; 8]),
}

fn value(f: &Field) -> Value {
    match f {
        Field::Blank => Value::Blank,
        Field::Int(i) => Value::Int(*i),
        Field::Float(t) => Value::Float(std::str::from_utf8(t).unwrap().parse().unwrap()),
        Field::Double(t) => Value::Double(std::str::from_utf8(t).unwrap().parse().unwrap()),
        Field::Continuation(c) => Value::Continuation(*c),
        Field::DoubleContinuation(c) => Value::DoubleContinuation(*c),
        Field::String(s) => Value::String(*s),
        Field::DoubleString(s) => Value::DoubleString(*s),
    }
}

fn name(s: &str) -> [u8; 8] {
    let mut out = [b' '; 8];
    out[..s.len()].copy_from_slice(s.as_bytes());
    out
}

fn values(card: &Card) -> Vec<Value> {
    card.fields.iter().map(value).collect()
}

const DATFILE: &'static [u8] = b"\
PARAM,POST , 1 $ABC
PARAM, WTMASS,0.00259
+,1,2
ABCDEF,123456,123456,123456,123456,123456,123456,123456,123456,123456,123456,123456,123456
BLAH    123      1.+5   1e2     ABC
GRID*            1100001               0    3.732130e+02    3.329000e+00 ED00013
*ED00013    7.408100e+01               0
                                          0.      0.059  0.      0.059 \t\t1
";

#[test]
fn datfile_comma_separated() {
    let res = match parse_buffer(DATFILE) {
        Ok(d) => d,
        Err(e) => {
            println!("{:?}", e);
            assert!(false);
            return;
        }
    };
    let mut it = res.cards.iter();

    let c = it.next().unwrap();
    assert_eq!(c.first.as_ref().map(value), Some(Value::String(name("PARAM"))));
    assert_eq!(
        values(c),
        vec![
            Value::String(name("POST")),
            Value::Int(1),
            Value::Blank,
            Value::Blank,
            Value::Blank,
            Value::Blank,
            Value::Blank,
            Value::Blank,
        ]
    );
    assert_eq!(c.continuation, name(""));
    assert_eq!(c.comment, Some(&b"$ABC"[..]));
    assert!(c.is_comma);
    assert!(!c.is_double);
    assert_eq!(c.unparsed, None);

    let c = it.next().unwrap();
    assert_eq!(c.first.as_ref().map(value), Some(Value::String(name("PARAM"))));
    assert_eq!(
        values(c),
        vec![
            Value::String(name("WTMASS")),
            Value::Float(0.00259),
            Value::Blank,
            Value::Blank,
            Value::Blank,
            Value::Blank,
            Value::Blank,
            Value::Blank,
            Value::Int(1),
            Value::Int(2),
            Value::Blank,
            Value::Blank,
            Value::Blank,
            Value::Blank,
            Value::Blank,
            Value::Blank,
        ]
    );
    assert_eq!(c.continuation, name(""));
    assert_eq!(c.comment, None);
    assert!(c.is_comma);
    assert!(!c.is_double);
    assert_eq!(c.unparsed, None);

    let c = it.next().unwrap();
    assert_eq!(c.first.as_ref().map(value), Some(Value::String(name("ABCDEF"))));
    let mut expected = vec![Value::Int(123456); 0];
    for _ in 0..10 {
        expected.push(Value::Int(123456));
    }
    expected.push(Value::Int(123));
    for _ in 0..5 {
        expected.push(Value::Blank);
    }
    assert_eq!(values(c), expected);
    assert_eq!(c.continuation, name(""));
    assert_eq!(c.comment, Some(&b"456,123456"[..]));
    assert!(c.is_comma);
    assert!(!c.is_double);
    assert_eq!(c.unparsed, None);

    let c = it.next().unwrap();
    assert_eq!(c.first.as_ref().map(value), Some(Value::String(name("BLAH"))));
    assert_eq!(
        values(c),
        vec![
            Value::Int(123),
            Value::Float(1e5),
            Value::Float(1e2),
            Value::String(name("ABC")),
            Value::Blank,
            Value::Blank,
            Value::Blank,
            Value::Blank,
        ]
    );
    assert_eq!(c.continuation, name(""));
    assert_eq!(c.comment, None);
    assert!(!c.is_comma);
    assert!(!c.is_double);
    assert_eq!(c.unparsed, None);

    let c = it.next().unwrap();
    assert_eq!(c.first.as_ref().map(value), Some(Value::DoubleString(name("GRID"))));
    assert_eq!(
        values(c),
        vec![
            Value::Int(1100001),
            Value::Int(0),
            Value::Float(373.213),
            Value::Float(3.329),
            Value::Float(74.081),
            Value::Int(0),
            Value::Blank,
            Value::Blank,
            Value::Blank,
            Value::Blank,
            Value::Blank,
            Value::Blank,
            Value::Float(0.0),
            Value::Float(0.059),
            Value::Float(0.0),
            Value::Float(0.059),
        ]
    );
    assert_eq!(c.continuation, name(""));
    assert_eq!(c.comment, None);
    assert!(!c.is_comma);
    assert!(c.is_double);
    assert_eq!(c.unparsed, None);

    assert!(it.next().is_none());
}

const HEADER: &'static [u8] = b"\
$ABC

NASTRAN
BEGIN BULK
ABC,1
ENDDATA
BCD,2
";

#[test]
fn header() {
    let res = match parse_buffer(HEADER) {
        Ok(d) => d,
        Err(e) => {
            println!("{:?}", e);
            assert!(false);
            return;
        }
    };
    let mut deck = Deck::new();
    deck.set_header(b"$ABC\n\nNASTRAN\n");
    deck.set_unparsed(b"BCD,2\n");
    deck.add_card(Card {
        first: Some(Field::String(name("ABC"))),
        fields: vec![
            Field::Int(1),
            Field::Blank,
            Field::Blank,
            Field::Blank,
            Field::Blank,
            Field::Blank,
            Field::Blank,
            Field::Blank,
        ],
        continuation: name(""),
        comment: None,
        is_comma: true,
        is_double: false,
        unparsed: None,
    })
    .unwrap();
    assert_eq!(res, deck);
}

fn ok_field(test: &str, expected: Value) {
    match maybe_field(test.as_bytes()) {
        Ok(r) => assert_eq!(value(&r), expected, "field '{}'", test),
        Err(e) => panic!("Expected Ok for '{}' got '{:?}'", test, e),
    }
}

fn ok_first_field(test: &str, expected: Value) {
    match maybe_first_field(test.as_bytes()) {
        Ok(r) => assert_eq!(value(&r), expected, "field '{}'", test),
        Err(e) => panic!("Expected Ok for '{}' got '{:?}'", test, e),
    }
}

#[test]
fn field_test_maybe_field() {
    ok_first_field("+A B", Value::Continuation(*b"A B     "));
    ok_first_field("+", Value::Continuation(*b"        "));
    ok_first_field("+       ", Value::Continuation(*b"        "));
    ok_field("HI1", Value::String(*b"HI1     "));
    ok_field("ABCDEFGH", Value::String(*b"ABCDEFGH"));
    ok_field(" 2.23 ", Value::Float(2.23));
    ok_field("+2.24 ", Value::Float(2.24));
    ok_field(" 2.25e7 ", Value::Float(2.25e7));
    ok_field(" 2.26e+7 ", Value::Float(2.26e7));
    ok_field(" 2.27e-7 ", Value::Float(2.27e-7));
    ok_field(" .28 ", Value::Float(0.28));
    ok_field(" .29e+7 ", Value::Float(0.29e7));
    ok_field(" 30e+7 ", Value::Float(3e8));
    ok_field(" 3.1+7 ", Value::Float(3.1e7));
    ok_field(" 3.+7 ", Value::Float(3.0e7));
    ok_field(" .2+7 ", Value::Float(0.2e7));
    ok_field(" .2-7 ", Value::Float(0.2e-7));
    ok_first_field("HI2*", Value::DoubleString(*b"HI2     "));
    ok_first_field("HI3 *", Value::DoubleString(*b"HI3     "));
    ok_first_field("* HI4", Value::DoubleContinuation(*b" HI4    "));
    ok_field("", Value::Blank);
    ok_field("  ", Value::Blank);
}

#[test]
fn number_forms() {
    ok_field("-12", Value::Int(-12));
    ok_field("12345678", Value::Int(12345678));
    ok_field("1.5d3", Value::Double(1500.0));
    ok_field("2.5D-2", Value::Double(0.025));
    assert!(maybe_field(b"123456789").is_err());
    assert!(maybe_field(b"1.5e").is_err());
    assert!(maybe_field(b"1.5x").is_err());
    assert!(maybe_field(b"ABCDEFGHI").is_err());
    assert!(maybe_field(b"#").is_err());
    match maybe_any_field(b"+12") {
        Ok(f) => assert_eq!(value(&f), Value::Int(12)),
        Err(e) => panic!("{:?}", e),
    }
    match maybe_any_field(b"+AB") {
        Ok(f) => assert_eq!(value(&f), Value::Continuation(name("AB"))),
        Err(e) => panic!("{:?}", e),
    }
}

#[test]
fn line_comment_and_trailing() {
    let card = parse_line(b"GRID    1       0       1.0     2.0     3.0                             +G1").unwrap();
    assert_eq!(card.continuation, name("G1"));
    assert_eq!(values(&card)[2], Value::Float(1.0));
    let blank = parse_line(b"$ just a comment").unwrap();
    assert_eq!(blank.first, None);
    assert_eq!(blank.comment, Some(&b"$ just a comment"[..]));
}

#[test]
fn long_numbers_are_cut_at_column_80() {
    // The content of a line ends at column 80; what follows is kept as the
    // comment, so a long number is cut there, never overflowing the reader.
    let mut line = b"PARAM,1.".to_vec();
    line.extend(std::iter::repeat(b'0').take(80));
    line.extend(b"d1");
    let card = parse_line(&line).unwrap();
    assert_eq!(card.comment, Some(&line[80..]));
    let mut field = b"1.".to_vec();
    field.extend(std::iter::repeat(b'0').take(80));
    field.extend(b"d1");
    assert!(nastran::datfile::maybe_field_checked(&field).is_none());
    assert!(nastran::datfile::maybe_field_checked(b"1.0d1").is_some());
}

#[test]
fn lossy_text() {
    assert_eq!((&b"GRID"[..]).to_string_lossy(), "GRID".to_string());
    assert_eq!((&[0x41u8, 0xff, 0x42][..]).to_string_lossy(), "A\u{fffd}B".to_string());
}

#[test]
fn unmatched_continuation_line() {
    let r = parse_buffer(b"GRID    1\n+ABC    2\n").map(|_| ());
    assert_eq!(r, Err(nastran::datfile::Error::UnmatchedContinuation(*b"ABC     ")));
}
