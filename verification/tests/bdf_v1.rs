use nastran::bdf::v1::deck::LinesIterator;
use nastran::bdf::v1::parser::{
    parse_bytes, parse_bytes_checked, parse_first_field, parse_inner_field, parse_trailing_field,
    BulkCard, BulkCardIter, Error, Field, FieldData, FirstFieldKind, TrailingField,
    UnparsedFieldData, UnparsedFirstField, UnparsedTrailingField,
};

fn float16(text: &str) -> [u8; 16] {
    let mut out = [b' '; 16];
    out[..text.len()].copy_from_slice(text.as_bytes());
    out
}

fn single(card: &BulkCard) -> (&nastran::bdf::v1::parser::FirstField, &[Field; 8], [u8; 8]) {
    match &card.data {
        FieldData::Single(first, fields, trailing) => (first, fields, trailing.0),
        other => panic!("not a single-width card: {:?}", other),
    }
}

#[test]
fn v1_fixed_line() {
    let line = format!("{:<8}{:>8}{:>8}{:>8}{:>8}{:>8}\n", "GRID", "1", "0", "1.0", "-2.5", "3.+2");
    let cards = parse_bytes(line.as_bytes()).unwrap();
    assert_eq!(cards.len(), 1);
    let card = &cards[0];
    assert_eq!(card.original, line.as_bytes().to_vec());
    assert!(card.comment.to_vec().is_empty());
    let (first, fields, trailing) = single(card);
    assert_eq!(first.kind, FirstFieldKind::Text(*b"GRID    "));
    assert!(!first.double);
    assert_eq!(fields[0], Field::Int(1));
    assert_eq!(fields[1], Field::Int(0));
    assert_eq!(fields[2], Field::Float(float16("1.0")));
    assert_eq!(fields[3], Field::Float(float16("-2.5")));
    assert_eq!(fields[4], Field::Float(float16("3.E+2")));
    assert_eq!(fields[5], Field::Blank);
    assert_eq!(fields[7], Field::Blank);
    assert_eq!(trailing, *b"        ");
}

#[test]
fn v1_large_field_line() {
    let line = format!("{:<8}{:>16}{:>16}\n", "GRID*", "12", "1.5");
    let cards = parse_bytes(line.as_bytes()).unwrap();
    match &cards[0].data {
        FieldData::Double(first, fields, _) => {
            assert_eq!(first.kind, FirstFieldKind::Text(*b"GRID    "));
            assert!(first.double);
            assert_eq!(fields[0], Field::Int(12));
            assert_eq!(fields[1], Field::Float(float16("1.5")));
            assert_eq!(fields[2], Field::Blank);
        }
        other => panic!("not a large-field card: {:?}", other),
    }
}

#[test]
fn v1_comma_line() {
    let cards = parse_bytes(b"grid,1,,1.0,+2,-3\n").unwrap();
    assert_eq!(cards.len(), 1);
    let card = &cards[0];
    assert_eq!(card.original, b"grid,1,,1.0,+2,-3\n".to_vec());
    assert_eq!(card.comment.to_vec(), b"\n".to_vec());
    let (first, fields, trailing) = single(card);
    assert_eq!(first.kind, FirstFieldKind::Text(*b"GRID    "));
    assert_eq!(fields[0], Field::Int(1));
    assert_eq!(fields[1], Field::Blank);
    assert_eq!(fields[2], Field::Float(float16("1.0")));
    assert_eq!(fields[3], Field::Int(2));
    assert_eq!(fields[4], Field::Int(-3));
    assert_eq!(fields[5], Field::Blank);
    assert_eq!(trailing, *b"        ");
}

#[test]
fn v1_long_comma_line_makes_two_cards() {
    let line = b"A,1,2,3,4,5,6,7,8,+B,C,9\n";
    let cards = parse_bytes(line).unwrap();
    assert_eq!(cards.len(), 2);
    let (first, fields, trailing) = single(&cards[0]);
    assert_eq!(first.kind, FirstFieldKind::Text(*b"A       "));
    assert_eq!(fields[7], Field::Int(8));
    assert_eq!(trailing, *b"+B      ");
    assert!(cards[0].original.is_empty());
    assert!(cards[0].comment.to_vec().is_empty());
    let (first, fields, _) = single(&cards[1]);
    assert_eq!(first.kind, FirstFieldKind::Text(*b"C       "));
    assert_eq!(fields[0], Field::Int(9));
    assert_eq!(cards[1].original, line.to_vec());
    assert_eq!(cards[1].comment.to_vec(), b"\n".to_vec());
}

#[test]
fn v1_comment_lines() {
    let cards = parse_bytes(b"$,x\n$ note\n").unwrap();
    assert_eq!(cards.len(), 2);
    assert!(matches!(cards[0].data, FieldData::Blank));
    assert_eq!(cards[0].original, b"$,x\n".to_vec());
    assert_eq!(cards[0].comment.to_vec(), b"$,x\n".to_vec());
    let (first, fields, _) = single(&cards[1]);
    assert_eq!(first.kind, FirstFieldKind::Blank);
    assert_eq!(fields[0], Field::Blank);
    assert!(cards[1].comment.to_vec().is_empty());
}

#[test]
fn v1_errors() {
    assert_eq!(parse_bytes(b"GRID,123456789\n").unwrap_err(), Error::TextTooLong(b"123456789".to_vec()));
    assert_eq!(parse_bytes(b"GRID,1A\n").unwrap_err(), Error::UnexpectedChar(b'A'));
    assert_eq!(parse_bytes(b"GRID,1 2\n").unwrap_err(), Error::EmbeddedSpace);
    assert_eq!(parse_bytes(b"GRID,123456789012\n").unwrap_err(), Error::TextTooLong(b"123456789012".to_vec()));
    assert_eq!(parse_bytes(b"GRID,1.D5\n").unwrap_err(), Error::UnexpectedChar(b'5'));
    assert_eq!(parse_bytes(b"GRID,-\n").unwrap_err(), Error::UnexpectedChar(b' '));
    assert_eq!(parse_inner_field(b"-").unwrap().unwrap_err(), Error::InvalidField);
    assert_eq!(parse_bytes(b"G-D,1\n").unwrap_err(), Error::UnexpectedChar(b'-'));
    // the first error wins, later lines are not read
    assert_eq!(parse_bytes(b"GRID,1A\nGRID,123456789\n").unwrap_err(), Error::UnexpectedChar(b'A'));
}

#[test]
fn v1_scratch_overflow() {
    let line = format!("{:<8}{:>16}\n", "GRID*", "1234567890123.+1");
    assert!(parse_bytes_checked(line.as_bytes()).is_none());
    assert!(parse_inner_field(b"1234567890123.+1").is_none());
    assert!(parse_bytes_checked(b"GRID,1\n").is_some());
}

#[test]
fn v1_unparsed_card_text() {
    let mut iter = BulkCardIter::new(b"A,1\n");
    let card = iter.next().unwrap().unwrap();
    let mut expected = b"A       1       ".to_vec();
    expected.extend_from_slice(&[b' '; 64]);
    assert_eq!(card.to_bytes(), expected);
    match &card.data {
        UnparsedFieldData::Single(first, fields, _) => {
            assert_eq!(first.0, *b"A       ");
            assert_eq!(fields[0].0, *b"1       ");
        }
        other => panic!("unexpected {:?}", other),
    }
    assert!(iter.next().is_none());
    let parsed = BulkCard::try_from(card).unwrap().unwrap();
    assert_eq!(single(&parsed).1[0], Field::Int(1));
}

#[test]
fn v1_first_and_trailing_fields() {
    let f = parse_first_field(&UnparsedFirstField(*b"*A      ")).unwrap();
    assert_eq!(f.kind, FirstFieldKind::Continuation(*b"+A      "));
    assert!(f.double);
    let f = parse_first_field(&UnparsedFirstField(*b"+C1     ")).unwrap();
    assert_eq!(f.kind, FirstFieldKind::Continuation(*b"+C1     "));
    assert!(!f.double);
    assert_eq!(parse_first_field(&UnparsedFirstField(*b"A$      ")).unwrap_err(), Error::UnexpectedChar(b'$'));
    assert_eq!(parse_trailing_field(&UnparsedTrailingField(*b"        ")).unwrap(), TrailingField(*b"        "));
    assert_eq!(parse_trailing_field(&UnparsedTrailingField(*b"ABC     ")).unwrap_err(), Error::UnexpectedChar(b' '));
    assert_eq!(parse_trailing_field(&UnparsedTrailingField(*b"+ABC    ")).unwrap_err(), Error::UnexpectedChar(b'+'));
    assert_eq!(
        parse_trailing_field(&UnparsedTrailingField(*b"ABCDEFGH")).unwrap_err(),
        Error::TextTooLong(b"+ABCDEFGH".to_vec())
    );
}

#[test]
fn v1_tabs_and_column_80() {
    let cards = parse_bytes(b"GRID\t1\t2\n").unwrap();
    let (first, fields, _) = single(&cards[0]);
    assert_eq!(first.kind, FirstFieldKind::Text(*b"GRID    "));
    assert_eq!(fields[0], Field::Int(1));
    assert_eq!(fields[1], Field::Int(2));
    assert_eq!(fields[2], Field::Blank);
    let mut line = format!("{:<8}{:>8}", "GRID", "7").into_bytes();
    line.resize(72, b' ');
    line.extend_from_slice(b"+C1     99\n");
    let cards = parse_bytes(&line).unwrap();
    let (_, fields, trailing) = single(&cards[0]);
    assert_eq!(fields[0], Field::Int(7));
    assert_eq!(trailing, *b"+C1     ");
    assert!(cards[0].comment.to_vec().is_empty());
}

#[test]
fn v1_deck_lines() {
    let mut lines = LinesIterator::new(b"GRID 1 $c\nX\r\nY");
    assert_eq!(lines.next(), Some((&b"GRID 1 "[..], &b"$c\n"[..])));
    assert_eq!(lines.next(), Some((&b"X"[..], &b"\r\n"[..])));
    assert_eq!(lines.next(), Some((&b"Y"[..], &b""[..])));
    assert_eq!(lines.next(), None);

    let long = [b'A'; 90];
    let mut text = long.to_vec();
    text.push(b'\n');
    let mut lines = LinesIterator::new(&text);
    let (content, trailing) = lines.next().unwrap();
    assert_eq!(content.len(), 80);
    assert_eq!(trailing.len(), 11);

    // ten tabs reach column 80
    let mut lines = LinesIterator::new(b"\t\t\t\t\t\t\t\t\t\tAB\n");
    assert_eq!(lines.next(), Some((&b"\t\t\t\t\t\t\t\t\t\t"[..], &b"AB\n"[..])));
    assert_eq!(lines.next(), None);
}

#[test]
fn v1_deck_lines_rebuild_the_buffer() {
    let buf: &[u8] = b"GRID 1 $c\r\nX\n\nCTETRA\t1\t2$x\rY";
    let mut lines = LinesIterator::new(buf);
    let mut joined = Vec::new();
    let mut count = 0;
    while let Some((content, trailing)) = lines.next() {
        assert!(!content.is_empty() || !trailing.is_empty());
        joined.extend_from_slice(content);
        joined.extend_from_slice(trailing);
        count += 1;
    }
    assert_eq!(joined, buf.to_vec());
    assert_eq!(count, 5);
}
