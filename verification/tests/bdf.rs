use nastran::bdf::cards::{parse_bytes, parse_bytes_checked, BulkCard};
use nastran::bdf::deck::{FieldConv, Storage, StorageItem, CTETRA};
use nastran::bdf::field::Field;
use nastran::bdf::lines::{expand_tabs, EOL};
use nastran::bdf::parser::{parse_fixed_line, to_bulk_line, CommaLine, FieldData};
use nastran::bdf::Error;

fn text8(s: &str) -> [u8; 8] {
    let mut out = [b' '; 8];
    out[..s.len()].copy_from_slice(s.as_bytes());
    out
}

fn name7(s: &str) -> [u8; 7] {
    let mut out = [b' '; 7];
    out[..s.len()].copy_from_slice(s.as_bytes());
    out
}

fn real16(s: &str) -> [u8; 16] {
    let mut out = [b' '; 16];
    out[..s.len()].copy_from_slice(s.as_bytes());
    out
}

fn parse(input: &[u8]) -> Vec<BulkCard> {
    match parse_bytes(input) {
        Ok(cards) => cards,
        Err(e) => panic!("{:?}", e),
    }
}

#[test]
fn fixed_card() {
    let cards = parse(b"GRID    1       0       1.0     2.0     3.0\n");
    assert_eq!(cards.len(), 1);
    let c = &cards[0];
    assert_eq!(c.card_type(), Some(name7("GRID")));
    assert_eq!(
        c.fields(),
        &[
            Field::IntOrId(1),
            Field::IntOrId(0),
            Field::Float(real16("1.0")),
            Field::Float(real16("2.0")),
            Field::Float(real16("3.0")),
            Field::Blank,
            Field::Blank,
            Field::Blank,
        ][..]
    );
    assert_eq!(c.eol, EOL::LF);
    assert_eq!(c.comment.to_vec(), b"".to_vec());
    assert_eq!(c.original(), &b"GRID    1       0       1.0     2.0     3.0\n"[..]);
}

#[test]
fn lower_case_and_exponents() {
    let cards = parse(b"blah    -12      1.+5   1e2     abc\n");
    let c = &cards[0];
    assert_eq!(c.card_type(), Some(name7("BLAH")));
    assert_eq!(
        &c.fields()[..4],
        &[
            Field::Int(-12),
            Field::Float(real16("1.E+5")),
            Field::Float(real16("1E2")),
            Field::Text(text8("ABC")),
        ][..]
    );
}

#[test]
fn comma_card_with_continuation() {
    let cards = parse(b"PARAM, WTMASS,0.00259\n+,1,2\n");
    assert_eq!(cards.len(), 1);
    let c = &cards[0];
    assert_eq!(c.card_type(), Some(name7("PARAM")));
    let mut expected = vec![Field::Text(text8("WTMASS")), Field::Float(real16("0.00259"))];
    expected.extend(vec![Field::Blank; 6]);
    expected.push(Field::IntOrId(1));
    expected.push(Field::IntOrId(2));
    expected.extend(vec![Field::Blank; 6]);
    assert_eq!(c.fields(), &expected[..]);
}

#[test]
fn comma_comment_and_long_line() {
    let input: &[u8] = b"PARAM,POST , 1 $ABC\nABCDEF,1,2,3,4,5,6,7,8,9,10\n";
    let cards = parse(input);
    assert_eq!(cards.len(), 2);
    assert_eq!(cards[0].comment.to_vec(), b"$ABC".to_vec());
    assert_eq!(cards[0].fields()[..2], [Field::Text(text8("POST")), Field::IntOrId(1)]);
    let fields = cards[1].fields();
    assert_eq!(fields.len(), 16);
    for i in 0..10 {
        assert_eq!(fields[i], Field::IntOrId(i as u32 + 1));
    }
    for i in 10..16 {
        assert_eq!(fields[i], Field::Blank);
    }
}

#[test]
fn large_field_continuation() {
    let input: &[u8] = b"GRID*            1100001               0    3.732130e+02    3.329000e+00 ED00013\n*ED00013    7.408100e+01               0\n";
    let cards = parse(input);
    assert_eq!(cards.len(), 1);
    let fields = cards[0].fields();
    assert_eq!(
        fields,
        &[
            Field::IntOrId(1100001),
            Field::IntOrId(0),
            Field::Float(real16("3.732130E+02")),
            Field::Float(real16("3.329000E+00")),
            Field::Float(real16("7.408100E+01")),
            Field::IntOrId(0),
            Field::Blank,
            Field::Blank,
        ][..]
    );
}

#[test]
fn comment_line_is_kept() {
    let cards = parse(b"$ a comment\nGRID    7\n");
    assert_eq!(cards.len(), 2);
    assert_eq!(cards[0].card_type(), None);
    assert_eq!(cards[0].fields(), &[][..]);
    assert_eq!(cards[0].comment.to_vec(), b"$ a comment".to_vec());
    assert_eq!(cards[1].fields()[0], Field::IntOrId(7));
}

#[test]
fn unmatched_continuation() {
    assert_eq!(
        parse_bytes(b"+ABC    1\n"),
        Err(Error::UnmatchedContinuation(name7("ABC")))
    );
}

#[test]
fn first_error_wins() {
    assert_eq!(parse_bytes(b"GRID    1\n+ABC    1\nGRID    1.2.3\n"), Err(Error::UnmatchedContinuation(name7("ABC"))));
    assert_eq!(parse_bytes(b"GRID    -1 2\n"), Err(Error::EmbeddedSpace));
    assert_eq!(parse_bytes(b"GRID    1 2\n"), Err(Error::UnexpectedChar(b'2')));
    assert_eq!(parse_bytes(b"GR#D    1\n"), Err(Error::UnexpectedChar(b'#')));
    assert_eq!(parse_bytes(b"ABCDEFGHI,1\n"), Err(Error::TextTooLong(b"ABCDEFGHI".to_vec())));
    assert_eq!(parse_bytes(b"GRID    1.E\n"), Err(Error::UnexpectedChar(b' ')));
    assert_eq!(parse_bytes(b"GRID    1234567E\n"), Err(Error::InvalidField));
}

#[test]
fn unparsed_characters() {
    // No comment or line end is reached after the trailing field.
    assert!(matches!(parse_fixed_line(b"GRID    1"), Err(Error::UnparsedChars)));
}

#[test]
fn overflowing_large_field() {
    assert!(parse_bytes_checked(b"GRID*   1.0+123456789012\n").is_none());
}

#[test]
fn tabs_expand_to_eight_columns() {
    assert_eq!(expand_tabs(b"A\tB"), b"A       B".to_vec());
    assert_eq!(expand_tabs(b"\tAB"), b"        AB".to_vec());
    assert_eq!(expand_tabs(b"1234567\tX"), b"1234567 X".to_vec());
    assert_eq!(expand_tabs(b"GRID\t12\t3"), b"GRID    12      3".to_vec());
    assert_eq!(expand_tabs(b"AB"), b"AB".to_vec());
}

#[test]
fn comma_lines_one_at_a_time() {
    let mut c = CommaLine::new(b"PARAM,A,B\n");
    let first = c.next_line().unwrap().unwrap();
    assert!(matches!(first.data, Some(nastran::bdf::parser::UnparsedFieldData::Single(..))));
    assert!(c.next_line().is_none());
}

#[test]
fn bulk_line_fields() {
    let line = parse_fixed_line(b"CTETRA  1       2\n").unwrap();
    let line = to_bulk_line(line).unwrap().unwrap();
    match line.data {
        Some(FieldData::Single(_, fields, _)) => {
            assert_eq!(fields[0], Field::IntOrId(1));
            assert_eq!(fields[1], Field::IntOrId(2));
            assert_eq!(fields[2], Field::Blank);
        }
        _ => panic!("expected small fields"),
    }
}

#[test]
fn field_conversions() {
    assert_eq!(Field::IntOrId(123).dof(), Ok([true, true, true, false, false, false]));
    assert_eq!(Field::IntOrId(7).dof(), Err(Error::UnexpectedDOF(Field::IntOrId(7))));
    assert_eq!(Field::Blank.dof(), Ok([false; 6]));
    assert_eq!(Field::IntOrId(12).integer(), Ok(12));
    assert_eq!(Field::Int(-3).integer(), Ok(-3));
    assert_eq!(Field::Int(-3).id(), Err(Error::UnexpectedField("id", Field::Int(-3))));
    assert_eq!(Field::Blank.id_or(5), Ok(5));
    assert_eq!(None::<Field>.int_or(9), Ok(9));
    assert_eq!(Some(Field::IntOrId(4)).id(), Ok(4));
}

#[test]
fn ctetra_from_card() {
    let mut cards = parse(b"CTETRA  1       2       3       4       5       6\nGRID    1\n");
    let grid = cards.pop().unwrap();
    let tet = cards.pop().unwrap();
    assert_eq!(
        CTETRA::try_from(tet),
        Ok(CTETRA { eid: 1, pid: 2, g1: 3, g2: 4, g3: 5, g4: 6 })
    );
    assert_eq!(
        CTETRA::try_from(grid),
        Err(Error::UnexpectedCardType(name7("CTETRA"), name7("GRID")))
    );
    let short = parse(b"CTETRA  1       2       3\n").pop().unwrap();
    assert_eq!(
        CTETRA::try_from(short),
        Err(Error::UnexpectedField("id", Field::Blank))
    );
}

#[test]
fn storage_read_after_write() {
    let a = CTETRA { eid: 1, pid: 1, g1: 1, g2: 2, g3: 3, g4: 4 };
    let b = CTETRA { eid: 2, pid: 1, g1: 5, g2: 6, g3: 7, g4: 8 };
    let a2 = CTETRA { eid: 1, pid: 9, g1: 1, g2: 2, g3: 3, g4: 4 };
    let mut s: Storage<CTETRA> = Storage::new();
    assert_eq!(s.insert(a), Ok(()));
    assert_eq!(s.insert(b), Ok(()));
    assert_eq!(s.len(), 2);
    assert_eq!(s.get(1), Some(&a));
    assert_eq!(s.insert(a2), Err(Error::DuplicateCard));
    assert_eq!(s.get(1), Some(&a2));
    assert_eq!(s.get(3), None);
    assert_eq!(s.len(), 2);
    assert_eq!(s.clone_to_vec(), vec![b, a2]);
    assert_eq!(s.iter(), vec![&b, &a2]);
    assert_eq!(s.replace(a), Some(a2));
    assert_eq!(a.id(), 1);
}

#[test]
fn comma_line_after_an_error() {
    let mut c = CommaLine::new(b"ABCDEFGHIJ,1,2\n");
    assert_eq!(c.next_line().unwrap().unwrap_err(), Error::TextTooLong(b"ABCDEFGHIJ".to_vec()));
    // the rest of the line is read as a continuation line
    let next = c.next_line().unwrap().unwrap();
    match next.data {
        Some(nastran::bdf::parser::UnparsedFieldData::Single(first, fields, _)) => {
            assert!(matches!(first.kind, nastran::bdf::field::FirstFieldKind::Continuation(_)));
            assert_eq!(fields[0].0, text8("1"));
            assert_eq!(fields[1].0, text8("2"));
            assert_eq!(fields[2].0, text8(""));
        }
        _ => panic!("expected small fields"),
    }
    assert_eq!(next.original, b"ABCDEFGHIJ,1,2\n".to_vec());
    assert!(c.next_line().is_none());
}
