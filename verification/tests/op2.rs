use nastran::op2::{
    parse_buffer_double, parse_buffer_single, DataBlockType, Date, DoubleWord, ErrorCode,
    SingleWord,
};

/// Builds a file in the record layout the reader expects, with words of
/// `w` bytes.
struct Writer {
    w: usize,
    out: Vec<u8>,
}

impl Writer {
    fn new(w: usize) -> Self {
        Writer { w, out: Vec::new() }
    }

    fn int_bytes(&self, v: i64) -> Vec<u8> {
        if self.w == 4 {
            (v as i32).to_le_bytes().to_vec()
        } else {
            v.to_le_bytes().to_vec()
        }
    }

    fn word_bytes(&self, t: &[u8; 4]) -> Vec<u8> {
        let mut b = t.to_vec();
        b.resize(self.w, b' ');
        b
    }

    fn record(&mut self, data: &[u8]) {
        let n = data.len() as i32;
        self.out.extend_from_slice(&n.to_le_bytes());
        self.out.extend_from_slice(data);
        self.out.extend_from_slice(&n.to_le_bytes());
    }

    fn int_record(&mut self, v: i64) {
        let b = self.int_bytes(v);
        self.record(&b);
    }

    fn encoded(&mut self, data: &[u8]) {
        let nwords = (data.len() / self.w) as i64;
        self.int_record(nwords);
        self.record(data);
    }

    fn ints(&self, vs: &[i64]) -> Vec<u8> {
        vs.iter().flat_map(|v| self.int_bytes(*v)).collect()
    }

    fn words(&self, ws: &[&[u8; 4]]) -> Vec<u8> {
        ws.iter().flat_map(|t| self.word_bytes(t)).collect()
    }
}

fn test_file(w: usize, date: [i64; 3], label: [&[u8; 4]; 2]) -> Vec<u8> {
    let mut f = Writer::new(w);
    let d = f.ints(&date);
    f.encoded(&d);
    let code = f.words(&[b"NAST", b"RAN ", b"FORT", b" TAP", b"E ID", b" COD", b"E - "]);
    f.encoded(&code);
    let l = f.words(&label);
    f.encoded(&l);
    f.int_record(-1);
    f.int_record(0);
    // one data block
    let name = f.words(&[b"PVT0", b"    "]);
    f.encoded(&name);
    f.int_record(-1);
    let trailer = f.ints(&[101, 13, 0, 0, 0, 0, 0]);
    f.encoded(&trailer);
    f.int_record(-2);
    let kind = f.ints(&[0]);
    f.encoded(&kind);
    let header = f.words(&[b"PVT ", b"    "]);
    f.encoded(&header);
    f.int_record(-3);
    // one table record of two words
    f.int_record(1);
    f.int_record(0);
    let rec = f.ints(&[7, 8]);
    f.encoded(&rec);
    f.int_record(-4);
    // end of the records
    f.int_record(1);
    f.int_record(0);
    f.int_record(0);
    // end of the blocks
    f.int_record(0);
    f.out
}

#[test]
fn test_parse_buffer() {
    let buf = test_file(4, [8, 13, 18], [b"NX11", b".0.2"]);
    let op2 = match parse_buffer_single(&buf[..]) {
        Ok(o) => o,
        Err(e) => panic!("{:?}", e),
    };
    assert_eq!(op2.header.date, Date { month: 8, day: 13, year: 18 });
    assert_eq!(op2.header.label, [SingleWord(*b"NX11"), SingleWord(*b".0.2")]);
    assert_eq!(op2.blocks[0].name, [SingleWord(*b"PVT0"), SingleWord(*b"    ")]);
    assert_eq!(op2.blocks[0].trailer, [101, 13, 0, 0, 0, 0, 0]);
    assert_eq!(op2.blocks[0].record_type, DataBlockType::Table);
    let header = op2.blocks[0].header.read_value(&buf);
    assert_eq!(header, vec![SingleWord(*b"PVT "), SingleWord(*b"    ")]);
    assert_eq!(op2.blocks[0].records.len(), 1);
}

#[test]
fn test_parse_buffer_64() {
    let buf = test_file(8, [7, 10, 18], [b"NX11", b".0.2"]);
    let op2 = match parse_buffer_double(&buf[..]) {
        Ok(o) => o,
        Err(e) => panic!("{:?}", e),
    };
    assert_eq!(op2.header.date, Date { month: 7, day: 10, year: 18 });
    assert_eq!(op2.blocks[0].trailer, [101, 13, 0, 0, 0, 0, 0]);
    assert_eq!(op2.blocks[0].record_type, DataBlockType::Table);
    let header = op2.blocks[0].header.read_value(&buf);
    assert_eq!(
        header,
        vec![DoubleWord(*b"PVT ", *b"    "), DoubleWord(*b"    ", *b"    ")]
    );
    assert_eq!(op2.blocks[0].records.len(), 1);
}

#[test]
fn record_bytes() {
    let buf = test_file(4, [1, 2, 3], [b"ABCD", b"EFGH"]);
    let op2 = parse_buffer_single(&buf).unwrap();
    let rec = op2.blocks[0].records[0].read_value(&buf);
    assert_eq!(rec, vec![7, 0, 0, 0, 8, 0, 0, 0]);
}

#[test]
fn truncated_file() {
    let buf = test_file(4, [8, 13, 18], [b"NX11", b".0.2"]);
    let cut = &buf[..buf.len() - 2];
    let e = parse_buffer_single(cut).unwrap_err();
    assert_eq!(e.code, ErrorCode::UnexpectedEOF);
    let rem = e.remaining.unwrap();
    assert_eq!(rem.end, cut.len());
}

#[test]
fn bytes_after_the_end() {
    let mut buf = test_file(4, [8, 13, 18], [b"NX11", b".0.2"]);
    buf.push(0);
    assert_eq!(parse_buffer_single(&buf).unwrap_err().code, ErrorCode::BytesRemaining);
}

#[test]
fn wrong_header_code() {
    let mut buf = test_file(4, [8, 13, 18], [b"NX11", b".0.2"]);
    // The first byte of the header code ("N") sits after the date record.
    let at = 4 + 4 + 4 + 4 + 12 + 4 + 4 + 4 + 4 + 4;
    assert_eq!(buf[at], b'N');
    buf[at] = b'X';
    assert_eq!(parse_buffer_single(&buf).unwrap_err().code, ErrorCode::UnexpectedValue);
}

#[test]
fn unknown_block_type() {
    let buf = test_file(4, [8, 13, 18], [b"NX11", b".0.2"]);
    let mut f = buf.clone();
    // the block kind is the value after the word count of its record
    let kind_at = find_kind(&buf);
    f[kind_at] = 9;
    assert_eq!(parse_buffer_single(&f).unwrap_err().code, ErrorCode::UnknownDataBlockType(9));
}

fn find_kind(buf: &[u8]) -> usize {
    // date, code, label, -1, 0, name, -1, trailer, -2 and the kind's word
    // count come first, each framed by its byte count
    let sizes = [4, 12, 4, 28, 4, 8, 4, 4, 4, 8, 4, 4, 28, 4, 4];
    let mut at = 0;
    for s in sizes.iter() {
        at += 4 + s + 4;
    }
    at + 4
}

#[test]
fn single_word_read() {
    let buf = test_file(8, [1, 1, 1], [b"ABCD", b"EFGH"]);
    let op2 = parse_buffer_double(&buf).unwrap();
    assert_eq!(op2.header.label, [DoubleWord(*b"ABCD", *b"    "), DoubleWord(*b"EFGH", *b"    ")]);
}
