//! Reader for OP2 result files: Fortran-style records of little-endian
//! words, read into the file header and the data blocks, whose records are
//! kept as byte ranges of the buffer.
use vstd::prelude::*;

use std::marker::PhantomData;

verus! {

/// Value of bytes read as an unsigned little-endian number.
pub open spec fn le_unsigned(b: Seq<u8>) -> nat
    decreases b.len(),
{
    if b.len() == 0 {
        0
    } else {
        b[0] as nat + 256 * le_unsigned(b.drop_first())
    }
}

/// Value of four or eight bytes read as a signed (two's complement)
/// little-endian number.
pub open spec fn le_signed(b: Seq<u8>) -> int {
    let u = le_unsigned(b) as int;
    if b.len() == 4 && u >= 0x8000_0000 {
        u - 0x1_0000_0000
    } else if b.len() == 8 && u >= 0x8000_0000_0000_0000 {
        u - 0x1_0000_0000_0000_0000
    } else {
        u
    }
}

/// `i32::from_le_bytes`: the signed little-endian value of four bytes.
#[verifier::external_body]
fn i32_from_le(b: [u8; 4]) -> (v: i32)
    ensures
        v as int == le_signed(b@),
{
    i32::from_le_bytes(b)
}

/// `i64::from_le_bytes`: the signed little-endian value of eight bytes.
#[verifier::external_body]
fn i64_from_le(b: [u8; 8]) -> (v: i64)
    ensures
        v as int == le_signed(b@),
{
    i64::from_le_bytes(b)
}

fn array4(b: &[u8]) -> (r: [u8; 4])
    requires
        b@.len() == 4,
    ensures
        r@ == b@,
{
    let r = [b[0], b[1], b[2], b[3]];
    assert(r@ =~= b@);
    r
}

fn array8(b: &[u8]) -> (r: [u8; 8])
    requires
        b@.len() == 8,
    ensures
        r@ == b@,
{
    let r = [b[0], b[1], b[2], b[3], b[4], b[5], b[6], b[7]];
    assert(r@ =~= b@);
    r
}

/// A word of the file: four bytes in single precision files, eight in
/// double precision ones.
pub trait Word: Sized + Copy {
    /// The number of bytes of a word.
    spec fn spec_size() -> nat;

    /// The bytes of the word.
    spec fn spec_bytes(&self) -> Seq<u8>;

    fn size() -> (n: usize)
        ensures
            n == Self::spec_size(),
            n == 4 || n == 8,
    ;

    /// The word of `b`.
    fn from_bytes(b: &[u8]) -> (w: Self)
        requires
            b@.len() == Self::spec_size(),
        ensures
            w.spec_bytes() == b@,
    ;

    /// The word of four text bytes, padded with spaces.
    fn from_text(t: [u8; 4]) -> (w: Self)
        ensures
            w.spec_bytes() == text_word(t@, Self::spec_size()),
    ;

    /// An integer of one word.
    fn read_int(b: &[u8]) -> (v: i64)
        requires
            b@.len() == Self::spec_size(),
        ensures
            v as int == le_signed(b@),
    ;

    fn same(&self, other: &Self) -> (r: bool)
        ensures
            r == (self.spec_bytes() == other.spec_bytes()),
    ;
}

/// Four text bytes padded with spaces to `size`.
pub open spec fn text_word(t: Seq<u8>, size: nat) -> Seq<u8> {
    t + Seq::new((size - 4) as nat, |_i: int| 0x20u8)
}

/// A word of a single precision file.
#[derive(Debug, PartialEq, Clone, Copy)]
pub struct SingleWord(pub [u8; 4]);

/// A word of a double precision file; the second half is unused.
#[derive(Debug, PartialEq, Clone, Copy)]
pub struct DoubleWord(pub [u8; 4], pub [u8; 4]);

impl Word for SingleWord {
    open spec fn spec_size() -> nat {
        4
    }

    open spec fn spec_bytes(&self) -> Seq<u8> {
        self.0@
    }

    fn size() -> (n: usize) {
        4
    }

    fn from_bytes(b: &[u8]) -> (w: Self) {
        SingleWord(array4(b))
    }

    fn from_text(t: [u8; 4]) -> (w: Self) {
        let w = SingleWord(t);
        assert(w.spec_bytes() =~= text_word(t@, 4));
        w
    }

    fn read_int(b: &[u8]) -> (v: i64) {
        i32_from_le(array4(b)) as i64
    }

    fn same(&self, other: &Self) -> (r: bool) {
        let r = self.0[0] == other.0[0] && self.0[1] == other.0[1] && self.0[2] == other.0[2]
            && self.0[3] == other.0[3];
        proof {
            if r {
                assert(self.0@ =~= other.0@);
            }
        }
        r
    }
}

impl Word for DoubleWord {
    open spec fn spec_size() -> nat {
        8
    }

    open spec fn spec_bytes(&self) -> Seq<u8> {
        self.0@ + self.1@
    }

    fn size() -> (n: usize) {
        8
    }

    fn from_bytes(b: &[u8]) -> (w: Self) {
        let w = DoubleWord([b[0], b[1], b[2], b[3]], [b[4], b[5], b[6], b[7]]);
        assert(w.spec_bytes() =~= b@);
        w
    }

    fn from_text(t: [u8; 4]) -> (w: Self) {
        let w = DoubleWord(t, [0x20u8; 4]);
        assert(w.spec_bytes() =~= text_word(t@, 8));
        w
    }

    fn read_int(b: &[u8]) -> (v: i64) {
        i64_from_le(array8(b))
    }

    fn same(&self, other: &Self) -> (r: bool) {
        let mut i: usize = 0;
        while i < 4
            invariant
                i <= 4,
                forall|j: int| 0 <= j < i ==> self.0@[j] == other.0@[j] && self.1@[j] == other.1@[j],
            decreases 4 - i,
        {
            if self.0[i] != other.0[i] || self.1[i] != other.1[i] {
                proof {
                    assert(self.spec_bytes()[i as int] != other.spec_bytes()[i as int]
                        || self.spec_bytes()[i + 4] != other.spec_bytes()[i + 4]);
                }
                return false;
            }
            i += 1;
        }
        assert(self.spec_bytes() =~= other.spec_bytes());
        true
    }
}

/// The precision of a file, by the word it uses.
pub trait Precision {
    type Word: Word;
}

/// Single precision: four byte words and integers.
#[derive(Debug, PartialEq, Clone, Copy)]
pub struct SinglePrecision;

/// Double precision: eight byte words and integers.
#[derive(Debug, PartialEq, Clone, Copy)]
pub struct DoublePrecision;

impl Precision for SinglePrecision {
    type Word = SingleWord;
}

impl Precision for DoublePrecision {
    type Word = DoubleWord;
}

/// Why reading a file failed.
#[derive(Debug, Clone, Copy, PartialEq, Eq)]
pub enum ErrorCode {
    BytesRemaining,
    UnexpectedEOF,
    UnalignedValue,
    UnexpectedEOR(i64),
    UnexpectedDataSize(i32, i32),
    UnexpectedDataLength(usize, usize),
    UnexpectedValue,
    NegativeRead(i32),
    StructTooLarge,
    ReadTooLarge,
    AlignmentError,
    StructNotWordSizeMultiple,
    UnknownDataBlockType(i64),
    ExpectedEOR(i64),
    ExpectedData,
}

/// The kind of a data block.
#[derive(Debug, Clone, Copy, PartialEq, Eq)]
pub enum DataBlockType {
    Table,
    Matrix,
    StringFactor,
    MatrixFactor,
}

/// Alignment of a range of the buffer: known, unknown, or known to be off.
/// Reading a value gives the same result whatever the alignment.
pub trait Alignment {

}

#[derive(Debug, PartialEq)]
pub struct Aligned;

#[derive(Debug, PartialEq)]
pub struct MaybeAligned;

#[derive(Debug, PartialEq)]
pub struct Unaligned;

impl Alignment for Aligned {

}

impl Alignment for MaybeAligned {

}

impl Alignment for Unaligned {

}

/// A value read from bytes.
pub trait Decode: Sized {
    spec fn spec_size() -> nat;

    spec fn spec_decode(b: Seq<u8>) -> Self;

    fn size() -> (n: usize)
        ensures
            n == Self::spec_size(),
            n > 0,
    ;

    fn decode(b: &[u8]) -> (v: Self)
        requires
            b@.len() == Self::spec_size(),
        ensures
            v == Self::spec_decode(b@),
    ;
}

impl Decode for u8 {
    open spec fn spec_size() -> nat {
        1
    }

    open spec fn spec_decode(b: Seq<u8>) -> u8 {
        b[0]
    }

    fn size() -> (n: usize) {
        1
    }

    fn decode(b: &[u8]) -> (v: u8) {
        b[0]
    }
}

impl Decode for SingleWord {
    open spec fn spec_size() -> nat {
        4
    }

    open spec fn spec_decode(b: Seq<u8>) -> SingleWord {
        SingleWord(choose|a: [u8; 4]| a@ == b)
    }

    fn size() -> (n: usize) {
        4
    }

    fn decode(b: &[u8]) -> (v: SingleWord) {
        let a = array4(b);
        proof {
            let c = choose|x: [u8; 4]| x@ == b@;
            assert(c@ == b@);
            assert(c@ =~= a@);
            assert(forall|i: int| 0 <= i < 4 ==> c@[i] == a@[i]);
            assert(c =~= a);
        }
        SingleWord(a)
    }
}

impl Decode for DoubleWord {
    open spec fn spec_size() -> nat {
        8
    }

    open spec fn spec_decode(b: Seq<u8>) -> DoubleWord {
        DoubleWord(
            choose|a: [u8; 4]| a@ == b.subrange(0, 4),
            choose|a: [u8; 4]| a@ == b.subrange(4, 8),
        )
    }

    fn size() -> (n: usize) {
        8
    }

    fn decode(b: &[u8]) -> (v: DoubleWord) {
        let a0 = [b[0], b[1], b[2], b[3]];
        let a1 = [b[4], b[5], b[6], b[7]];
        proof {
            assert(a0@ =~= b@.subrange(0, 4));
            assert(a1@ =~= b@.subrange(4, 8));
            let c0 = choose|x: [u8; 4]| x@ == b@.subrange(0, 4);
            let c1 = choose|x: [u8; 4]| x@ == b@.subrange(4, 8);
            assert(c0@ =~= a0@);
            assert(c1@ =~= a1@);
            assert(forall|i: int| 0 <= i < 4 ==> c0@[i] == a0@[i] && c1@[i] == a1@[i]);
            assert(c0 =~= a0);
            assert(c1 =~= a1);
        }
        DoubleWord(a0, a1)
    }
}

/// The position of one value in the buffer.
#[derive(Debug, PartialEq)]
pub struct Indexed<A, T> {
    pub start: usize,
    pub end: usize,
    pub alignment: PhantomData<A>,
    pub data: PhantomData<T>,
}

impl<A, T> Indexed<A, T> {
    pub fn new(start: usize, end: usize) -> (r: Self)
        ensures
            r.start == start,
            r.end == end,
    {
        Indexed { start, end, alignment: PhantomData, data: PhantomData }
    }
}

impl<A: Alignment, T: Decode> Indexed<A, T> {
    /// The value at this position of `file_buffer`.
    pub fn read_value(&self, file_buffer: &[u8]) -> (r: T)
        requires
            self.start <= self.end <= file_buffer@.len(),
            self.end - self.start == T::spec_size(),
        ensures
            r == T::spec_decode(file_buffer@.subrange(self.start as int, self.end as int)),
    {
        T::decode(vstd::slice::slice_subrange(file_buffer, self.start, self.end))
    }
}

/// The position of a run of values in the buffer.
#[derive(Debug, PartialEq)]
pub struct IndexedSlice<A, T> {
    pub start: usize,
    pub end: usize,
    pub alignment: PhantomData<A>,
    pub data: PhantomData<T>,
}

/// The values of a run of bytes, each of `size` bytes.
pub open spec fn decode_all<T: Decode>(b: Seq<u8>) -> Seq<T> {
    Seq::new(
        (b.len() / T::spec_size()) as nat,
        |i: int| T::spec_decode(b.subrange(i * T::spec_size(), (i + 1) * T::spec_size())),
    )
}

impl<A, T> IndexedSlice<A, T> {
    pub fn new(start: usize, end: usize) -> (r: Self)
        ensures
            r.start == start,
            r.end == end,
    {
        IndexedSlice { start, end, alignment: PhantomData, data: PhantomData }
    }
}

impl<A: Alignment, T: Decode> IndexedSlice<A, T> {
    /// The number of values.
    pub fn len(&self) -> (r: usize)
        requires
            self.start <= self.end,
        ensures
            r == (self.end - self.start) as int / (T::spec_size() as int),
    {
        (self.end - self.start) / T::size()
    }

    /// The values at this position of `file_buffer`.
    pub fn read_value(&self, file_buffer: &[u8]) -> (r: Vec<T>)
        requires
            self.start <= self.end <= file_buffer@.len(),
            (self.end - self.start) % (T::spec_size() as int) == 0,
        ensures
            r@ == decode_all::<T>(file_buffer@.subrange(self.start as int, self.end as int)),
    {
        let ghost b = file_buffer@.subrange(self.start as int, self.end as int);
        let size = T::size();
        let n = (self.end - self.start) / size;
        let mut out: Vec<T> = Vec::new();
        let mut i: usize = 0;
        proof {
            let x = (self.end - self.start) as int;
            vstd::arithmetic::div_mod::lemma_fundamental_div_mod(x, size as int);
            vstd::arithmetic::mul::lemma_mul_is_commutative(size as int, x / (size as int));
            assert(n * size == x);
        }
        while i < n
            invariant
                i <= n,
                n == b.len() as int / (size as int),
                n * size == b.len(),
                size == T::spec_size(),
                b == file_buffer@.subrange(self.start as int, self.end as int),
                self.end <= file_buffer@.len(),
                self.start <= self.end,
                out@.len() == i,
                forall|j: int| 0 <= j < i ==> #[trigger] out@[j] == T::spec_decode(
                    b.subrange(j * size, (j + 1) * size),
                ),
            decreases n - i,
        {
            proof {
                vstd::arithmetic::mul::lemma_mul_inequality((i + 1) as int, n as int, size as int);
                vstd::arithmetic::mul::lemma_mul_is_distributive_add_other_way(size as int, i as int, 1);
            }
            let s = self.start + i * size;
            let e = s + size;
            let sl = vstd::slice::slice_subrange(file_buffer, s, e);
            assert(sl@ =~= b.subrange(i * size, (i + 1) * size));
            out.push(T::decode(sl));
            i += 1;
        }
        assert(out@ =~= decode_all::<T>(b));
        out
    }
}


/// An encoded value: its range, no value (`Zero`), or an end of record.
pub enum Encoded {
    Data((nat, nat)),
    Zero,
    EOR(i64),
}

/// `n` bytes from `at`, or `UnexpectedEOF` where fewer are left.
pub open spec fn sp_take(b: Seq<u8>, at: nat, n: nat) -> (Result<(nat, nat), ErrorCode>, nat) {
    if b.len() - at < n {
        (Err(ErrorCode::UnexpectedEOF), at)
    } else {
        (Ok((at, at + n)), at + n)
    }
}

/// A four byte little-endian integer.
pub open spec fn sp_i32(b: Seq<u8>, at: nat) -> (Result<i32, ErrorCode>, nat) {
    match sp_take(b, at, 4) {
        (Ok((s, e)), p) => (Ok(le_signed(b.subrange(s as int, e as int)) as i32), p),
        (Err(x), p) => (Err(x), p),
    }
}

/// A four byte integer that must be `expected`.
pub open spec fn sp_i32_value(b: Seq<u8>, at: nat, expected: i32) -> (Result<(), ErrorCode>, nat) {
    match sp_i32(b, at) {
        (Err(x), p) => (Err(x), p),
        (Ok(v), p) => if v != expected {
            (Err(ErrorCode::UnexpectedDataSize(expected, v)), p)
        } else {
            (Ok(()), p)
        },
    }
}

/// A value of `size` bytes framed by its size before and after.
pub open spec fn sp_padded(b: Seq<u8>, at: nat, size: nat) -> (Result<(nat, nat), ErrorCode>, nat) {
    if size > i32::MAX {
        (Err(ErrorCode::ReadTooLarge), at)
    } else {
        match sp_i32_value(b, at, size as i32) {
            (Err(x), p) => (Err(x), p),
            (Ok(_), p) => match sp_take(b, p, size) {
                (Err(x), q) => (Err(x), q),
                (Ok(r), q) => match sp_i32_value(b, q, size as i32) {
                    (Err(x), t) => (Err(x), t),
                    (Ok(_), t) => (Ok(r), t),
                },
            },
        }
    }
}

/// A framed integer of one word of `w` bytes.
pub open spec fn sp_int(b: Seq<u8>, at: nat, w: nat) -> (Result<i64, ErrorCode>, nat) {
    match sp_padded(b, at, w) {
        (Err(x), p) => (Err(x), p),
        (Ok((s, e)), p) => (Ok(le_signed(b.subrange(s as int, e as int)) as i64), p),
    }
}

/// A framed integer that must be `expected`.
pub open spec fn sp_int_expected(b: Seq<u8>, at: nat, w: nat, expected: i64) -> (Result<(), ErrorCode>, nat) {
    match sp_int(b, at, w) {
        (Err(x), p) => (Err(x), p),
        (Ok(v), p) => if v != expected {
            (Err(ErrorCode::UnexpectedValue), p)
        } else {
            (Ok(()), p)
        },
    }
}

/// A word count and then, where it is positive, a framed value of `size`
/// bytes; a negative count is an end of record.
pub open spec fn sp_encoded_data(b: Seq<u8>, at: nat, w: nat, size: nat) -> (Result<Encoded, ErrorCode>, nat) {
    match sp_int(b, at, w) {
        (Err(x), p) => (Err(x), p),
        (Ok(n), p) => if n < 0 {
            (Ok(Encoded::EOR(n)), p)
        } else if n == 0 {
            (Ok(Encoded::Zero), p)
        } else {
            match sp_padded(b, p, size) {
                (Err(x), q) => (Err(x), q),
                (Ok(r), q) => (Ok(Encoded::Data(r)), q),
            }
        },
    }
}

/// An encoded value that must be there.
pub open spec fn sp_encoded(b: Seq<u8>, at: nat, w: nat, size: nat) -> (Result<(nat, nat), ErrorCode>, nat) {
    match sp_encoded_data(b, at, w, size) {
        (Err(x), p) => (Err(x), p),
        (Ok(Encoded::Data(r)), p) => (Ok(r), p),
        (Ok(Encoded::Zero), p) => (Err(ErrorCode::UnexpectedEOR(0)), p),
        (Ok(Encoded::EOR(n)), p) => (Err(ErrorCode::UnexpectedEOR(n)), p),
    }
}

/// A framed run of values of `size` bytes: its byte count, the bytes, and the
/// byte count again.
pub open spec fn sp_padded_slice(b: Seq<u8>, at: nat, size: nat) -> (Result<(nat, nat), ErrorCode>, nat) {
    match sp_i32(b, at) {
        (Err(x), p) => (Err(x), p),
        (Ok(n), p) => if n < 1 {
            (Err(ErrorCode::NegativeRead(n)), p)
        } else if (n as nat) % size != 0 {
            (Err(ErrorCode::AlignmentError), p)
        } else {
            match sp_take(b, p, n as nat) {
                (Err(x), q) => (Err(x), q),
                (Ok(r), q) => match sp_i32(b, q) {
                    (Err(x), t) => (Err(x), t),
                    (Ok(m), t) => if m != n {
                        (Err(ErrorCode::UnexpectedValue), t)
                    } else {
                        (Ok(r), t)
                    },
                },
            }
        },
    }
}

/// A word count and then, where it is positive, a framed run of values of
/// `size` bytes that must hold that many words. The byte count is taken
/// modulo the range of `usize`.
pub open spec fn sp_encoded_slice_data(b: Seq<u8>, at: nat, w: nat, size: nat) -> (Result<Encoded, ErrorCode>, nat) {
    match sp_int(b, at, w) {
        (Err(x), p) => (Err(x), p),
        (Ok(n), p) => if n < 0 {
            (Ok(Encoded::EOR(n)), p)
        } else if n == 0 {
            (Ok(Encoded::Zero), p)
        } else {
            let nbytes = ((n as usize) * w) as usize;
            if (nbytes as nat) % size != 0 {
                (Err(ErrorCode::AlignmentError), p)
            } else {
                let nvalues = ((nbytes as nat) / size) as usize;
                match sp_padded_slice(b, p, size) {
                    (Err(x), q) => (Err(x), q),
                    (Ok((s, e)), q) => {
                        let len = (((e - s) as nat) / size) as usize;
                        if len != nvalues {
                            (Err(ErrorCode::UnexpectedDataLength(nvalues, len)), q)
                        } else {
                            (Ok(Encoded::Data((s, e))), q)
                        }
                    },
                }
            }
        },
    }
}

/// An encoded run of values that must be there.
pub open spec fn sp_encoded_slice(b: Seq<u8>, at: nat, w: nat, size: nat) -> (Result<(nat, nat), ErrorCode>, nat) {
    match sp_encoded_slice_data(b, at, w, size) {
        (Err(x), p) => (Err(x), p),
        (Ok(Encoded::Data(r)), p) => (Ok(r), p),
        (Ok(Encoded::Zero), p) => (Err(ErrorCode::UnexpectedEOR(0)), p),
        (Ok(Encoded::EOR(n)), p) => (Err(ErrorCode::UnexpectedEOR(n)), p),
    }
}

/// The integer of word `i` of the range starting at `s`.
pub open spec fn int_at(b: Seq<u8>, s: nat, w: nat, i: nat) -> i64 {
    le_signed(b.subrange((s + i * w) as int, (s + (i + 1) * w) as int)) as i64
}

/// The code that a file starts with: `NASTRAN FORT TAPE ID CODE - ` in seven
/// words.
pub open spec fn header_code(w: nat) -> Seq<u8> {
    text_word(seq![0x4eu8, 0x41u8, 0x53u8, 0x54u8], w) + text_word(
        seq![0x52u8, 0x41u8, 0x4eu8, 0x20u8],
        w,
    ) + text_word(seq![0x46u8, 0x4fu8, 0x52u8, 0x54u8], w) + text_word(
        seq![0x20u8, 0x54u8, 0x41u8, 0x50u8],
        w,
    ) + text_word(seq![0x45u8, 0x20u8, 0x49u8, 0x44u8], w) + text_word(
        seq![0x20u8, 0x43u8, 0x4fu8, 0x44u8],
        w,
    ) + text_word(seq![0x45u8, 0x20u8, 0x2du8, 0x20u8], w)
}

/// The file header: date (month, day, year) and the bytes of the label.
pub struct HeaderView {
    pub date: (i64, i64, i64),
    pub label: Seq<u8>,
}

/// The file header: the date, the header code, the label, and the keys -1
/// and 0.
pub open spec fn sp_header(b: Seq<u8>, w: nat) -> (Result<HeaderView, ErrorCode>, nat) {
    match sp_encoded(b, 0, w, 3 * w) {
        (Err(x), p) => (Err(x), p),
        (Ok((ds, _de)), p) => match sp_encoded(b, p, w, 7 * w) {
            (Err(x), q) => (Err(x), q),
            (Ok((cs, ce)), q) => if b.subrange(cs as int, ce as int) != header_code(w) {
                (Err(ErrorCode::UnexpectedValue), q)
            } else {
                match sp_encoded(b, q, w, 2 * w) {
                    (Err(x), t) => (Err(x), t),
                    (Ok((ls, le)), t) => match sp_int_expected(b, t, w, -1i64) {
                        (Err(x), u) => (Err(x), u),
                        (Ok(_), u) => match sp_int_expected(b, u, w, 0i64) {
                            (Err(x), v) => (Err(x), v),
                            (Ok(_), v) => (
                                Ok(
                                    HeaderView {
                                        date: (int_at(b, ds, w, 0), int_at(b, ds, w, 1), int_at(b, ds, w, 2)),
                                        label: b.subrange(ls as int, le as int),
                                    },
                                ),
                                v,
                            ),
                        },
                    },
                }
            },
        },
    }
}

/// An encoded integer that must be `expected`.
pub open spec fn sp_encoded_int_expected(b: Seq<u8>, at: nat, w: nat, expected: i64) -> (Result<(), ErrorCode>, nat) {
    match sp_encoded(b, at, w, w) {
        (Err(x), p) => (Err(x), p),
        (Ok((s, _e)), p) => if int_at(b, s, w, 0) != expected {
            (Err(ErrorCode::UnexpectedValue), p)
        } else {
            (Ok(()), p)
        },
    }
}

/// A table record: the encoded key 0, then the record's bytes and an end of
/// record (`Some`), or nothing (`None`) where the data block ends.
pub open spec fn sp_table_record(b: Seq<u8>, at: nat, w: nat) -> (Result<Option<(nat, nat)>, ErrorCode>, nat) {
    match sp_encoded_int_expected(b, at, w, 0i64) {
        (Err(x), p) => (Err(x), p),
        (Ok(_), p) => match sp_encoded_slice_data(b, p, w, 1) {
            (Err(x), q) => (Err(x), q),
            (Ok(Encoded::Data(r)), q) => match sp_int(b, q, w) {
                (Err(x), t) => (Err(x), t),
                (Ok(n), t) => if n >= 0 {
                    (Err(ErrorCode::ExpectedEOR(n)), t)
                } else {
                    (Ok(Some(r)), t)
                },
            },
            (Ok(Encoded::Zero), q) => (Ok(None), q),
            (Ok(Encoded::EOR(n)), q) => (Err(ErrorCode::UnexpectedEOR(n)), q),
        },
    }
}


/// The name, trailer and kind of a data block.
pub struct StartView {
    pub name: Seq<u8>,
    pub trailer: Seq<i64>,
    pub record_type: DataBlockType,
}

/// The kind of a data block by its code.
pub open spec fn sp_block_type(n: i64) -> Result<DataBlockType, ErrorCode> {
    if n == 0 {
        Ok(DataBlockType::Table)
    } else if n == 1 {
        Ok(DataBlockType::Matrix)
    } else if n == 2 {
        Ok(DataBlockType::StringFactor)
    } else if n == 3 {
        Ok(DataBlockType::MatrixFactor)
    } else {
        Err(ErrorCode::UnknownDataBlockType(n))
    }
}

/// The kind code of a data block: 0 is a table, 1 a matrix, 2 a string
/// factor, 3 a matrix factor; any other code is refused as unknown, naming
/// the code.
pub proof fn law_block_type_codes(n: i64)
    ensures
        sp_block_type(n) == Ok::<DataBlockType, ErrorCode>(DataBlockType::Table) <==> n == 0,
        sp_block_type(n) == Ok::<DataBlockType, ErrorCode>(DataBlockType::Matrix) <==> n == 1,
        sp_block_type(n) == Ok::<DataBlockType, ErrorCode>(DataBlockType::StringFactor) <==> n == 2,
        sp_block_type(n) == Ok::<DataBlockType, ErrorCode>(DataBlockType::MatrixFactor) <==> n == 3,
        sp_block_type(n) is Err <==> (n < 0 || n > 3),
        sp_block_type(n) is Err ==> sp_block_type(n) == Err::<DataBlockType, ErrorCode>(
            ErrorCode::UnknownDataBlockType(n),
        ),
{
}

/// The start of a data block: its name (two words), the key -1, the trailer
/// (seven integers), the key -2, and its kind. `None` where no name is left.
pub open spec fn sp_block_start(b: Seq<u8>, at: nat, w: nat) -> (Result<Option<StartView>, ErrorCode>, nat) {
    match sp_encoded_data(b, at, w, 2 * w) {
        (Err(x), p) => (Err(x), p),
        (Ok(Encoded::EOR(n)), p) => (Err(ErrorCode::UnexpectedEOR(n)), p),
        (Ok(Encoded::Zero), p) => (Ok(None), p),
        (Ok(Encoded::Data((ns, ne))), p) => match sp_int_expected(b, p, w, -1i64) {
            (Err(x), q) => (Err(x), q),
            (Ok(_), q) => match sp_encoded(b, q, w, 7 * w) {
                (Err(x), t) => (Err(x), t),
                (Ok((ts, _te)), t) => match sp_int_expected(b, t, w, -2i64) {
                    (Err(x), u) => (Err(x), u),
                    (Ok(_), u) => match sp_encoded(b, u, w, w) {
                        (Err(x), v) => (Err(x), v),
                        (Ok((ks, _ke)), v) => match sp_block_type(int_at(b, ks, w, 0)) {
                            Err(x) => (Err(x), v),
                            Ok(rt) => (
                                Ok(
                                    Some(
                                        StartView {
                                            name: b.subrange(ns as int, ne as int),
                                            trailer: Seq::new(7, |i: int| int_at(b, ts, w, i as nat)),
                                            record_type: rt,
                                        },
                                    ),
                                ),
                                v,
                            ),
                        },
                    },
                },
            },
        },
    }
}

/// Each step that reads something moves forward, and none moves past the
/// end.
pub open spec fn moved(at: nat, p: nat, len: nat) -> bool {
    at <= p && (at <= len ==> p <= len)
}

pub proof fn lemma_padded(b: Seq<u8>, at: nat, size: nat)
    ensures
        moved(at, sp_i32(b, at).1, b.len()),
        sp_i32(b, at).0 is Ok ==> sp_i32(b, at).1 > at,
        moved(at, sp_padded(b, at, size).1, b.len()),
        sp_padded(b, at, size).0 is Ok ==> sp_padded(b, at, size).1 > at,
{
    let p = sp_i32_value(b, at, size as i32).1;
    let q = sp_take(b, p, size).1;
}

pub proof fn lemma_int(b: Seq<u8>, at: nat, w: nat)
    ensures
        moved(at, sp_int(b, at, w).1, b.len()),
        sp_int(b, at, w).0 is Ok ==> sp_int(b, at, w).1 > at,
        moved(at, sp_int_expected(b, at, w, 0).1, b.len()),
        sp_int_expected(b, at, w, 0).0 is Ok ==> sp_int_expected(b, at, w, 0).1 > at,
{
    lemma_padded(b, at, w);
}

pub proof fn lemma_int_expected(b: Seq<u8>, at: nat, w: nat, v: i64)
    ensures
        moved(at, sp_int_expected(b, at, w, v).1, b.len()),
{
    lemma_padded(b, at, w);
}

pub proof fn lemma_encoded(b: Seq<u8>, at: nat, w: nat, size: nat)
    ensures
        moved(at, sp_encoded_data(b, at, w, size).1, b.len()),
        moved(at, sp_encoded(b, at, w, size).1, b.len()),
{
    lemma_int(b, at, w);
    let p = sp_int(b, at, w).1;
    lemma_padded(b, p, size);
}

pub proof fn lemma_encoded_slice(b: Seq<u8>, at: nat, w: nat, size: nat)
    ensures
        moved(at, sp_encoded_slice_data(b, at, w, size).1, b.len()),
        moved(at, sp_encoded_slice(b, at, w, size).1, b.len()),
{
    lemma_int(b, at, w);
    let p = sp_int(b, at, w).1;
    lemma_padded(b, p, 4);
    let q = sp_i32(b, p).1;
    if let (Ok(n), _) = sp_i32(b, p) {
        let t = sp_take(b, q, n as nat).1;
        lemma_padded(b, t, 4);
    }
}

pub proof fn lemma_table_record(b: Seq<u8>, at: nat, w: nat)
    ensures
        moved(at, sp_table_record(b, at, w).1, b.len()),
        sp_table_record(b, at, w).0 matches Ok(Some(_)) ==> sp_table_record(b, at, w).1 > at,
{
    lemma_encoded(b, at, w, w);
    let p = sp_encoded_int_expected(b, at, w, 0).1;
    lemma_encoded_slice(b, p, w, 1);
    let q = sp_encoded_slice_data(b, p, w, 1).1;
    lemma_int(b, q, w);
}

/// The records of a table: table records until one says the block ends.
pub open spec fn sp_records(b: Seq<u8>, at: nat, w: nat, acc: Seq<(nat, nat)>) -> (Result<Seq<(nat, nat)>, ErrorCode>, nat)
    decreases b.len() - at,
    when at <= b.len()
{
    proof {
        lemma_table_record(b, at, w);
    }
    match sp_table_record(b, at, w) {
        (Err(x), p) => (Err(x), p),
        (Ok(None), p) => (Ok(acc), p),
        (Ok(Some(r)), p) => sp_records(b, p, w, acc.push(r)),
    }
}

pub proof fn lemma_records(b: Seq<u8>, at: nat, w: nat, acc: Seq<(nat, nat)>)
    requires
        at <= b.len(),
    ensures
        moved(at, sp_records(b, at, w, acc).1, b.len()),
    decreases b.len() - at,
{
    lemma_table_record(b, at, w);
    if let (Ok(Some(r)), p) = sp_table_record(b, at, w) {
        lemma_records(b, p, w, acc.push(r));
    }
}

/// A data block: its start, the header (words), the key -3, and its records.
pub struct BlockView {
    pub start: StartView,
    pub header: (nat, nat),
    pub records: Seq<(nat, nat)>,
}

pub open spec fn sp_block(b: Seq<u8>, at: nat, w: nat) -> (Result<Option<BlockView>, ErrorCode>, nat) {
    match sp_block_start(b, at, w) {
        (Err(x), p) => (Err(x), p),
        (Ok(None), p) => (Ok(None), p),
        (Ok(Some(st)), p) => match sp_encoded_slice(b, p, w, w) {
            (Err(x), q) => (Err(x), q),
            (Ok(h), q) => match sp_int_expected(b, q, w, -3i64) {
                (Err(x), t) => (Err(x), t),
                (Ok(_), t) => if t <= b.len() {
                    match sp_records(b, t, w, Seq::empty()) {
                        (Err(x), u) => (Err(x), u),
                        (Ok(rs), u) => (Ok(Some(BlockView { start: st, header: h, records: rs })), u),
                    }
                } else {
                    (Err(ErrorCode::UnexpectedEOF), t)
                },
            },
        },
    }
}

pub proof fn lemma_block(b: Seq<u8>, at: nat, w: nat)
    requires
        at <= b.len(),
    ensures
        moved(at, sp_block(b, at, w).1, b.len()),
        sp_block(b, at, w).0 matches Ok(Some(_)) ==> sp_block(b, at, w).1 > at,
{
    lemma_encoded(b, at, w, 2 * w);
    let p1 = sp_encoded_data(b, at, w, 2 * w).1;
    lemma_int_expected(b, p1, w, -1i64);
    let p2 = sp_int_expected(b, p1, w, -1i64).1;
    lemma_encoded(b, p2, w, 7 * w);
    let p3 = sp_encoded(b, p2, w, 7 * w).1;
    lemma_int_expected(b, p3, w, -2i64);
    let p4 = sp_int_expected(b, p3, w, -2i64).1;
    lemma_encoded(b, p4, w, w);
    let p5 = sp_block_start(b, at, w).1;
    lemma_int(b, at, w);
    let p6 = sp_int(b, at, w).1;
    lemma_padded(b, p6, 2 * w);
    lemma_encoded_slice(b, p5, w, w);
    let p7 = sp_encoded_slice(b, p5, w, w).1;
    lemma_int_expected(b, p7, w, -3i64);
    let p8 = sp_int_expected(b, p7, w, -3i64).1;
    if p8 <= b.len() {
        lemma_records(b, p8, w, Seq::empty());
    }
}

/// The data blocks: blocks until no name is left.
pub open spec fn sp_blocks(b: Seq<u8>, at: nat, w: nat, acc: Seq<BlockView>) -> (Result<Seq<BlockView>, ErrorCode>, nat)
    decreases b.len() - at,
    when at <= b.len()
{
    proof {
        lemma_block(b, at, w);
    }
    match sp_block(b, at, w) {
        (Err(x), p) => (Err(x), p),
        (Ok(None), p) => (Ok(acc), p),
        (Ok(Some(blk)), p) => sp_blocks(b, p, w, acc.push(blk)),
    }
}

/// A file: its header and data blocks.
pub struct MetaView {
    pub header: HeaderView,
    pub blocks: Seq<BlockView>,
}

/// Reading a whole file: the header, the data blocks, and nothing after
/// them.
pub open spec fn sp_inner_parse(b: Seq<u8>, w: nat) -> (Result<MetaView, ErrorCode>, nat) {
    match sp_header(b, w) {
        (Err(x), p) => (Err(x), p),
        (Ok(h), p) => if p <= b.len() {
            match sp_blocks(b, p, w, Seq::empty()) {
                (Err(x), q) => (Err(x), q),
                (Ok(bs), q) => if b.len() - q == 0 {
                    (Ok(MetaView { header: h, blocks: bs }), q)
                } else {
                    (Err(ErrorCode::BytesRemaining), q)
                },
            }
        } else {
            (Err(ErrorCode::UnexpectedEOF), p)
        },
    }
}

/// Reading a whole file with words of `w` bytes: the file, or the error and
/// the position it was found at.
pub open spec fn sp_parse(b: Seq<u8>, w: nat) -> Result<MetaView, (ErrorCode, nat)> {
    match sp_inner_parse(b, w) {
        (Ok(m), _) => Ok(m),
        (Err(x), p) => Err((x, p)),
    }
}


/// A file that reads without error has no byte left after its last data
/// block.
pub proof fn law_parse_reads_everything(b: Seq<u8>, w: nat)
    ensures
        sp_inner_parse(b, w) matches (Ok(_), p) ==> p == b.len(),
{
}

/// A date: month, day and year.
#[derive(Debug, Clone, Copy, PartialEq, Eq)]
pub struct Date {
    pub month: i64,
    pub day: i64,
    pub year: i64,
}

/// The header of a file: its date and label.
#[derive(Debug, PartialEq)]
pub struct FileHeader<W> {
    pub date: Date,
    pub label: [W; 2],
}

/// The start of a data block: its name, trailer and kind.
#[derive(Debug, PartialEq)]
pub struct DataBlockStart<W> {
    pub name: [W; 2],
    pub trailer: [i64; 7],
    pub record_type: DataBlockType,
}

/// A data block: its name, trailer and kind, where its header words are, and
/// where each of its records is.
#[derive(Debug, PartialEq)]
pub struct DataBlock<W> {
    pub name: [W; 2],
    pub trailer: [i64; 7],
    pub record_type: DataBlockType,
    pub header: IndexedSlice<MaybeAligned, W>,
    pub records: Vec<IndexedSlice<Aligned, u8>>,
}

/// The header and data blocks of a file.
#[derive(Debug, PartialEq)]
pub struct OP2MetaData<W> {
    pub header: FileHeader<W>,
    pub blocks: Vec<DataBlock<W>>,
}

/// A failed read: why, and the rest of the buffer from where it failed.
#[derive(Debug, PartialEq)]
pub struct Error {
    pub code: ErrorCode,
    pub remaining: Option<Indexed<MaybeAligned, u8>>,
}

pub open spec fn words_bytes<W: Word>(a: [W; 2]) -> Seq<u8> {
    a[0].spec_bytes() + a[1].spec_bytes()
}

pub open spec fn header_view<W: Word>(h: FileHeader<W>) -> HeaderView {
    HeaderView { date: (h.date.month, h.date.day, h.date.year), label: words_bytes(h.label) }
}

pub open spec fn start_view<W: Word>(s: DataBlockStart<W>) -> StartView {
    StartView { name: words_bytes(s.name), trailer: s.trailer@, record_type: s.record_type }
}

pub open spec fn block_view<W: Word>(d: DataBlock<W>) -> BlockView {
    BlockView {
        start: StartView { name: words_bytes(d.name), trailer: d.trailer@, record_type: d.record_type },
        header: (d.header.start as nat, d.header.end as nat),
        records: d.records@.map_values(|r: IndexedSlice<Aligned, u8>| (r.start as nat, r.end as nat)),
    }
}

pub open spec fn meta_view<W: Word>(m: OP2MetaData<W>) -> MetaView {
    MetaView { header: header_view(m.header), blocks: m.blocks@.map_values(|d: DataBlock<W>| block_view(d)) }
}

pub open spec fn rng(r: Result<(usize, usize), ErrorCode>) -> Result<(nat, nat), ErrorCode> {
    match r {
        Ok((s, e)) => Ok((s as nat, e as nat)),
        Err(x) => Err(x),
    }
}

/// An encoded value as read, see [`Encoded`].
pub enum EncodedData {
    Data(usize, usize),
    Zero,
    EOR(i64),
}

pub open spec fn enc(r: Result<EncodedData, ErrorCode>) -> Result<Encoded, ErrorCode> {
    match r {
        Ok(EncodedData::Data(s, e)) => Ok(Encoded::Data((s as nat, e as nat))),
        Ok(EncodedData::Zero) => Ok(Encoded::Zero),
        Ok(EncodedData::EOR(n)) => Ok(Encoded::EOR(n)),
        Err(x) => Err(x),
    }
}

/// A push of four text bytes and spaces up to `w`, see [`text_word`].
fn push_text(v: &mut Vec<u8>, t: [u8; 4], w: usize)
    requires
        w >= 4,
    ensures
        final(v)@ == old(v)@ + text_word(t@, w as nat),
{
    let mut i: usize = 0;
    while i < 4
        invariant
            i <= 4,
            v@ == old(v)@ + t@.take(i as int),
        decreases 4 - i,
    {
        v.push(t[i]);
        i += 1;
        assert(v@ =~= old(v)@ + t@.take(i as int));
    }
    let mut k: usize = 4;
    while k < w
        invariant
            4 <= k <= w,
            v@ == old(v)@ + t@ + Seq::new((k - 4) as nat, |_i: int| 0x20u8),
        decreases w - k,
    {
        v.push(0x20u8);
        k += 1;
        assert(v@ =~= old(v)@ + t@ + Seq::new((k - 4) as nat, |_i: int| 0x20u8));
    }
    assert(v@ =~= old(v)@ + text_word(t@, w as nat));
}

/// The bytes of [`header_code`].
fn header_code_bytes(w: usize) -> (r: Vec<u8>)
    requires
        w >= 4,
    ensures
        r@ == header_code(w as nat),
{
    let mut v: Vec<u8> = Vec::new();
    push_text(&mut v, [0x4eu8, 0x41u8, 0x53u8, 0x54u8], w);
    push_text(&mut v, [0x52u8, 0x41u8, 0x4eu8, 0x20u8], w);
    push_text(&mut v, [0x46u8, 0x4fu8, 0x52u8, 0x54u8], w);
    push_text(&mut v, [0x20u8, 0x54u8, 0x41u8, 0x50u8], w);
    push_text(&mut v, [0x45u8, 0x20u8, 0x49u8, 0x44u8], w);
    push_text(&mut v, [0x20u8, 0x43u8, 0x4fu8, 0x44u8], w);
    push_text(&mut v, [0x45u8, 0x20u8, 0x2du8, 0x20u8], w);
    proof {
        let e = Seq::<u8>::empty();
        assert([0x4eu8, 0x41u8, 0x53u8, 0x54u8]@ =~= seq![0x4eu8, 0x41u8, 0x53u8, 0x54u8]);
        assert([0x52u8, 0x41u8, 0x4eu8, 0x20u8]@ =~= seq![0x52u8, 0x41u8, 0x4eu8, 0x20u8]);
        assert([0x46u8, 0x4fu8, 0x52u8, 0x54u8]@ =~= seq![0x46u8, 0x4fu8, 0x52u8, 0x54u8]);
        assert([0x20u8, 0x54u8, 0x41u8, 0x50u8]@ =~= seq![0x20u8, 0x54u8, 0x41u8, 0x50u8]);
        assert([0x45u8, 0x20u8, 0x49u8, 0x44u8]@ =~= seq![0x45u8, 0x20u8, 0x49u8, 0x44u8]);
        assert([0x20u8, 0x43u8, 0x4fu8, 0x44u8]@ =~= seq![0x20u8, 0x43u8, 0x4fu8, 0x44u8]);
        assert([0x45u8, 0x20u8, 0x2du8, 0x20u8]@ =~= seq![0x45u8, 0x20u8, 0x2du8, 0x20u8]);
        assert(v@ =~= header_code(w as nat));
    }
    v
}

/// Whether `b[s..e]` holds the bytes of `v`.
fn same_bytes(b: &[u8], s: usize, e: usize, v: &Vec<u8>) -> (r: bool)
    requires
        s <= e <= b@.len(),
    ensures
        r == (b@.subrange(s as int, e as int) == v@),
{
    if e - s != v.len() {
        return false;
    }
    let mut i: usize = 0;
    while i < v.len()
        invariant
            s <= e <= b@.len(),
            e - s == v@.len(),
            i <= v@.len(),
            forall|j: int| 0 <= j < i ==> b@[s + j] == v@[j],
        decreases v@.len() - i,
    {
        if b[s + i] != v[i] {
            assert(b@.subrange(s as int, e as int)[i as int] != v@[i as int]);
            return false;
        }
        i += 1;
    }
    assert(b@.subrange(s as int, e as int) =~= v@);
    true
}

/// A reader over a file's bytes.
pub struct OP2Parser<'a> {
    pub index: usize,
    pub buffer: &'a [u8],
}

impl<'a> OP2Parser<'a> {
    pub open spec fn wf(&self) -> bool {
        self.index <= self.buffer@.len()
    }

    /// The number of bytes left.
    pub fn rem(&self) -> (r: usize)
        requires
            self.wf(),
        ensures
            r == self.buffer@.len() - self.index,
    {
        self.buffer.len() - self.index
    }

    /// See [`sp_take`].
    pub fn take(&mut self, n: usize) -> (r: Result<(usize, usize), ErrorCode>)
        requires
            old(self).wf(),
        ensures
            final(self).wf(),
            final(self).buffer == old(self).buffer,
            (rng(r), final(self).index as nat) == sp_take(old(self).buffer@, old(self).index as nat, n as nat),
            r matches Ok((s, e)) ==> s <= e <= final(self).buffer@.len(),
    {
        let len = self.buffer.len();
        if len - self.index < n {
            return Err(ErrorCode::UnexpectedEOF);
        }
        let s = self.index;
        self.index = self.index + n;
        Ok((s, self.index))
    }

    /// See [`sp_i32`].
    pub fn read_i32(&mut self) -> (r: Result<i32, ErrorCode>)
        requires
            old(self).wf(),
        ensures
            final(self).wf(),
            final(self).buffer == old(self).buffer,
            (r, final(self).index as nat) == sp_i32(old(self).buffer@, old(self).index as nat),
    {
        let (s, e) = match self.take(4) {
            Ok(x) => x,
            Err(x) => return Err(x),
        };
        let sl = vstd::slice::slice_subrange(self.buffer, s, e);
        Ok(i32_from_le(array4(sl)))
    }

    /// See [`sp_i32_value`].
    pub fn read_i32_value(&mut self, expected: i32) -> (r: Result<(), ErrorCode>)
        requires
            old(self).wf(),
        ensures
            final(self).wf(),
            final(self).buffer == old(self).buffer,
            (r, final(self).index as nat) == sp_i32_value(old(self).buffer@, old(self).index as nat, expected),
    {
        let found = match self.read_i32() {
            Ok(v) => v,
            Err(x) => return Err(x),
        };
        if found != expected {
            return Err(ErrorCode::UnexpectedDataSize(expected, found));
        }
        Ok(())
    }

    /// See [`sp_padded`].
    pub fn read_padded(&mut self, size: usize) -> (r: Result<(usize, usize), ErrorCode>)
        requires
            old(self).wf(),
        ensures
            final(self).wf(),
            final(self).buffer == old(self).buffer,
            (rng(r), final(self).index as nat) == sp_padded(old(self).buffer@, old(self).index as nat, size as nat),
            r matches Ok((s, e)) ==> s <= e <= final(self).buffer@.len() && e - s == size,
    {
        if size > 0x7fff_ffffusize {
            return Err(ErrorCode::ReadTooLarge);
        }
        let expected = size as i32;
        match self.read_i32_value(expected) {
            Ok(()) => {},
            Err(x) => return Err(x),
        }
        let r = match self.take(size) {
            Ok(r) => r,
            Err(x) => return Err(x),
        };
        match self.read_i32_value(expected) {
            Ok(()) => {},
            Err(x) => return Err(x),
        }
        Ok(r)
    }

    /// See [`sp_int`].
    pub fn read_int<W: Word>(&mut self) -> (r: Result<i64, ErrorCode>)
        requires
            old(self).wf(),
        ensures
            final(self).wf(),
            final(self).buffer == old(self).buffer,
            (r, final(self).index as nat) == sp_int(old(self).buffer@, old(self).index as nat, W::spec_size()),
    {
        let w = W::size();
        let (s, e) = match self.read_padded(w) {
            Ok(x) => x,
            Err(x) => return Err(x),
        };
        Ok(W::read_int(vstd::slice::slice_subrange(self.buffer, s, e)))
    }

    /// See [`sp_int_expected`].
    pub fn read_int_expected<W: Word>(&mut self, expected: i64) -> (r: Result<(), ErrorCode>)
        requires
            old(self).wf(),
        ensures
            final(self).wf(),
            final(self).buffer == old(self).buffer,
            (r, final(self).index as nat) == sp_int_expected(old(self).buffer@, old(self).index as nat, W::spec_size(), expected),
    {
        let v = match self.read_int::<W>() {
            Ok(v) => v,
            Err(x) => return Err(x),
        };
        if v != expected {
            return Err(ErrorCode::UnexpectedValue);
        }
        Ok(())
    }

    /// See [`sp_encoded_data`].
    pub fn read_encoded_data<W: Word>(&mut self, size: usize) -> (r: Result<EncodedData, ErrorCode>)
        requires
            old(self).wf(),
        ensures
            final(self).wf(),
            final(self).buffer == old(self).buffer,
            (enc(r), final(self).index as nat) == sp_encoded_data(old(self).buffer@, old(self).index as nat, W::spec_size(), size as nat),
            r matches Ok(EncodedData::Data(s, e)) ==> s <= e <= final(self).buffer@.len() && e - s == size,
    {
        let n = match self.read_int::<W>() {
            Ok(v) => v,
            Err(x) => return Err(x),
        };
        if n < 0 {
            Ok(EncodedData::EOR(n))
        } else if n == 0 {
            Ok(EncodedData::Zero)
        } else {
            match self.read_padded(size) {
                Ok((s, e)) => Ok(EncodedData::Data(s, e)),
                Err(x) => Err(x),
            }
        }
    }

    /// See [`sp_encoded`].
    pub fn read_encoded<W: Word>(&mut self, size: usize) -> (r: Result<(usize, usize), ErrorCode>)
        requires
            old(self).wf(),
        ensures
            final(self).wf(),
            final(self).buffer == old(self).buffer,
            (rng(r), final(self).index as nat) == sp_encoded(old(self).buffer@, old(self).index as nat, W::spec_size(), size as nat),
            r matches Ok((s, e)) ==> s <= e <= final(self).buffer@.len() && e - s == size,
    {
        match self.read_encoded_data::<W>(size) {
            Ok(EncodedData::Data(s, e)) => Ok((s, e)),
            Ok(EncodedData::Zero) => Err(ErrorCode::UnexpectedEOR(0)),
            Ok(EncodedData::EOR(n)) => Err(ErrorCode::UnexpectedEOR(n)),
            Err(x) => Err(x),
        }
    }

    /// See [`sp_padded_slice`].
    pub fn read_padded_slice(&mut self, size: usize) -> (r: Result<(usize, usize), ErrorCode>)
        requires
            old(self).wf(),
            size > 0,
        ensures
            final(self).wf(),
            final(self).buffer == old(self).buffer,
            (rng(r), final(self).index as nat) == sp_padded_slice(old(self).buffer@, old(self).index as nat, size as nat),
            r matches Ok((s, e)) ==> s <= e <= final(self).buffer@.len(),
    {
        let n = match self.read_i32() {
            Ok(v) => v,
            Err(x) => return Err(x),
        };
        if n < 1 {
            return Err(ErrorCode::NegativeRead(n));
        }
        if (n as usize) % size != 0 {
            return Err(ErrorCode::AlignmentError);
        }
        let r = match self.take(n as usize) {
            Ok(r) => r,
            Err(x) => return Err(x),
        };
        let m = match self.read_i32() {
            Ok(v) => v,
            Err(x) => return Err(x),
        };
        if m != n {
            return Err(ErrorCode::UnexpectedValue);
        }
        Ok(r)
    }

    /// See [`sp_encoded_slice_data`].
    pub fn read_encoded_slice_data<W: Word>(&mut self, size: usize) -> (r: Result<EncodedData, ErrorCode>)
        requires
            old(self).wf(),
            size > 0,
        ensures
            final(self).wf(),
            final(self).buffer == old(self).buffer,
            (enc(r), final(self).index as nat) == sp_encoded_slice_data(old(self).buffer@, old(self).index as nat, W::spec_size(), size as nat),
            r matches Ok(EncodedData::Data(s, e)) ==> s <= e <= final(self).buffer@.len(),
    {
        let n = match self.read_int::<W>() {
            Ok(v) => v,
            Err(x) => return Err(x),
        };
        if n < 0 {
            return Ok(EncodedData::EOR(n));
        } else if n == 0 {
            return Ok(EncodedData::Zero);
        }
        let w = W::size();
        let a = (n as usize) as u128;
        let b = w as u128;
        assert(a * b <= 0xffff_ffff_ffff_ffffu128 * 8) by (nonlinear_arith)
            requires
                a <= 0xffff_ffff_ffff_ffffu128,
                b <= 8,
        ;
        let nbytes = (a * b) as usize;
        if nbytes % size != 0 {
            return Err(ErrorCode::AlignmentError);
        }
        let nvalues = nbytes / size;
        let (s, e) = match self.read_padded_slice(size) {
            Ok(r) => r,
            Err(x) => return Err(x),
        };
        let len = (e - s) / size;
        if len != nvalues {
            return Err(ErrorCode::UnexpectedDataLength(nvalues, len));
        }
        Ok(EncodedData::Data(s, e))
    }

    /// See [`sp_encoded_slice`].
    pub fn read_encoded_slice<W: Word>(&mut self, size: usize) -> (r: Result<(usize, usize), ErrorCode>)
        requires
            old(self).wf(),
            size > 0,
        ensures
            final(self).wf(),
            final(self).buffer == old(self).buffer,
            (rng(r), final(self).index as nat) == sp_encoded_slice(old(self).buffer@, old(self).index as nat, W::spec_size(), size as nat),
            r matches Ok((s, e)) ==> s <= e <= final(self).buffer@.len(),
    {
        match self.read_encoded_slice_data::<W>(size) {
            Ok(EncodedData::Data(s, e)) => Ok((s, e)),
            Ok(EncodedData::Zero) => Err(ErrorCode::UnexpectedEOR(0)),
            Ok(EncodedData::EOR(n)) => Err(ErrorCode::UnexpectedEOR(n)),
            Err(x) => Err(x),
        }
    }
}


/// The two words at `b[s..s + 2w]`.
fn two_words<W: Word>(b: &[u8], s: usize) -> (r: [W; 2])
    requires
        s + 2 * W::spec_size() <= b@.len(),
    ensures
        words_bytes(r) == b@.subrange(s as int, s + 2 * W::spec_size()),
{
    let w = W::size();
    let n = b.len();
    assert(s + 2 * w <= n);
    let a = W::from_bytes(vstd::slice::slice_subrange(b, s, s + w));
    let c = W::from_bytes(vstd::slice::slice_subrange(b, s + w, s + 2 * w));
    assert(b@.subrange(s as int, s + 2 * w) =~= b@.subrange(s as int, s + w) + b@.subrange(
        s + w,
        s + 2 * w,
    ));
    [a, c]
}

/// The integer of word `i` of the range starting at `s`, see [`int_at`].
fn int_word<W: Word>(b: &[u8], s: usize, i: usize) -> (r: i64)
    requires
        i < 8,
        s + (i + 1) * W::spec_size() <= b@.len(),
    ensures
        r == int_at(b@, s as nat, W::spec_size(), i as nat),
{
    let w = W::size();
    let n = b.len();
    assert((i + 1) * w == i * w + w) by (nonlinear_arith);
    assert(s + (i + 1) * w <= n);
    assert(i * w <= (i + 1) * w) by (nonlinear_arith);
    W::read_int(vstd::slice::slice_subrange(b, s + i * w, s + (i + 1) * w))
}

impl<'a> OP2Parser<'a> {
    /// The file header, see [`sp_header`].
    pub fn read_header<W: Word>(&mut self) -> (r: Result<FileHeader<W>, ErrorCode>)
        requires
            old(self).wf(),
            old(self).index == 0,
        ensures
            final(self).wf(),
            final(self).buffer == old(self).buffer,
            ({
                let (exp, p) = sp_header(old(self).buffer@, W::spec_size());
                &&& p == final(self).index
                &&& match r {
                    Ok(h) => exp == Ok::<HeaderView, ErrorCode>(header_view(h)),
                    Err(x) => exp == Err::<HeaderView, ErrorCode>(x),
                }
            }),
    {
        let w = W::size();
        let (ds, _de) = match self.read_encoded::<W>(3 * w) {
            Ok(r) => r,
            Err(x) => return Err(x),
        };
        let month = int_word::<W>(self.buffer, ds, 0);
        let day = int_word::<W>(self.buffer, ds, 1);
        let year = int_word::<W>(self.buffer, ds, 2);
        let (cs, ce) = match self.read_encoded::<W>(7 * w) {
            Ok(r) => r,
            Err(x) => return Err(x),
        };
        let code = header_code_bytes(w);
        if !same_bytes(self.buffer, cs, ce, &code) {
            return Err(ErrorCode::UnexpectedValue);
        }
        let (ls, _le) = match self.read_encoded::<W>(2 * w) {
            Ok(r) => r,
            Err(x) => return Err(x),
        };
        let label = two_words::<W>(self.buffer, ls);
        match self.read_int_expected::<W>(-1) {
            Ok(()) => {},
            Err(x) => return Err(x),
        }
        match self.read_int_expected::<W>(0) {
            Ok(()) => {},
            Err(x) => return Err(x),
        }
        Ok(FileHeader { date: Date { month, day, year }, label })
    }

    /// A table record, see [`sp_table_record`].
    pub fn read_table_record<W: Word>(&mut self) -> (r: Result<Option<IndexedSlice<Aligned, u8>>, ErrorCode>)
        requires
            old(self).wf(),
        ensures
            final(self).wf(),
            final(self).buffer == old(self).buffer,
            ({
                let (exp, p) = sp_table_record(old(self).buffer@, old(self).index as nat, W::spec_size());
                &&& p == final(self).index
                &&& match r {
                    Ok(Some(d)) => exp == Ok::<Option<(nat, nat)>, ErrorCode>(
                        Some((d.start as nat, d.end as nat)),
                    ),
                    Ok(None) => exp == Ok::<Option<(nat, nat)>, ErrorCode>(None),
                    Err(x) => exp == Err::<Option<(nat, nat)>, ErrorCode>(x),
                }
            }),
    {
        let w = W::size();
        let (ks, _ke) = match self.read_encoded::<W>(w) {
            Ok(r) => r,
            Err(x) => return Err(x),
        };
        if int_word::<W>(self.buffer, ks, 0) != 0 {
            return Err(ErrorCode::UnexpectedValue);
        }
        match self.read_encoded_slice_data::<W>(1) {
            Ok(EncodedData::Data(s, e)) => {
                let n = match self.read_int::<W>() {
                    Ok(v) => v,
                    Err(x) => return Err(x),
                };
                if n >= 0 {
                    return Err(ErrorCode::ExpectedEOR(n));
                }
                Ok(Some(IndexedSlice::new(s, e)))
            },
            Ok(EncodedData::Zero) => Ok(None),
            Ok(EncodedData::EOR(n)) => Err(ErrorCode::UnexpectedEOR(n)),
            Err(x) => Err(x),
        }
    }

    /// The start of a data block, see [`sp_block_start`].
    pub fn read_datablock_start<W: Word>(&mut self) -> (r: Result<Option<DataBlockStart<W>>, ErrorCode>)
        requires
            old(self).wf(),
        ensures
            final(self).wf(),
            final(self).buffer == old(self).buffer,
            ({
                let (exp, p) = sp_block_start(old(self).buffer@, old(self).index as nat, W::spec_size());
                &&& p == final(self).index
                &&& match r {
                    Ok(Some(st)) => exp == Ok::<Option<StartView>, ErrorCode>(Some(start_view(st))),
                    Ok(None) => exp == Ok::<Option<StartView>, ErrorCode>(None),
                    Err(x) => exp == Err::<Option<StartView>, ErrorCode>(x),
                }
            }),
    {
        let w = W::size();
        let name = match self.read_encoded_data::<W>(2 * w) {
            Err(x) => return Err(x),
            Ok(EncodedData::EOR(n)) => return Err(ErrorCode::UnexpectedEOR(n)),
            Ok(EncodedData::Zero) => return Ok(None),
            Ok(EncodedData::Data(s, _e)) => two_words::<W>(self.buffer, s),
        };
        match self.read_int_expected::<W>(-1) {
            Ok(()) => {},
            Err(x) => return Err(x),
        }
        let (ts, _te) = match self.read_encoded::<W>(7 * w) {
            Ok(r) => r,
            Err(x) => return Err(x),
        };
        let trailer = [
            int_word::<W>(self.buffer, ts, 0),
            int_word::<W>(self.buffer, ts, 1),
            int_word::<W>(self.buffer, ts, 2),
            int_word::<W>(self.buffer, ts, 3),
            int_word::<W>(self.buffer, ts, 4),
            int_word::<W>(self.buffer, ts, 5),
            int_word::<W>(self.buffer, ts, 6),
        ];
        assert(trailer@ =~= Seq::new(7, |i: int| int_at(self.buffer@, ts as nat, w as nat, i as nat)));
        match self.read_int_expected::<W>(-2) {
            Ok(()) => {},
            Err(x) => return Err(x),
        }
        let (ks, _ke) = match self.read_encoded::<W>(w) {
            Ok(r) => r,
            Err(x) => return Err(x),
        };
        let code = int_word::<W>(self.buffer, ks, 0);
        let record_type = if code == 0 {
            DataBlockType::Table
        } else if code == 1 {
            DataBlockType::Matrix
        } else if code == 2 {
            DataBlockType::StringFactor
        } else if code == 3 {
            DataBlockType::MatrixFactor
        } else {
            return Err(ErrorCode::UnknownDataBlockType(code));
        };
        Ok(Some(DataBlockStart { name, trailer, record_type }))
    }
}


pub open spec fn record_ranges(v: Seq<IndexedSlice<Aligned, u8>>) -> Seq<(nat, nat)> {
    v.map_values(|r: IndexedSlice<Aligned, u8>| (r.start as nat, r.end as nat))
}

pub open spec fn block_views<W: Word>(v: Seq<DataBlock<W>>) -> Seq<BlockView> {
    v.map_values(|d: DataBlock<W>| block_view(d))
}

impl<'a> OP2Parser<'a> {
    /// The records of a table, see [`sp_records`].
    fn read_records<W: Word>(&mut self) -> (r: Result<Vec<IndexedSlice<Aligned, u8>>, ErrorCode>)
        requires
            old(self).wf(),
        ensures
            final(self).wf(),
            final(self).buffer == old(self).buffer,
            ({
                let (exp, p) = sp_records(old(self).buffer@, old(self).index as nat, W::spec_size(), Seq::empty());
                &&& p == final(self).index
                &&& match r {
                    Ok(v) => exp == Ok::<Seq<(nat, nat)>, ErrorCode>(record_ranges(v@)),
                    Err(x) => exp == Err::<Seq<(nat, nat)>, ErrorCode>(x),
                }
            }),
    {
        let mut records: Vec<IndexedSlice<Aligned, u8>> = Vec::new();
        let ghost b = self.buffer@;
        let ghost w = W::spec_size();
        let ghost start = self.index as nat;
        assert(record_ranges(records@) =~= Seq::<(nat, nat)>::empty());
        loop
            invariant
                self.wf(),
                self.buffer@ == b,
                self.buffer == old(self).buffer,
                b == old(self).buffer@,
                w == W::spec_size(),
                start == old(self).index,
                sp_records(b, start, w, Seq::empty()) == sp_records(b, self.index as nat, w, record_ranges(records@)),
            decreases b.len() - self.index,
        {
            let ghost before = self.index as nat;
            proof {
                lemma_table_record(b, before, w);
            }
            match self.read_table_record::<W>() {
                Err(x) => return Err(x),
                Ok(None) => return Ok(records),
                Ok(Some(rec)) => {
                    let ghost prev = record_ranges(records@);
                    records.push(rec);
                    assert(record_ranges(records@) =~= prev.push((rec.start as nat, rec.end as nat)));
                },
            }
        }
    }

    /// A data block, see [`sp_block`].
    pub fn read_datablock<W: Word>(&mut self) -> (r: Result<Option<DataBlock<W>>, ErrorCode>)
        requires
            old(self).wf(),
        ensures
            final(self).wf(),
            final(self).buffer == old(self).buffer,
            ({
                let (exp, p) = sp_block(old(self).buffer@, old(self).index as nat, W::spec_size());
                &&& p == final(self).index
                &&& match r {
                    Ok(Some(d)) => exp == Ok::<Option<BlockView>, ErrorCode>(Some(block_view(d))),
                    Ok(None) => exp == Ok::<Option<BlockView>, ErrorCode>(None),
                    Err(x) => exp == Err::<Option<BlockView>, ErrorCode>(x),
                }
            }),
    {
        let w = W::size();
        let start = match self.read_datablock_start::<W>() {
            Err(x) => return Err(x),
            Ok(None) => return Ok(None),
            Ok(Some(st)) => st,
        };
        let (hs, he) = match self.read_encoded_slice::<W>(w) {
            Ok(r) => r,
            Err(x) => return Err(x),
        };
        match self.read_int_expected::<W>(-3) {
            Ok(()) => {},
            Err(x) => return Err(x),
        }
        let records = match self.read_records::<W>() {
            Ok(v) => v,
            Err(x) => return Err(x),
        };
        let DataBlockStart { name, trailer, record_type } = start;
        Ok(Some(DataBlock { name, trailer, record_type, header: IndexedSlice::new(hs, he), records }))
    }

    /// The data blocks, see [`sp_blocks`].
    fn read_datablocks<W: Word>(&mut self) -> (r: Result<Vec<DataBlock<W>>, ErrorCode>)
        requires
            old(self).wf(),
        ensures
            final(self).wf(),
            final(self).buffer == old(self).buffer,
            ({
                let (exp, p) = sp_blocks(old(self).buffer@, old(self).index as nat, W::spec_size(), Seq::empty());
                &&& p == final(self).index
                &&& match r {
                    Ok(v) => exp == Ok::<Seq<BlockView>, ErrorCode>(block_views(v@)),
                    Err(x) => exp == Err::<Seq<BlockView>, ErrorCode>(x),
                }
            }),
    {
        let mut blocks: Vec<DataBlock<W>> = Vec::new();
        let ghost b = self.buffer@;
        let ghost w = W::spec_size();
        let ghost start = self.index as nat;
        assert(block_views(blocks@) =~= Seq::<BlockView>::empty());
        loop
            invariant
                self.wf(),
                self.buffer@ == b,
                self.buffer == old(self).buffer,
                b == old(self).buffer@,
                w == W::spec_size(),
                start == old(self).index,
                sp_blocks(b, start, w, Seq::empty()) == sp_blocks(b, self.index as nat, w, block_views(blocks@)),
            decreases b.len() - self.index,
        {
            let ghost before = self.index as nat;
            proof {
                lemma_block(b, before, w);
            }
            match self.read_datablock::<W>() {
                Err(x) => return Err(x),
                Ok(None) => return Ok(blocks),
                Ok(Some(d)) => {
                    let ghost prev = block_views(blocks@);
                    let ghost dv = block_view(d);
                    blocks.push(d);
                    assert(block_views(blocks@) =~= prev.push(dv));
                },
            }
        }
    }

    /// A whole file, see [`sp_inner_parse`].
    pub fn inner_parse<W: Word>(&mut self) -> (r: Result<OP2MetaData<W>, ErrorCode>)
        requires
            old(self).wf(),
            old(self).index == 0,
        ensures
            final(self).wf(),
            final(self).buffer == old(self).buffer,
            ({
                let (exp, p) = sp_inner_parse(old(self).buffer@, W::spec_size());
                &&& p == final(self).index
                &&& match r {
                    Ok(m) => exp == Ok::<MetaView, ErrorCode>(meta_view(m)),
                    Err(x) => exp == Err::<MetaView, ErrorCode>(x),
                }
            }),
    {
        let header = match self.read_header::<W>() {
            Ok(h) => h,
            Err(x) => return Err(x),
        };
        let blocks = match self.read_datablocks::<W>() {
            Ok(v) => v,
            Err(x) => return Err(x),
        };
        if self.rem() == 0 {
            let m = OP2MetaData { header, blocks };
            assert(meta_view(m).blocks =~= block_views(blocks@));
            Ok(m)
        } else {
            Err(ErrorCode::BytesRemaining)
        }
    }

    /// A whole file; an error comes with the rest of the buffer from where it
    /// was found, see [`sp_parse`].
    pub fn parse<W: Word>(&mut self) -> (r: Result<OP2MetaData<W>, Error>)
        requires
            old(self).wf(),
            old(self).index == 0,
        ensures
            match r {
                Ok(m) => sp_parse(old(self).buffer@, W::spec_size()) == Ok::<MetaView, (ErrorCode, nat)>(
                    meta_view(m),
                ),
                Err(e) => e.remaining matches Some(rem) && rem.start <= rem.end && rem.end == old(self).buffer@.len()
                    && sp_parse(old(self).buffer@, W::spec_size()) == Err::<MetaView, (ErrorCode, nat)>(
                    (e.code, rem.start as nat),
                ),
            },
    {
        match self.inner_parse::<W>() {
            Ok(m) => Ok(m),
            Err(code) => Err(Error { code, remaining: Some(Indexed::new(self.index, self.buffer.len())) }),
        }
    }
}

/// Reads a file with the words of the precision `P`, see [`sp_parse`].
pub fn parse_buffer<P: Precision>(buffer: &[u8]) -> (r: Result<OP2MetaData<P::Word>, Error>)
    ensures
        match r {
            Ok(m) => sp_parse(buffer@, <P::Word as Word>::spec_size()) == Ok::<MetaView, (ErrorCode, nat)>(meta_view(m)),
            Err(e) => e.remaining matches Some(rem) && rem.start <= rem.end && rem.end == buffer@.len() && sp_parse(
                buffer@,
                <P::Word as Word>::spec_size(),
            ) == Err::<MetaView, (ErrorCode, nat)>((e.code, rem.start as nat)),
        },
{
    let mut parser = OP2Parser { index: 0, buffer };
    parser.parse::<P::Word>()
}

/// Reads a single precision file (four byte words), see [`sp_parse`].
pub fn parse_buffer_single(buffer: &[u8]) -> (r: Result<OP2MetaData<SingleWord>, Error>)
    ensures
        match r {
            Ok(m) => sp_parse(buffer@, 4) == Ok::<MetaView, (ErrorCode, nat)>(meta_view(m)),
            Err(e) => e.remaining matches Some(rem) && rem.start <= rem.end && rem.end == buffer@.len() && sp_parse(buffer@, 4)
                == Err::<MetaView, (ErrorCode, nat)>((e.code, rem.start as nat)),
        },
{
    parse_buffer::<SinglePrecision>(buffer)
}

/// Reads a double precision file (eight byte words), see [`sp_parse`].
pub fn parse_buffer_double(buffer: &[u8]) -> (r: Result<OP2MetaData<DoubleWord>, Error>)
    ensures
        match r {
            Ok(m) => sp_parse(buffer@, 8) == Ok::<MetaView, (ErrorCode, nat)>(meta_view(m)),
            Err(e) => e.remaining matches Some(rem) && rem.start <= rem.end && rem.end == buffer@.len() && sp_parse(buffer@, 8)
                == Err::<MetaView, (ErrorCode, nat)>((e.code, rem.start as nat)),
        },
{
    parse_buffer::<DoublePrecision>(buffer)
}

} // verus!