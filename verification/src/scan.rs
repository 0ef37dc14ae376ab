//! Byte classes and the lengths of leading and trailing runs, shared by the
//! field parsers of both card readers.
use vstd::prelude::*;

verus! {

pub const SPACE: u8 = 0x20;
pub const TAB: u8 = 0x09;
pub const LF: u8 = 0x0a;
pub const CR: u8 = 0x0d;
pub const DOLLAR: u8 = 0x24;
pub const STAR: u8 = 0x2a;
pub const PLUS: u8 = 0x2b;
pub const COMMA: u8 = 0x2c;
pub const MINUS: u8 = 0x2d;
pub const PERIOD: u8 = 0x2e;
pub const DIGIT_0: u8 = 0x30;
pub const DIGIT_9: u8 = 0x39;
pub const UPPER_A: u8 = 0x41;
pub const UPPER_D: u8 = 0x44;
pub const UPPER_E: u8 = 0x45;
pub const UPPER_Z: u8 = 0x5a;
pub const LOWER_A: u8 = 0x61;
pub const LOWER_D: u8 = 0x64;
pub const LOWER_E: u8 = 0x65;
pub const LOWER_Z: u8 = 0x7a;

/// An ASCII letter.
pub open spec fn alpha(c: u8) -> bool {
    (LOWER_A <= c && c <= LOWER_Z) || (UPPER_A <= c && c <= UPPER_Z)
}

/// An ASCII decimal digit.
pub open spec fn digit(c: u8) -> bool {
    DIGIT_0 <= c && c <= DIGIT_9
}

/// A letter or a digit.
pub open spec fn alnum(c: u8) -> bool {
    alpha(c) || digit(c)
}

pub open spec fn space(c: u8) -> bool {
    c == SPACE
}

pub open spec fn plus_minus(c: u8) -> bool {
    c == PLUS || c == MINUS
}

/// Number of leading bytes of `s` that satisfy `p`.
pub open spec fn lead(s: Seq<u8>, p: spec_fn(u8) -> bool) -> nat
    decreases s.len(),
{
    if s.len() > 0 && p(s[0]) {
        1 + lead(s.drop_first(), p)
    } else {
        0
    }
}

/// Number of trailing bytes of `s` that satisfy `p`.
pub open spec fn trail(s: Seq<u8>, p: spec_fn(u8) -> bool) -> nat
    decreases s.len(),
{
    if s.len() > 0 && p(s.last()) {
        1 + trail(s.drop_last(), p)
    } else {
        0
    }
}

/// `k` is the length of the leading run of `p` in `s`.
pub open spec fn is_lead(s: Seq<u8>, p: spec_fn(u8) -> bool, k: int) -> bool {
    &&& 0 <= k <= s.len()
    &&& forall|j: int| 0 <= j < k ==> p(#[trigger] s[j])
    &&& (k == s.len() || !p(s[k]))
}

/// `k` is the length of the trailing run of `p` in `s`.
pub open spec fn is_trail(s: Seq<u8>, p: spec_fn(u8) -> bool, k: int) -> bool {
    &&& 0 <= k <= s.len()
    &&& forall|j: int| s.len() - k <= j < s.len() ==> p(#[trigger] s[j])
    &&& (k == s.len() || !p(s[s.len() - k - 1]))
}

pub proof fn lemma_lead(s: Seq<u8>, p: spec_fn(u8) -> bool, k: int)
    requires
        is_lead(s, p, k),
    ensures
        lead(s, p) == k,
    decreases s.len(),
{
    if s.len() > 0 && p(s[0]) {
        assert(k > 0);
        let t = s.drop_first();
        assert forall|j: int| 0 <= j < k - 1 implies p(#[trigger] t[j]) by {
            assert(t[j] == s[j + 1]);
        }
        if k - 1 < t.len() {
            assert(t[k - 1] == s[k]);
        }
        lemma_lead(t, p, k - 1);
    }
}

pub proof fn lemma_trail(s: Seq<u8>, p: spec_fn(u8) -> bool, k: int)
    requires
        is_trail(s, p, k),
    ensures
        trail(s, p) == k,
    decreases s.len(),
{
    if s.len() > 0 && p(s.last()) {
        assert(k > 0);
        let t = s.drop_last();
        assert forall|j: int| t.len() - (k - 1) <= j < t.len() implies p(#[trigger] t[j]) by {
            assert(t[j] == s[j]);
        }
        if k - 1 < t.len() {
            assert(t[t.len() - (k - 1) - 1] == s[s.len() - k - 1]);
        }
        lemma_trail(t, p, k - 1);
    }
}

/// `lead` never exceeds the length, and every byte it covers satisfies `p`.
pub proof fn lemma_lead_bounds(s: Seq<u8>, p: spec_fn(u8) -> bool)
    ensures
        is_lead(s, p, lead(s, p) as int),
    decreases s.len(),
{
    if s.len() > 0 && p(s[0]) {
        let t = s.drop_first();
        lemma_lead_bounds(t, p);
        let k = lead(s, p) as int;
        assert forall|j: int| 0 <= j < k implies p(#[trigger] s[j]) by {
            if j > 0 {
                assert(s[j] == t[j - 1]);
            }
        }
        if k < s.len() {
            assert(s[k] == t[k - 1]);
        }
    }
}

/// `trail` never exceeds the length, and every byte it covers satisfies `p`.
pub proof fn lemma_trail_bounds(s: Seq<u8>, p: spec_fn(u8) -> bool)
    ensures
        is_trail(s, p, trail(s, p) as int),
    decreases s.len(),
{
    if s.len() > 0 && p(s.last()) {
        let t = s.drop_last();
        lemma_trail_bounds(t, p);
        let k = trail(s, p) as int;
        assert forall|j: int| s.len() - k <= j < s.len() implies p(#[trigger] s[j]) by {
            if j < s.len() - 1 {
                assert(s[j] == t[j]);
            }
        }
        if k < s.len() {
            assert(s[s.len() - k - 1] == t[t.len() - (k - 1) - 1]);
        }
    }
}

/// Trimming a sequence that starts with a non-space keeps that first byte.
pub proof fn lemma_trimmed_first(s: Seq<u8>)
    requires
        s.len() > 0,
        !space(s[0]),
    ensures
        1 <= trimmed(s).len() <= s.len(),
        trimmed(s)[0] == s[0],
        trimmed(s) == s.take(trimmed(s).len() as int),
{
    lemma_trail_bounds(s, |c: u8| space(c));
    let k = trail(s, |c: u8| space(c)) as int;
    if k == s.len() {
        assert(space(s[0]));
    }
}

/// Facts about a trimmed sequence that is not empty: it starts and ends with
/// non-spaces and sits inside `s`.
pub proof fn lemma_trimmed(s: Seq<u8>)
    ensures
        trimmed(s).len() <= s.len(),
        trimmed(s).len() > 0 ==> !space(trimmed(s)[0]) && !space(trimmed(s).last()),
        trimmed(s).len() == 0 ==> forall|j: int| 0 <= j < s.len() ==> space(#[trigger] s[j]),
{
    lemma_lead_bounds(s, |c: u8| space(c));
    lemma_trail_bounds(s, |c: u8| space(c));
    let i = lead(s, |c: u8| space(c)) as int;
    let k = trail(s, |c: u8| space(c)) as int;
    if i < s.len() {
        if s.len() - k <= i {
            assert(space(s[i]));
        }
    }
}

pub fn is_alpha(c: u8) -> (r: bool)
    ensures
        r == alpha(c),
{
    (c >= LOWER_A && c <= LOWER_Z) || (c >= UPPER_A && c <= UPPER_Z)
}

pub fn is_numeric(c: u8) -> (r: bool)
    ensures
        r == digit(c),
{
    c >= DIGIT_0 && c <= DIGIT_9
}

pub fn is_plus_minus(c: u8) -> (r: bool)
    ensures
        r == plus_minus(c),
{
    c == PLUS || c == MINUS
}

/// Length of the leading run of spaces of `buffer[from..]`.
pub fn count_spaces(buffer: &[u8], from: usize) -> (r: usize)
    requires
        from <= buffer@.len(),
    ensures
        r == lead(buffer@.skip(from as int), |c: u8| space(c)),
        from + r <= buffer@.len(),
{
    let ghost s = buffer@.skip(from as int);
    let mut i = from;
    while i < buffer.len() && buffer[i] == SPACE
        invariant
            from <= i <= buffer@.len(),
            s == buffer@.skip(from as int),
            forall|j: int| 0 <= j < i - from ==> space(#[trigger] s[j]),
        decreases buffer@.len() - i,
    {
        i += 1;
    }
    proof {
        lemma_lead(s, |c: u8| space(c), (i - from) as int);
    }
    i - from
}

/// Length of the leading run of digits of `buffer[from..]`.
pub fn count_digits(buffer: &[u8], from: usize) -> (r: usize)
    requires
        from <= buffer@.len(),
    ensures
        r == lead(buffer@.skip(from as int), |c: u8| digit(c)),
        from + r <= buffer@.len(),
{
    let ghost s = buffer@.skip(from as int);
    let mut i = from;
    while i < buffer.len() && is_numeric(buffer[i])
        invariant
            from <= i <= buffer@.len(),
            s == buffer@.skip(from as int),
            forall|j: int| 0 <= j < i - from ==> digit(#[trigger] s[j]),
        decreases buffer@.len() - i,
    {
        i += 1;
    }
    proof {
        lemma_lead(s, |c: u8| digit(c), (i - from) as int);
    }
    i - from
}

/// Length of the leading run of letters and digits of `buffer[from..]`.
pub fn count_alphanumeric(buffer: &[u8], from: usize) -> (r: usize)
    requires
        from <= buffer@.len(),
    ensures
        r == lead(buffer@.skip(from as int), |c: u8| alnum(c)),
        from + r <= buffer@.len(),
{
    let ghost s = buffer@.skip(from as int);
    let mut i = from;
    while i < buffer.len() && (is_numeric(buffer[i]) || is_alpha(buffer[i]))
        invariant
            from <= i <= buffer@.len(),
            s == buffer@.skip(from as int),
            forall|j: int| 0 <= j < i - from ==> alnum(#[trigger] s[j]),
        decreases buffer@.len() - i,
    {
        i += 1;
    }
    proof {
        lemma_lead(s, |c: u8| alnum(c), (i - from) as int);
    }
    i - from
}

/// `s` without its leading and trailing spaces.
pub open spec fn trimmed(s: Seq<u8>) -> Seq<u8> {
    let i = lead(s, |c: u8| space(c));
    if i == s.len() {
        Seq::empty()
    } else {
        s.subrange(i as int, s.len() - trail(s, |c: u8| space(c)))
    }
}

/// The bytes of `buffer` without leading and trailing spaces.
pub fn trim_spaces(buffer: &[u8]) -> (r: &[u8])
    ensures
        r@ == trimmed(buffer@),
{
    let n = buffer.len();
    let i = count_spaces(buffer, 0);
    assert(buffer@.skip(0) == buffer@);
    if i == n {
        return &buffer[0..0];
    }
    let mut k = n;
    while k > i && buffer[k - 1] == SPACE
        invariant
            i < n == buffer@.len(),
            i <= k <= n,
            forall|j: int| k <= j < n ==> space(#[trigger] buffer@[j]),
        decreases k,
    {
        k -= 1;
    }
    proof {
        lemma_lead_bounds(buffer@, |c: u8| space(c));
        assert(!space(buffer@[i as int]));
        assert(k > i);
        lemma_trail(buffer@, |c: u8| space(c), (n - k) as int);
    }
    &buffer[i..k]
}

/// `s` followed by spaces up to length `n`.
pub open spec fn padded(s: Seq<u8>, n: nat) -> Seq<u8> {
    s + Seq::new((n - s.len()) as nat, |_i: int| SPACE)
}

/// `buffer[start..end]` left-justified in eight bytes, the rest spaces.
pub fn pad8(buffer: &[u8], start: usize, end: usize) -> (r: [u8; 8])
    requires
        start <= end <= buffer@.len(),
        end - start <= 8,
    ensures
        r@ == padded(buffer@.subrange(start as int, end as int), 8),
{
    let mut dst = [SPACE; 8];
    let mut k = start;
    while k < end
        invariant
            start <= k <= end <= buffer@.len(),
            end - start <= 8,
            forall|j: int| 0 <= j < k - start ==> dst@[j] == buffer@[start + j],
            forall|j: int| k - start <= j < 8 ==> dst@[j] == SPACE,
        decreases end - k,
    {
        dst[k - start] = buffer[k];
        k += 1;
    }
    assert(dst@ =~= padded(buffer@.subrange(start as int, end as int), 8));
    dst
}

/// Value of a run of decimal digits.
pub open spec fn digits_value(s: Seq<u8>) -> int
    decreases s.len(),
{
    if s.len() == 0 {
        0
    } else {
        digits_value(s.drop_last()) * 10 + (s.last() - DIGIT_0)
    }
}

/// Value of an optionally signed run of digits.
pub open spec fn decimal(s: Seq<u8>) -> int {
    if s.len() > 0 && s[0] == MINUS {
        -digits_value(s.drop_first())
    } else if s.len() > 0 && s[0] == PLUS {
        digits_value(s.drop_first())
    } else {
        digits_value(s)
    }
}

pub open spec fn pow10(k: nat) -> int
    decreases k,
{
    if k == 0 {
        1
    } else {
        10 * pow10((k - 1) as nat)
    }
}

pub proof fn lemma_digits_step(s: Seq<u8>, k: int)
    requires
        0 <= k < s.len(),
    ensures
        digits_value(s.take(k + 1)) == digits_value(s.take(k)) * 10 + (s[k] - DIGIT_0),
{
    assert(s.take(k + 1).drop_last() =~= s.take(k));
}

/// Value of the digits `buffer[from..to]`; at most eight digits.
pub fn digits_to_i32(buffer: &[u8], from: usize, to: usize) -> (r: i32)
    requires
        from <= to <= buffer@.len(),
        to - from <= 8,
        forall|j: int| from <= j < to ==> digit(#[trigger] buffer@[j]),
    ensures
        r as int == digits_value(buffer@.subrange(from as int, to as int)),
        0 <= r < 100_000_000,
{
    let ghost s = buffer@.subrange(from as int, to as int);
    let mut v: i32 = 0;
    let mut k = from;
    assert(s.take(0) =~= Seq::<u8>::empty());
    while k < to
        invariant
            from <= k <= to <= buffer@.len(),
            to - from <= 8,
            s == buffer@.subrange(from as int, to as int),
            forall|j: int| from <= j < to ==> digit(#[trigger] buffer@[j]),
            v as int == digits_value(s.take(k - from)),
            0 <= v < pow10((k - from) as nat),
            pow10((k - from) as nat) <= 100_000_000,
        decreases to - k,
    {
        let d = buffer[k] - DIGIT_0;
        proof {
            assert(digit(buffer@[k as int]));
            assert(s[k - from] == buffer@[k as int]);
            lemma_digits_step(s, k - from);
            let p = pow10((k - from) as nat);
            assert(pow10((k + 1 - from) as nat) == 10 * p);
            assert(v * 10 + d < 10 * p) by (nonlinear_arith)
                requires
                    0 <= v < p,
                    0 <= d < 10,
            ;
            assert((k + 1 - from) <= 8);
            lemma_pow10_le((k + 1 - from) as nat);
        }
        v = v * 10 + d as i32;
        k += 1;
    }
    assert(s.take(to - from) =~= s);
    v
}

pub proof fn lemma_pow10_le(k: nat)
    requires
        k <= 8,
    ensures
        pow10(k) <= 100_000_000,
        pow10(k) >= 1,
    decreases k,
{
    if k > 0 {
        lemma_pow10_le((k - 1) as nat);
        reveal_with_fuel(pow10, 9);
    }
}

} // verus!
