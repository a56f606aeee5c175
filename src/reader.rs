use vstd::prelude::*;
use crate::matrix::{DataType, Entry, Matrix, MatrixData, Value};
use rayon::iter::{IntoParallelRefIterator, ParallelIterator};

verus! {

/// A field of the input: the bytes from `.0` up to `.1`.
pub type Span = (usize, usize);

/// Whether `b` is ASCII whitespace (space, tab, line feed, form feed or carriage return).
pub open spec fn is_ws(b: u8) -> bool {
    b == 0x20 || b == 0x09 || b == 0x0a || b == 0x0c || b == 0x0d
}

/// Whether `b` is an ASCII decimal digit.
pub open spec fn is_digit(b: u8) -> bool {
    0x30 <= b <= 0x39
}

/// The number that the decimal digits `s` spell.
pub open spec fn digits_value(s: Seq<u8>) -> nat
    decreases s.len(),
{
    if s.len() == 0 {
        0
    } else {
        digits_value(s.drop_last()) * 10 + (s.last() - 0x30) as nat
    }
}

/// The non-negative integer that the bytes `s` spell in decimal, if they do and it fits a
/// `usize`.
pub open spec fn usize_of(s: Seq<u8>) -> Option<usize> {
    if s.len() > 0 && (forall|i: int| 0 <= i < s.len() ==> is_digit(#[trigger] s[i])) && digits_value(s) <= usize::MAX {
        Some(digits_value(s) as usize)
    } else {
        None
    }
}

/// The end of the line that starts at `p`: the first line feed at or after `p`, or the end of
/// the text.
pub open spec fn line_end(t: Seq<u8>, p: int) -> int
    decreases t.len() - p,
{
    if p < 0 || p >= t.len() || t[p] == 0x0a {
        p
    } else {
        line_end(t, p + 1)
    }
}

/// The start of the first line at or after the line starting at `p` that is not a comment
/// (a line that starts with `%`).
pub open spec fn skip_comments(t: Seq<u8>, p: int) -> int
    decreases t.len() - p,
{
    if 0 <= p < t.len() && t[p] == 0x25 {
        if p <= line_end(t, p) < t.len() {
            skip_comments(t, line_end(t, p) + 1)
        } else {
            t.len() as int
        }
    } else {
        p
    }
}

/// The start of the `k`-th line after the line starting at `p` (`p` itself for `k == 0`).
pub open spec fn line_start(t: Seq<u8>, p: int, k: nat) -> int
    decreases k,
{
    if k == 0 {
        p
    } else {
        line_start(t, line_end(t, p) + 1, (k - 1) as nat)
    }
}

/// The first position at or after `p`, before `e`, that is not whitespace (or `e`).
pub open spec fn skip_ws(t: Seq<u8>, p: int, e: int) -> int
    decreases e - p,
{
    if 0 <= p < e && p < t.len() && is_ws(t[p]) {
        skip_ws(t, p + 1, e)
    } else {
        p
    }
}

/// The first position at or after `p`, before `e`, that is whitespace (or `e`).
pub open spec fn token_end(t: Seq<u8>, p: int, e: int) -> int
    decreases e - p,
{
    if 0 <= p < e && p < t.len() && !is_ws(t[p]) {
        token_end(t, p + 1, e)
    } else {
        p
    }
}

/// The whitespace-separated fields of the bytes from `p` up to `e`.
pub open spec fn fields(t: Seq<u8>, p: int, e: int) -> Seq<Span>
    decreases e - p,
{
    let s = skip_ws(t, p, e);
    let te = token_end(t, s, e);
    if p <= s && s < te && te <= e {
        seq![(s as usize, te as usize)] + fields(t, te, e)
    } else {
        Seq::empty()
    }
}

/// Why a text is not a matrix in coordinate form.
#[derive(Clone, Copy, Debug, PartialEq, Eq, Structural)]
pub enum ParseError {
    /// The header line lacks one of its three integers, or one does not parse.
    Header,
    /// Data line `k` (counting from 0) is missing, lacks a field, its row or column does not
    /// parse, or its integer value is not an integer of the chosen width.
    Entry(usize),
}

/// The width of the integer values of a matrix of element type `Integer`.
#[derive(Clone, Copy, Debug, PartialEq, Eq, Structural)]
pub enum IntWidth {
    /// 32-bit signed integers.
    I32,
    /// 64-bit signed integers.
    I64,
}

/// The largest magnitude of an integer of width `iw`, negative or not.
pub open spec fn int_limit(iw: IntWidth, negative: bool) -> nat {
    match iw {
        IntWidth::I32 => if negative { 0x8000_0000 } else { 0x7fff_ffff },
        IntWidth::I64 => if negative { 0x8000_0000_0000_0000 } else { 0x7fff_ffff_ffff_ffff },
    }
}

/// The length of the sign that `s` starts with: 1 for `-` or `+`, else 0.
pub open spec fn sign_len(s: Seq<u8>) -> int {
    if s.len() > 0 && (s[0] == 0x2d || s[0] == 0x2b) {
        1
    } else {
        0
    }
}

/// The bytes `s` spell a decimal integer of width `iw`: an optional sign, then at least one
/// digit, with a magnitude that the width holds.
pub open spec fn int_fits(s: Seq<u8>, iw: IntWidth) -> bool {
    let d = s.subrange(sign_len(s), s.len() as int);
    &&& d.len() > 0
    &&& forall|i: int| 0 <= i < d.len() ==> is_digit(#[trigger] d[i])
    &&& digits_value(d) <= int_limit(iw, s.len() > 0 && s[0] == 0x2d)
}

/// The number of value fields on a data line of the given element type.
pub open spec fn payload_len(dt: DataType) -> nat {
    match dt {
        DataType::Real => 1,
        DataType::Complex => 2,
        DataType::Integer => 1,
        DataType::Bool => 0,
    }
}

/// The value that the fields `f` of a data line give, for the given element type.
pub open spec fn value_of(dt: DataType, f: Seq<Span>) -> Value<Span, Span> {
    match dt {
        DataType::Real => Value::Real(f[2]),
        DataType::Complex => Value::Complex(f[2], f[3]),
        DataType::Integer => Value::Integer(f[2]),
        DataType::Bool => Value::Bool,
    }
}

/// The entry that the data line `t[s..e]` gives, if it has its fields, its row and column parse,
/// and an integer value is an integer of width `iw`. Fields beyond those are ignored.
pub open spec fn entry_of(t: Seq<u8>, s: int, e: int, dt: DataType, iw: IntWidth) -> Option<Entry<Span, Span>> {
    let f = fields(t, s, e);
    if f.len() >= 2 + payload_len(dt) && usize_of(span_bytes(t, f[0])) is Some && usize_of(span_bytes(t, f[1])) is Some
        && (dt == DataType::Integer ==> int_fits(span_bytes(t, f[2]), iw)) {
        Some((usize_of(span_bytes(t, f[0]))->0, usize_of(span_bytes(t, f[1]))->0, value_of(dt, f)))
    } else {
        None
    }
}

/// The header `(nrows, ncols, nvals)` on the line `t[s..e]`, if its first three fields parse.
pub open spec fn header_of(t: Seq<u8>, s: int, e: int) -> Option<(usize, usize, usize)> {
    let f = fields(t, s, e);
    if f.len() >= 3 && usize_of(span_bytes(t, f[0])) is Some && usize_of(span_bytes(t, f[1])) is Some && usize_of(
        span_bytes(t, f[2]),
    ) is Some {
        Some((usize_of(span_bytes(t, f[0]))->0, usize_of(span_bytes(t, f[1]))->0, usize_of(span_bytes(t, f[2]))->0))
    } else {
        None
    }
}

/// The start of data line `k` after the header line that starts at `h`.
pub open spec fn data_line(t: Seq<u8>, h: int, k: nat) -> int {
    line_start(t, line_end(t, h) + 1, k)
}

/// Data entry `k` after the header line that starts at `h`, if its line is there and parses.
pub open spec fn data_entry(t: Seq<u8>, h: int, k: nat, dt: DataType, iw: IntWidth) -> Option<Entry<Span, Span>> {
    let s = data_line(t, h, k);
    if s < t.len() {
        entry_of(t, s, line_end(t, s), dt, iw)
    } else {
        None
    }
}

/// The start of the line after the `k`-th is one past the end of the `k`-th.
pub proof fn lemma_line_start_next(t: Seq<u8>, p: int, k: nat)
    ensures
        line_start(t, p, k + 1) == line_end(t, line_start(t, p, k)) + 1,
    decreases k,
{
    let q = line_end(t, p) + 1;
    assert(line_start(t, p, k + 1) == line_start(t, q, k));
    if k > 0 {
        lemma_line_start_next(t, q, (k - 1) as nat);
        assert(line_start(t, p, k) == line_start(t, q, (k - 1) as nat));
    } else {
        assert(line_start(t, q, 0) == q);
        assert(line_start(t, p, 0) == p);
    }
}

/// A line end is never before the line start.
proof fn lemma_line_end_after(t: Seq<u8>, p: int)
    ensures
        line_end(t, p) >= p,
        p <= t.len() ==> line_end(t, p) <= t.len(),
    decreases t.len() - p,
{
    if 0 <= p < t.len() && t[p] != 0x0a {
        lemma_line_end_after(t, p + 1);
    }
}

/// The bytes of a field.
pub open spec fn span_bytes(t: Seq<u8>, f: Span) -> Seq<u8> {
    t.subrange(f.0 as int, f.1 as int)
}

/// The decimal digits `s` spell `v`, computed left to right.
proof fn lemma_digits_push(s: Seq<u8>, b: u8)
    ensures
        digits_value(s.push(b)) == digits_value(s) * 10 + (b - 0x30) as nat,
{
    assert(s.push(b).drop_last() =~= s);
}

/// Parses the bytes `t[s..e]` as a non-negative decimal integer that fits a `usize`.
pub fn parse_usize(t: &[u8], s: usize, e: usize) -> (r: Option<usize>)
    requires
        s <= e <= t@.len(),
    ensures
        r == usize_of(t@.subrange(s as int, e as int)),
{
    let ghost w = t@.subrange(s as int, e as int);
    if s == e {
        return None;
    }
    let mut v: usize = 0;
    let mut i: usize = s;
    while i < e
        invariant
            s <= i <= e <= t@.len(),
            w == t@.subrange(s as int, e as int),
            forall|k: int| s <= k < i ==> is_digit(#[trigger] t@[k]),
            v as nat == digits_value(t@.subrange(s as int, i as int)),
        decreases e - i,
    {
        let b = t[i];
        if b < 0x30 || b > 0x39 {
            proof {
                assert(!is_digit(w[i - s]));
            }
            return None;
        }
        let d = (b - 0x30) as usize;
        proof {
            lemma_digits_push(t@.subrange(s as int, i as int), b);
            assert(t@.subrange(s as int, i as int).push(b) =~= t@.subrange(s as int, i + 1));
        }
        if v > (usize::MAX - d) / 10 {
            proof {
                assert(forall|k: int| s <= k < i + 1 ==> is_digit(#[trigger] t@[k]));
                if forall|k: int| 0 <= k < w.len() ==> is_digit(#[trigger] w[k]) {
                    lemma_digits_prefix_bound(w, (i + 1 - s) as int);
                    assert(t@.subrange(s as int, i + 1) =~= w.subrange(0, (i + 1 - s) as int));
                }
                assert(v * 10 + d > usize::MAX) by (nonlinear_arith)
                    requires
                        v > (usize::MAX - d) / 10,
                        d <= 9,
                ;
            }
            return None;
        }
        v = v * 10 + d;
        i += 1;
    }
    proof {
        assert(t@.subrange(s as int, e as int) =~= w);
        assert forall|k: int| 0 <= k < w.len() implies is_digit(#[trigger] w[k]) by {
            assert(w[k] == t@[s + k]);
        }
    }
    Some(v)
}

/// Whether `b` is ASCII whitespace.
fn is_ws_byte(b: u8) -> (r: bool)
    ensures
        r == is_ws(b),
{
    b == 0x20 || b == 0x09 || b == 0x0a || b == 0x0c || b == 0x0d
}

/// The end of the line that starts at `p`.
pub fn find_line_end(t: &[u8], p: usize) -> (r: usize)
    requires
        p <= t@.len(),
    ensures
        r == line_end(t@, p as int),
        p <= r <= t@.len(),
{
    let n = t.len();
    let mut q = p;
    while q < n && t[q] != 0x0a
        invariant
            p <= q <= n,
            n == t@.len(),
            line_end(t@, q as int) == line_end(t@, p as int),
        decreases n - q,
    {
        q += 1;
    }
    q
}

/// The start of the first line that is not a comment (the length of `t` or more if there is
/// none).
pub fn skip_comment_lines(t: &[u8]) -> (r: usize)
    ensures
        r == skip_comments(t@, 0),
{
    let n = t.len();
    let mut p: usize = 0;
    while p < n && t[p] == 0x25
        invariant
            n == t@.len(),
            p <= n,
            skip_comments(t@, p as int) == skip_comments(t@, 0),
        decreases n - p,
    {
        let e = find_line_end(t, p);
        if e == n {
            p = n;
        } else {
            p = e + 1;
        }
    }
    p
}

/// The whitespace-separated fields of `t[p..e]`.
pub fn split_fields(t: &[u8], p: usize, e: usize) -> (r: Vec<Span>)
    requires
        p <= e <= t@.len(),
    ensures
        r@ == fields(t@, p as int, e as int),
{
    let mut r: Vec<Span> = Vec::new();
    let mut q = p;
    while q < e
        invariant
            p <= q <= e <= t@.len(),
            r@ + fields(t@, q as int, e as int) == fields(t@, p as int, e as int),
        decreases e - q,
    {
        let mut s = q;
        while s < e && is_ws_byte(t[s])
            invariant
                q <= s <= e <= t@.len(),
                skip_ws(t@, s as int, e as int) == skip_ws(t@, q as int, e as int),
            decreases e - s,
        {
            s += 1;
        }
        let mut te = s;
        while te < e && !is_ws_byte(t[te])
            invariant
                s <= te <= e <= t@.len(),
                token_end(t@, te as int, e as int) == token_end(t@, s as int, e as int),
            decreases e - te,
        {
            te += 1;
        }
        if s == e {
            proof {
                assert(fields(t@, q as int, e as int) =~= Seq::<Span>::empty());
                assert(fields(t@, e as int, e as int) =~= Seq::<Span>::empty());
                assert(r@ + fields(t@, e as int, e as int) =~= r@ + fields(t@, q as int, e as int));
            }
            q = e;
        } else {
            let ghost old_r = r@;
            r.push((s, te));
            proof {
                assert(fields(t@, q as int, e as int) == seq![(s, te)] + fields(t@, te as int, e as int));
                assert(r@ + fields(t@, te as int, e as int) =~= old_r + fields(t@, q as int, e as int));
            }
            q = te;
        }
    }
    proof {
        assert(fields(t@, q as int, e as int) =~= Seq::<Span>::empty());
        assert(r@ =~= r@ + fields(t@, q as int, e as int));
    }
    r
}

/// The header on the line `t[s..e]`.
fn parse_header(t: &[u8], s: usize, e: usize) -> (r: Option<(usize, usize, usize)>)
    requires
        s <= e <= t@.len(),
    ensures
        r == header_of(t@, s as int, e as int),
{
    let f = split_fields(t, s, e);
    if f.len() < 3 {
        return None;
    }
    proof {
        lemma_fields_in(t@, s as int, e as int);
    }
    let a = parse_usize(t, f[0].0, f[0].1);
    let b = parse_usize(t, f[1].0, f[1].1);
    let c = parse_usize(t, f[2].0, f[2].1);
    match (a, b, c) {
        (Some(a), Some(b), Some(c)) => Some((a, b, c)),
        _ => None,
    }
}

/// The fields of `t[p..e]` lie inside it, in order.
proof fn lemma_fields_in(t: Seq<u8>, p: int, e: int)
    requires
        0 <= p <= e <= t.len(),
        e <= usize::MAX,
    ensures
        forall|i: int| 0 <= i < fields(t, p, e).len() ==> p <= (#[trigger] fields(t, p, e)[i]).0 < fields(t, p, e)[i].1 <= e,
    decreases e - p,
{
    let s = skip_ws(t, p, e);
    let te = token_end(t, s, e);
    if p <= s && s < te && te <= e {
        lemma_fields_in(t, te, e);
        let f = fields(t, p, e);
        assert(f == seq![(s as usize, te as usize)] + fields(t, te, e));
        assert forall|i: int| 0 <= i < f.len() implies p <= (#[trigger] f[i]).0 < f[i].1 <= e by {
            if i > 0 {
                assert(f[i] == fields(t, te, e)[i - 1]);
            }
        }
    }
}

/// The bytes before the end of a token are not whitespace.
proof fn lemma_token_bytes(t: Seq<u8>, p: int, e: int)
    requires
        0 <= p,
        e <= t.len(),
    ensures
        forall|j: int| p <= j < token_end(t, p, e) ==> !is_ws(#[trigger] t[j]),
    decreases e - p,
{
    if 0 <= p < e && p < t.len() && !is_ws(t[p]) {
        lemma_token_bytes(t, p + 1, e);
    }
}

/// The fields of `t[p..e]` hold no whitespace.
proof fn lemma_fields_bytes(t: Seq<u8>, p: int, e: int)
    requires
        0 <= p <= e <= t.len(),
        e <= usize::MAX,
    ensures
        forall|i: int, j: int| 0 <= i < fields(t, p, e).len() && (#[trigger] fields(t, p, e)[i]).0 <= j < fields(t, p, e)[i].1 ==> !is_ws(#[trigger] t[j]),
    decreases e - p,
{
    let s = skip_ws(t, p, e);
    let te = token_end(t, s, e);
    if p <= s && s < te && te <= e {
        lemma_fields_bytes(t, te, e);
        lemma_token_bytes(t, s, e);
        let f = fields(t, p, e);
        assert(f == seq![(s as usize, te as usize)] + fields(t, te, e));
        assert forall|i: int, j: int| 0 <= i < f.len() && (#[trigger] f[i]).0 <= j < f[i].1 implies !is_ws(#[trigger] t[j]) by {
            if i > 0 {
                assert(f[i] == fields(t, te, e)[i - 1]);
            }
        }
    }
}

/// The value of a data line names fields of `t`.
proof fn lemma_entry_fields(t: Seq<u8>, s: int, e: int, dt: DataType, iw: IntWidth)
    requires
        0 <= s <= e <= t.len(),
        e <= usize::MAX,
        entry_of(t, s, e, dt, iw) is Some,
    ensures
        forall|j: int| 0 <= j < crate::writer::value_spans((entry_of(t, s, e, dt, iw)->0).2).len() ==> crate::writer::is_field(
            t,
            #[trigger] crate::writer::value_spans((entry_of(t, s, e, dt, iw)->0).2)[j],
        ),
{
    lemma_fields_in(t, s, e);
    lemma_fields_bytes(t, s, e);
    let f = fields(t, s, e);
    let vs = crate::writer::value_spans((entry_of(t, s, e, dt, iw)->0).2);
    assert forall|j: int| 0 <= j < vs.len() implies crate::writer::is_field(t, #[trigger] vs[j]) by {
        assert(vs[j] == f[j + 2]);
        assert(forall|x: int| f[j + 2].0 <= x < f[j + 2].1 ==> !is_ws(#[trigger] t[x]));
    }
}

/// The entry on the data line `t[s..e]`.
fn parse_entry(t: &[u8], s: usize, e: usize, data_type: DataType, iw: IntWidth) -> (r: Option<Entry<Span, Span>>)
    requires
        s <= e <= t@.len(),
    ensures
        r == entry_of(t@, s as int, e as int, data_type, iw),
{
    let f = split_fields(t, s, e);
    let need: usize = match data_type {
        DataType::Real => 3,
        DataType::Complex => 4,
        DataType::Integer => 3,
        DataType::Bool => 2,
    };
    if f.len() < need {
        return None;
    }
    proof {
        lemma_fields_in(t@, s as int, e as int);
    }
    let row = parse_usize(t, f[0].0, f[0].1);
    let col = parse_usize(t, f[1].0, f[1].1);
    let fits = match data_type {
        DataType::Integer => int_field_fits(t, f[2], iw),
        _ => true,
    };
    match (row, col) {
        (Some(row), Some(col)) if fits => {
            let v = match data_type {
                DataType::Real => Value::Real(f[2]),
                DataType::Complex => Value::Complex(f[2], f[3]),
                DataType::Integer => Value::Integer(f[2]),
                DataType::Bool => Value::Bool,
            };
            Some((row, col, v))
        },
        _ => None,
    }
}

/// `r` is what reading `t` as a matrix of element type `dt` gives: the empty matrix when `t`
/// has no header; `ParseError::Header` when the header does not parse; otherwise the matrix of
/// the header's dimensions whose entries are the data lines, or `ParseError::Entry(k)` for the
/// first data line `k` that is missing or does not parse.
pub open spec fn parse_result(t: Seq<u8>, dt: DataType, r: Result<Matrix<Span, Span>, ParseError>, iw: IntWidth) -> bool {
    let h = skip_comments(t, 0);
    &&& h >= t.len() ==> r is Ok && r->Ok_0.wf() && r->Ok_0.row_count() == 0 && r->Ok_0.col_count() == 0
        && r->Ok_0.entry_count() == 0 && r->Ok_0.data_type() == dt
    &&& h < t.len() ==> (header_of(t, h, line_end(t, h)) is None <==> r == Err::<Matrix<Span, Span>, ParseError>(ParseError::Header))
    &&& h < t.len() && header_of(t, h, line_end(t, h)) is Some ==> {
        let (nr, nc, nv) = header_of(t, h, line_end(t, h))->0;
        &&& r is Ok <==> forall|k: nat| k < nv ==> #[trigger] data_entry(t, h, k, dt, iw) is Some
        &&& r is Ok ==> {
            let m = r->Ok_0;
            &&& m.wf()
            &&& m.row_count() == nr
            &&& m.col_count() == nc
            &&& m.entry_count() == nv
            &&& m.data_type() == dt
            &&& forall|k: int| 0 <= k < nv ==> #[trigger] m.entries()[k] == data_entry(t, h, k as nat, dt, iw)->0
            &&& crate::writer::fields_in(t, m.entries())
            &&& crate::writer::ints_fit(t, m.entries(), iw)
        }
        &&& forall|k: usize| r == Err::<Matrix<Span, Span>, ParseError>(ParseError::Entry(k)) ==> k < nv
            && data_entry(t, h, k as nat, dt, iw) is None
            && forall|j: nat| j < k ==> #[trigger] data_entry(t, h, j, dt, iw) is Some
    }
}

/// Reads a matrix in coordinate form from `t`: comment lines (starting with `%`) before the
/// header, the header `nrows ncols nvals`, then `nvals` data lines `row col` followed by the
/// value fields of the element type. An integer value must be an optional sign and decimal
/// digits that fit the width `iw`. Each value comes back as the span of its field in `t`. A
/// text without a header gives the empty matrix.
pub fn from_text(t: &[u8], data_type: DataType, iw: IntWidth) -> (r: Result<Matrix<Span, Span>, ParseError>)
    ensures
        parse_result(t@, data_type, r, iw),
{
    let n = t.len();
    let h = skip_comment_lines(t);
    if h >= n {
        return Ok(Matrix::empty(data_type));
    }
    let he = find_line_end(t, h);
    let (nrows, ncols, nvals) = match parse_header(t, h, he) {
        Some(x) => x,
        None => return Err(ParseError::Header),
    };
    let mut rows: Vec<usize> = Vec::new();
    let mut cols: Vec<usize> = Vec::new();
    let mut vals: MatrixData<Span, Span> = MatrixData::new(data_type);
    let mut p: usize = if he < n { he + 1 } else { n };
    let mut k: usize = 0;
    proof {
        assert(data_line(t@, h as int, 0) == he + 1);
    }
    while k < nvals
        invariant
            n == t@.len(),
            h < n,
            h as int == skip_comments(t@, 0),
            header_of(t@, h as int, he as int) == Some((nrows, ncols, nvals)),
            he == line_end(t@, h as int),
            k <= nvals,
            p <= n,
            p < n ==> p == data_line(t@, h as int, k as nat),
            p >= n ==> data_line(t@, h as int, k as nat) >= n,
            rows@.len() == k,
            cols@.len() == k,
            vals.has_len(k as nat),
            vals.data_type() == data_type,
            forall|j: nat| j < k ==> #[trigger] data_entry(t@, h as int, j, data_type, iw) == Some(
                (rows@[j as int], cols@[j as int], vals.value(j as int)),
            ),
        decreases nvals - k,
    {
        if p >= n {
            proof {
                assert(data_entry(t@, h as int, k as nat, data_type, iw) is None);
                assert(header_of(t@, h as int, line_end(t@, h as int)) == Some((nrows, ncols, nvals)));
                assert(!(forall|j: nat| j < nvals ==> #[trigger] data_entry(t@, h as int, j, data_type, iw) is Some));
            }
            return Err(ParseError::Entry(k));
        }
        let e = find_line_end(t, p);
        let (row, col, v) = match parse_entry(t, p, e, data_type, iw) {
            Some(x) => x,
            None => {
                proof {
                    assert(data_entry(t@, h as int, k as nat, data_type, iw) is None);
                    assert(header_of(t@, h as int, line_end(t@, h as int)) == Some((nrows, ncols, nvals)));
                    assert(!(forall|j: nat| j < nvals ==> #[trigger] data_entry(t@, h as int, j, data_type, iw) is Some));
                }
                return Err(ParseError::Entry(k));
            },
        };
        proof {
            lemma_line_start_next(t@, he + 1, k as nat);
        }
        let ghost old_vals = vals;
        rows.push(row);
        cols.push(col);
        vals.push(v, Ghost(k as nat));
        if e < n {
            p = e + 1;
        } else {
            p = n;
            proof {
                lemma_line_start_next(t@, he + 1, (k + 1) as nat);
            }
        }
        k += 1;
        proof {
            assert forall|j: nat| j < k implies #[trigger] data_entry(t@, h as int, j, data_type, iw) == Some(
                (rows@[j as int], cols@[j as int], vals.value(j as int)),
            ) by {
                if j < k - 1 {
                    assert(old_vals.value(j as int) == vals.value(j as int));
                }
            }
        }
    }
    match Matrix::from_parts(nrows, ncols, rows, cols, vals) {
        Some(m) => {
            proof {
                assert forall|j: int| 0 <= j < nvals implies #[trigger] m.entries()[j] == data_entry(t@, h as int, j as nat, data_type, iw)->0 by {
                    assert(data_entry(t@, h as int, j as nat, data_type, iw) is Some);
                }
                assert forall|j: int, i: int| 0 <= j < m.entries().len() && 0 <= i < crate::writer::value_spans(m.entries()[j].2).len() implies crate::writer::is_field(
                    t@,
                    #[trigger] crate::writer::value_spans(m.entries()[j].2)[i],
                ) by {
                    let d = data_entry(t@, h as int, j as nat, data_type, iw);
                    assert(d is Some);
                    let st = data_line(t@, h as int, j as nat);
                    lemma_line_end_after(t@, st);
                    lemma_entry_fields(t@, st, line_end(t@, st), data_type, iw);
                }
            }
            Ok(m)
        },
        None => Err(ParseError::Header),
    }
}

/// Relies on rayon's `par_iter`, `map` and `collect` into a `Vec`: each line is parsed by
/// `parse_entry` on a pool of threads, and the results come back in line order.
#[verifier::external_body]
fn par_parse_entries(t: &[u8], lines: &Vec<Span>, data_type: DataType, iw: IntWidth) -> (r: Vec<Option<Entry<Span, Span>>>)
    requires
        forall|i: int| 0 <= i < lines@.len() ==> (#[trigger] lines@[i]).0 <= lines@[i].1 <= t@.len(),
    ensures
        r@.len() == lines@.len(),
        forall|i: int| 0 <= i < lines@.len() ==> #[trigger] r@[i] == entry_of(t@, lines@[i].0 as int, lines@[i].1 as int, data_type, iw),
{
    lines.par_iter().map(|&(s, e)| parse_entry(t, s, e, data_type, iw)).collect()
}

/// Reads a matrix in coordinate form from `t`, as `from_text` does, parsing the data lines on a
/// pool of threads: the lines are located first (each starts where the one before ends), then
/// parsed concurrently, then gathered in order.
pub fn from_text_par(t: &[u8], data_type: DataType, iw: IntWidth) -> (r: Result<Matrix<Span, Span>, ParseError>)
    ensures
        parse_result(t@, data_type, r, iw),
{
    let n = t.len();
    let h = skip_comment_lines(t);
    if h >= n {
        return Ok(Matrix::empty(data_type));
    }
    let he = find_line_end(t, h);
    let (nrows, ncols, nvals) = match parse_header(t, h, he) {
        Some(x) => x,
        None => return Err(ParseError::Header),
    };
    let mut lines: Vec<Span> = Vec::new();
    let mut p: usize = if he < n { he + 1 } else { n };
    let mut k: usize = 0;
    proof {
        assert(data_line(t@, h as int, 0) == he + 1);
    }
    while k < nvals && p < n
        invariant
            n == t@.len(),
            h < n,
            h as int == skip_comments(t@, 0),
            header_of(t@, h as int, he as int) == Some((nrows, ncols, nvals)),
            he == line_end(t@, h as int),
            k <= nvals,
            p <= n,
            p < n ==> p == data_line(t@, h as int, k as nat),
            p >= n ==> data_line(t@, h as int, k as nat) >= n,
            lines@.len() == k,
            forall|j: int| 0 <= j < k ==> {
                &&& (#[trigger] lines@[j]).0 == data_line(t@, h as int, j as nat)
                &&& lines@[j].1 == line_end(t@, lines@[j].0 as int)
                &&& lines@[j].0 <= lines@[j].1 <= n
                &&& lines@[j].0 < n
            },
        decreases nvals - k,
    {
        let e = find_line_end(t, p);
        lines.push((p, e));
        proof {
            lemma_line_start_next(t@, he + 1, k as nat);
        }
        if e < n {
            p = e + 1;
        } else {
            p = n;
            proof {
                lemma_line_start_next(t@, he + 1, (k + 1) as nat);
            }
        }
        k += 1;
    }
    let found = k;
    let parsed = par_parse_entries(t, &lines, data_type, iw);
    let mut rows: Vec<usize> = Vec::new();
    let mut cols: Vec<usize> = Vec::new();
    let mut vals: MatrixData<Span, Span> = MatrixData::new(data_type);
    let mut j: usize = 0;
    while j < found
        invariant
            n == t@.len(),
            h < n,
            h as int == skip_comments(t@, 0),
            header_of(t@, h as int, he as int) == Some((nrows, ncols, nvals)),
            he == line_end(t@, h as int),
            found <= nvals,
            found < nvals ==> data_line(t@, h as int, found as nat) >= n,
            lines@.len() == found,
            parsed@.len() == found,
            forall|i: int| 0 <= i < found ==> #[trigger] parsed@[i] == data_entry(t@, h as int, i as nat, data_type, iw),
            j <= found,
            rows@.len() == j,
            cols@.len() == j,
            vals.has_len(j as nat),
            vals.data_type() == data_type,
            forall|i: nat| i < j ==> #[trigger] data_entry(t@, h as int, i, data_type, iw) == Some(
                (rows@[i as int], cols@[i as int], vals.value(i as int)),
            ),
        decreases found - j,
    {
        let (row, col, v) = match parsed[j] {
            Some(x) => x,
            None => {
                proof {
                    assert(data_entry(t@, h as int, j as nat, data_type, iw) is None);
                    assert(!(forall|i: nat| i < nvals ==> #[trigger] data_entry(t@, h as int, i, data_type, iw) is Some));
                }
                return Err(ParseError::Entry(j));
            },
        };
        let ghost old_vals = vals;
        rows.push(row);
        cols.push(col);
        vals.push(v, Ghost(j as nat));
        j += 1;
        proof {
            assert forall|i: nat| i < j implies #[trigger] data_entry(t@, h as int, i, data_type, iw) == Some(
                (rows@[i as int], cols@[i as int], vals.value(i as int)),
            ) by {
                if i < j - 1 {
                    assert(old_vals.value(i as int) == vals.value(i as int));
                }
            }
        }
    }
    if found < nvals {
        proof {
            assert(data_entry(t@, h as int, found as nat, data_type, iw) is None);
            assert(!(forall|i: nat| i < nvals ==> #[trigger] data_entry(t@, h as int, i, data_type, iw) is Some));
        }
        return Err(ParseError::Entry(found));
    }
    match Matrix::from_parts(nrows, ncols, rows, cols, vals) {
        Some(m) => {
            proof {
                assert forall|i: int| 0 <= i < nvals implies #[trigger] m.entries()[i] == data_entry(t@, h as int, i as nat, data_type, iw)->0 by {
                    assert(data_entry(t@, h as int, i as nat, data_type, iw) is Some);
                }
                assert forall|i: int, q: int| 0 <= i < m.entries().len() && 0 <= q < crate::writer::value_spans(m.entries()[i].2).len() implies crate::writer::is_field(
                    t@,
                    #[trigger] crate::writer::value_spans(m.entries()[i].2)[q],
                ) by {
                    assert(data_entry(t@, h as int, i as nat, data_type, iw) is Some);
                    let st = data_line(t@, h as int, i as nat);
                    lemma_line_end_after(t@, st);
                    lemma_entry_fields(t@, st, line_end(t@, st), data_type, iw);
                }
            }
            Ok(m)
        },
        None => Err(ParseError::Header),
    }
}

/// Whether `t[s..e]` is a non-empty run of decimal digits that spells at most `limit`.
fn digits_upto(t: &[u8], s: usize, e: usize, limit: u64) -> (r: bool)
    requires
        s <= e <= t@.len(),
    ensures
        r == ({
            let w = t@.subrange(s as int, e as int);
            w.len() > 0 && (forall|i: int| 0 <= i < w.len() ==> is_digit(#[trigger] w[i])) && digits_value(w) <= limit
        }),
{
    let ghost w = t@.subrange(s as int, e as int);
    if s == e {
        return false;
    }
    let mut v: u64 = 0;
    let mut i: usize = s;
    while i < e
        invariant
            s <= i <= e <= t@.len(),
            w == t@.subrange(s as int, e as int),
            forall|k: int| s <= k < i ==> is_digit(#[trigger] t@[k]),
            v as nat == digits_value(t@.subrange(s as int, i as int)),
            v <= limit,
        decreases e - i,
    {
        let b = t[i];
        if b < 0x30 || b > 0x39 {
            proof {
                assert(!is_digit(w[i - s]));
            }
            return false;
        }
        let d = (b - 0x30) as u64;
        proof {
            lemma_digits_push(t@.subrange(s as int, i as int), b);
            assert(t@.subrange(s as int, i as int).push(b) =~= t@.subrange(s as int, i + 1));
        }
        if d > limit || v > (limit - d) / 10 {
            proof {
                assert(forall|k: int| s <= k < i + 1 ==> is_digit(#[trigger] t@[k]));
                if forall|k: int| 0 <= k < w.len() ==> is_digit(#[trigger] w[k]) {
                    lemma_digits_prefix_bound(w, (i + 1 - s) as int);
                    assert(t@.subrange(s as int, i + 1) =~= w.subrange(0, (i + 1 - s) as int));
                }
                if d <= limit {
                    assert(v * 10 + d > limit) by (nonlinear_arith)
                        requires
                            v > (limit - d) / 10,
                            d <= limit,
                    ;
                }
            }
            return false;
        }
        proof {
            assert(v * 10 + d <= limit) by (nonlinear_arith)
                requires
                    v <= (limit - d) / 10,
                    d <= limit,
            ;
        }
        v = v * 10 + d;
        i += 1;
    }
    proof {
        assert(t@.subrange(s as int, e as int) =~= w);
        assert forall|k: int| 0 <= k < w.len() implies is_digit(#[trigger] w[k]) by {
            assert(w[k] == t@[s + k]);
        }
    }
    true
}

/// Whether the field `f` of `t` is a decimal integer of width `iw`.
fn int_field_fits(t: &[u8], f: Span, iw: IntWidth) -> (r: bool)
    requires
        f.0 <= f.1 <= t@.len(),
    ensures
        r == int_fits(span_bytes(t@, f), iw),
{
    let ghost x = span_bytes(t@, f);
    if f.0 == f.1 {
        proof {
            assert(x.subrange(sign_len(x), x.len() as int).len() == 0);
        }
        return false;
    }
    let c = t[f.0];
    let negative = c == 0x2d;
    let start = if c == 0x2d || c == 0x2b { f.0 + 1 } else { f.0 };
    let limit: u64 = match iw {
        IntWidth::I32 => if negative { 0x8000_0000 } else { 0x7fff_ffff },
        IntWidth::I64 => if negative { 0x8000_0000_0000_0000 } else { 0x7fff_ffff_ffff_ffff },
    };
    proof {
        assert(x[0] == c);
        assert(x.subrange(sign_len(x), x.len() as int) =~= t@.subrange(start as int, f.1 as int));
    }
    digits_upto(t, start, f.1, limit)
}

/// A prefix of a digit string spells no more than the whole string.
proof fn lemma_digits_prefix_bound(w: Seq<u8>, k: int)
    requires
        0 <= k <= w.len(),
        forall|i: int| 0 <= i < w.len() ==> is_digit(#[trigger] w[i]),
    ensures
        digits_value(w.subrange(0, k)) <= digits_value(w),
    decreases w.len() - k,
{
    if k < w.len() {
        lemma_digits_prefix_bound(w, k + 1);
        lemma_digits_push(w.subrange(0, k), w[k]);
        assert(w.subrange(0, k).push(w[k]) =~= w.subrange(0, k + 1));
    } else {
        assert(w.subrange(0, k) =~= w);
    }
}

} // verus!
