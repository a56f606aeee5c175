use vstd::prelude::*;
use crate::matrix::{DataType, Entry, Matrix, Value};
use crate::reader::{
    data_entry, data_line, digits_value, fields, header_of, is_digit, is_ws, line_end, line_start, skip_comments, span_bytes,
    usize_of, int_fits, IntWidth, Span,
};

verus! {

/// The decimal digits of `v`, most significant first, without leading zeros.
pub open spec fn dec(v: nat) -> Seq<u8>
    decreases v,
{
    if v < 10 {
        seq![(0x30 + v) as u8]
    } else {
        dec(v / 10).push((0x30 + v % 10) as u8)
    }
}

/// The decimal digits of `v` are digits and spell `v`.
pub proof fn lemma_dec(v: nat)
    ensures
        dec(v).len() > 0,
        forall|i: int| 0 <= i < dec(v).len() ==> is_digit(#[trigger] dec(v)[i]),
        digits_value(dec(v)) == v,
    decreases v,
{
    if v < 10 {
        assert(dec(v).drop_last() =~= Seq::<u8>::empty());
        assert(digits_value(Seq::<u8>::empty()) == 0);
    } else {
        lemma_dec(v / 10);
        assert(dec(v).drop_last() =~= dec(v / 10));
        let d = v % 10;
        assert(d < 10);
        assert(dec(v).last() == (0x30 + d) as u8);
        assert(((0x30 + d) as u8 - 0x30) as nat == d);
        vstd::arithmetic::div_mod::lemma_fundamental_div_mod(v as int, 10);
    }
}

/// Writing a `usize` in decimal and reading it back gives it again.
pub proof fn lemma_dec_round_trip(v: usize)
    ensures
        usize_of(dec(v as nat)) == Some(v),
{
    lemma_dec(v as nat);
}

/// The value fields that a value names.
pub open spec fn value_spans(v: Value<Span, Span>) -> Seq<Span> {
    match v {
        Value::Real(x) => seq![x],
        Value::Complex(x, y) => seq![x, y],
        Value::Integer(x) => seq![x],
        Value::Bool => Seq::empty(),
    }
}

/// The text of the value fields that a value names in `t`.
pub open spec fn value_text(t: Seq<u8>, v: Value<Span, Span>) -> Seq<Seq<u8>> {
    value_spans(v).map_values(|f: Span| span_bytes(t, f))
}

/// `v2` in `w` is the value `v1` in `t`: the same kind, with fields of the same text.
pub open spec fn same_value(w: Seq<u8>, v2: Value<Span, Span>, t: Seq<u8>, v1: Value<Span, Span>) -> bool {
    &&& v2 is Real <==> v1 is Real
    &&& v2 is Complex <==> v1 is Complex
    &&& v2 is Integer <==> v1 is Integer
    &&& v2 is Bool <==> v1 is Bool
    &&& value_text(w, v2) == value_text(t, v1)
}

/// The entry `d` read from `w` is the entry `e` of `t`: the same row and column, and the same
/// value.
pub open spec fn entry_matches(w: Seq<u8>, d: Entry<Span, Span>, t: Seq<u8>, e: Entry<Span, Span>) -> bool {
    &&& d.0 == e.0
    &&& d.1 == e.1
    &&& same_value(w, d.2, t, e.2)
}

/// A field of `t`: non-empty, inside `t`, and free of whitespace.
pub open spec fn is_field(t: Seq<u8>, f: Span) -> bool {
    &&& f.0 < f.1 <= t.len()
    &&& forall|i: int| f.0 <= i < f.1 ==> !is_ws(#[trigger] t[i])
}

/// Every value of the entries names fields of `t`.
pub open spec fn fields_in(t: Seq<u8>, es: Seq<Entry<Span, Span>>) -> bool {
    forall|k: int, j: int| 0 <= k < es.len() && 0 <= j < value_spans(es[k].2).len() ==> is_field(t, #[trigger] value_spans(es[k].2)[j])
}

/// Every integer value of the entries names a field of `t` that is an integer of width `iw`.
pub open spec fn ints_fit(t: Seq<u8>, es: Seq<Entry<Span, Span>>, iw: IntWidth) -> bool {
    forall|k: int| 0 <= k < es.len() ==> match (#[trigger] es[k]).2 {
        Value::Integer(x) => int_fits(span_bytes(t, x), iw),
        _ => true,
    }
}

/// A part of a line: non-empty and free of whitespace.
pub open spec fn is_part(x: Seq<u8>) -> bool {
    x.len() > 0 && forall|i: int| 0 <= i < x.len() ==> !is_ws(#[trigger] x[i])
}

/// The parts joined by single spaces.
pub open spec fn joined(parts: Seq<Seq<u8>>) -> Seq<u8>
    decreases parts.len(),
{
    if parts.len() == 0 {
        Seq::empty()
    } else if parts.len() == 1 {
        parts[0]
    } else {
        parts[0] + seq![0x20u8] + joined(parts.drop_first())
    }
}

/// Where the parts lie when they are joined from position `p`.
pub open spec fn joined_spans(p: int, parts: Seq<Seq<u8>>) -> Seq<Span>
    decreases parts.len(),
{
    if parts.len() == 0 {
        Seq::empty()
    } else {
        seq![(p as usize, (p + parts[0].len()) as usize)] + joined_spans(p + parts[0].len() + 1, parts.drop_first())
    }
}

/// The parts of the line of entry `e`: its row, its column, then the text of its value fields.
pub open spec fn line_parts(t: Seq<u8>, e: Entry<Span, Span>) -> Seq<Seq<u8>> {
    seq![dec(e.0 as nat), dec(e.1 as nat)] + value_text(t, e.2)
}

/// The parts of the header line: `nrows ncols nvals`.
pub open spec fn header_parts(nr: usize, nc: usize, nv: nat) -> Seq<Seq<u8>> {
    seq![dec(nr as nat), dec(nc as nat), dec(nv)]
}

/// The header line.
pub open spec fn header_line(nr: usize, nc: usize, nv: nat) -> Seq<u8> {
    joined(header_parts(nr, nc, nv)).push(0x0a)
}

/// The line of entry `e`.
pub open spec fn entry_line(t: Seq<u8>, e: Entry<Span, Span>) -> Seq<u8> {
    joined(line_parts(t, e)).push(0x0a)
}

/// The lines of the entries, in order.
pub open spec fn body(t: Seq<u8>, es: Seq<Entry<Span, Span>>) -> Seq<u8>
    decreases es.len(),
{
    if es.len() == 0 {
        Seq::empty()
    } else {
        body(t, es.drop_last()) + entry_line(t, es.last())
    }
}

/// The text that a matrix of the given dimensions and entries is written as, the value fields
/// copied from `t`.
pub open spec fn written(t: Seq<u8>, nr: usize, nc: usize, es: Seq<Entry<Span, Span>>) -> Seq<u8> {
    header_line(nr, nc, es.len()) + body(t, es)
}

/// The lines of two runs of entries, one after the other.
proof fn lemma_body_append(t: Seq<u8>, a: Seq<Entry<Span, Span>>, b: Seq<Entry<Span, Span>>)
    ensures
        body(t, a + b) == body(t, a) + body(t, b),
    decreases b.len(),
{
    if b.len() == 0 {
        assert(a + b =~= a);
        assert(body(t, a) + body(t, b) =~= body(t, a));
    } else {
        lemma_body_append(t, a, b.drop_last());
        assert((a + b).drop_last() =~= a + b.drop_last());
        assert(body(t, a) + body(t, b) =~= body(t, a) + body(t, b.drop_last()) + entry_line(t, b.last()));
    }
}

/// The first position at or after `p` that is whitespace (or `e`) is `q`.
proof fn lemma_token_end(w: Seq<u8>, p: int, e: int, q: int)
    requires
        0 <= p <= q <= e <= w.len(),
        forall|i: int| p <= i < q ==> !is_ws(#[trigger] w[i]),
        q == e || is_ws(w[q]),
    ensures
        crate::reader::token_end(w, p, e) == q,
    decreases q - p,
{
    if p < q {
        lemma_token_end(w, p + 1, e, q);
    }
}

/// The fields of parts joined by single spaces are the parts.
proof fn lemma_fields_joined(w: Seq<u8>, p: int, parts: Seq<Seq<u8>>)
    requires
        parts.len() > 0,
        forall|i: int| 0 <= i < parts.len() ==> is_part(#[trigger] parts[i]),
        0 <= p,
        p + joined(parts).len() <= w.len(),
        w.len() <= usize::MAX,
        w.subrange(p, p + joined(parts).len()) == joined(parts),
    ensures
        fields(w, p, p + joined(parts).len()) == joined_spans(p, parts),
    decreases parts.len(),
{
    let e = p + joined(parts).len();
    let x = parts[0];
    let q = p + x.len();
    assert(is_part(x));
    assert(joined(parts).subrange(0, x.len() as int) =~= x);
    assert forall|i: int| p <= i < q implies !is_ws(#[trigger] w[i]) by {
        assert(w[i] == w.subrange(p, e)[i - p]);
        assert(x[i - p] == joined(parts)[i - p]);
    }
    assert(w[p] == x[0]);
    assert(crate::reader::skip_ws(w, p, e) == p);
    if parts.len() == 1 {
        lemma_token_end(w, p, e, q);
        assert(fields(w, e, e) =~= Seq::<Span>::empty());
        assert(joined_spans(q + 1, parts.drop_first()) =~= Seq::<Span>::empty());
    } else {
        let rest = parts.drop_first();
        assert(joined(parts) == x + seq![0x20u8] + joined(rest));
        assert(w[q] == joined(parts)[x.len() as int]);
        assert(w[q] == 0x20);
        lemma_token_end(w, p, e, q);
        assert(forall|i: int| 0 <= i < rest.len() ==> is_part(#[trigger] rest[i])) by {
            assert forall|i: int| 0 <= i < rest.len() implies is_part(#[trigger] rest[i]) by {
                assert(rest[i] == parts[i + 1]);
            }
        }
        assert(e == q + 1 + joined(rest).len());
        assert(w.subrange(q + 1, e) =~= joined(rest)) by {
            assert forall|i: int| 0 <= i < joined(rest).len() implies #[trigger] w.subrange(q + 1, e)[i] == joined(rest)[i] by {
                assert(w[q + 1 + i] == w.subrange(p, e)[x.len() + 1 + i]);
                assert(joined(parts)[x.len() + 1 + i] == joined(rest)[i]);
            }
        }
        lemma_fields_joined(w, q + 1, rest);
        assert(is_part(rest[0]));
        assert(w[q + 1] == rest[0][0]) by {
            assert(w.subrange(q + 1, e)[0] == joined(rest)[0]);
            if rest.len() > 1 {
                assert(joined(rest) == rest[0] + seq![0x20u8] + joined(rest.drop_first()));
            }
        }
        assert(crate::reader::skip_ws(w, q + 1, e) == q + 1);
        assert(crate::reader::skip_ws(w, q, e) == q + 1);
        assert(fields(w, q, e) == fields(w, q + 1, e));
    }
}

/// The line that starts at `p` ends at the first line feed.
proof fn lemma_line_end_at(w: Seq<u8>, p: int, q: int)
    requires
        0 <= p <= q < w.len(),
        forall|i: int| p <= i < q ==> #[trigger] w[i] != 0x0a,
        w[q] == 0x0a,
    ensures
        line_end(w, p) == q,
    decreases q - p,
{
    if p < q {
        lemma_line_end_at(w, p + 1, q);
    }
}

/// The spans of joined parts hold the parts.
proof fn lemma_joined_text(w: Seq<u8>, p: int, parts: Seq<Seq<u8>>)
    requires
        0 <= p,
        p + joined(parts).len() <= w.len(),
        w.len() <= usize::MAX,
        w.subrange(p, p + joined(parts).len()) == joined(parts),
    ensures
        joined_spans(p, parts).len() == parts.len(),
        forall|i: int| 0 <= i < parts.len() ==> #[trigger] span_bytes(w, joined_spans(p, parts)[i]) == parts[i],
    decreases parts.len(),
{
    if parts.len() > 0 {
        let x = parts[0];
        let rest = parts.drop_first();
        let q = p + x.len();
        assert(span_bytes(w, joined_spans(p, parts)[0]) =~= x) by {
            assert forall|i: int| 0 <= i < x.len() implies w[p + i] == #[trigger] x[i] by {
                assert(w[p + i] == w.subrange(p, p + joined(parts).len())[i]);
                if parts.len() > 1 {
                    assert(joined(parts) == x + seq![0x20u8] + joined(rest));
                }
                assert(joined(parts)[i] == x[i]);
            }
        }
        if parts.len() > 1 {
            assert(joined(parts) == x + seq![0x20u8] + joined(rest));
            let e = p + joined(parts).len();
            assert(w.subrange(q + 1, q + 1 + joined(rest).len()) =~= joined(rest)) by {
                assert forall|i: int| 0 <= i < joined(rest).len() implies #[trigger] w.subrange(q + 1, q + 1 + joined(rest).len())[i] == joined(rest)[i] by {
                    assert(w[q + 1 + i] == w.subrange(p, e)[x.len() + 1 + i]);
                }
            }
            lemma_joined_text(w, q + 1, rest);
            assert forall|i: int| 0 <= i < parts.len() implies #[trigger] span_bytes(w, joined_spans(p, parts)[i]) == parts[i] by {
                if i > 0 {
                    assert(joined_spans(p, parts)[i] == joined_spans(q + 1, rest)[i - 1]);
                }
            }
        } else {
            assert(joined_spans(q + 1, rest) =~= Seq::<Span>::empty());
        }
    }
}

/// Joined parts hold no line feed.
proof fn lemma_joined_no_newline(parts: Seq<Seq<u8>>)
    requires
        forall|i: int| 0 <= i < parts.len() ==> is_part(#[trigger] parts[i]),
    ensures
        forall|i: int| 0 <= i < joined(parts).len() ==> #[trigger] joined(parts)[i] != 0x0a,
    decreases parts.len(),
{
    if parts.len() > 1 {
        let rest = parts.drop_first();
        assert forall|i: int| 0 <= i < rest.len() implies is_part(#[trigger] rest[i]) by {
            assert(rest[i] == parts[i + 1]);
        }
        lemma_joined_no_newline(rest);
        let x = parts[0];
        assert(is_part(x));
        assert forall|i: int| 0 <= i < joined(parts).len() implies #[trigger] joined(parts)[i] != 0x0a by {
            if i < x.len() {
                assert(!is_ws(x[i]));
            } else if i > x.len() {
                assert(joined(parts)[i] == joined(rest)[i - x.len() - 1]);
            }
        }
    } else if parts.len() == 1 {
        assert(is_part(parts[0]));
        assert forall|i: int| 0 <= i < joined(parts).len() implies #[trigger] joined(parts)[i] != 0x0a by {
            assert(!is_ws(parts[0][i]));
        }
    }
}

/// A line of joined parts at `p`: where it ends, its fields, and their text.
proof fn lemma_line(w: Seq<u8>, p: int, parts: Seq<Seq<u8>>)
    requires
        parts.len() > 0,
        forall|i: int| 0 <= i < parts.len() ==> is_part(#[trigger] parts[i]),
        0 <= p,
        p + joined(parts).len() < w.len(),
        w.len() <= usize::MAX,
        w.subrange(p, p + joined(parts).len() + 1) == joined(parts).push(0x0a),
    ensures
        line_end(w, p) == p + joined(parts).len(),
        fields(w, p, line_end(w, p)) == joined_spans(p, parts),
        joined_spans(p, parts).len() == parts.len(),
        forall|i: int| 0 <= i < parts.len() ==> #[trigger] span_bytes(w, joined_spans(p, parts)[i]) == parts[i],
{
    let n = joined(parts).len() as int;
    lemma_joined_no_newline(parts);
    assert(w.subrange(p, p + n) =~= joined(parts)) by {
        assert forall|i: int| 0 <= i < n implies #[trigger] w.subrange(p, p + n)[i] == joined(parts)[i] by {
            assert(w[p + i] == w.subrange(p, p + n + 1)[i]);
        }
    }
    assert forall|i: int| p <= i < p + n implies #[trigger] w[i] != 0x0a by {
        assert(w[i] == joined(parts)[i - p]);
    }
    assert(w[p + n] == w.subrange(p, p + n + 1)[n]);
    lemma_line_end_at(w, p, p + n);
    lemma_fields_joined(w, p, parts);
    lemma_joined_text(w, p, parts);
}

/// The text of the fields of a value, as parts.
proof fn lemma_value_parts(t: Seq<u8>, v: Value<Span, Span>)
    requires
        forall|j: int| 0 <= j < value_spans(v).len() ==> is_field(t, #[trigger] value_spans(v)[j]),
    ensures
        forall|j: int| 0 <= j < value_text(t, v).len() ==> is_part(#[trigger] value_text(t, v)[j]),
        value_text(t, v).len() == value_spans(v).len(),
{
    assert forall|j: int| 0 <= j < value_text(t, v).len() implies is_part(#[trigger] value_text(t, v)[j]) by {
        let f = value_spans(v)[j];
        assert(is_field(t, f));
        let x = span_bytes(t, f);
        assert(value_text(t, v)[j] == x);
        assert forall|i: int| 0 <= i < x.len() implies !is_ws(#[trigger] x[i]) by {
            assert(x[i] == t[f.0 + i]);
        }
    }
}

/// The parts of an entry's line are parts.
proof fn lemma_line_parts(t: Seq<u8>, e: Entry<Span, Span>)
    requires
        forall|j: int| 0 <= j < value_spans(e.2).len() ==> is_field(t, #[trigger] value_spans(e.2)[j]),
    ensures
        forall|i: int| 0 <= i < line_parts(t, e).len() ==> is_part(#[trigger] line_parts(t, e)[i]),
        line_parts(t, e).len() == 2 + value_spans(e.2).len(),
{
    lemma_value_parts(t, e.2);
    lemma_dec(e.0 as nat);
    lemma_dec(e.1 as nat);
    let ps = line_parts(t, e);
    assert forall|i: int| 0 <= i < ps.len() implies is_part(#[trigger] ps[i]) by {
        if i == 0 {
            assert(ps[0] == dec(e.0 as nat));
            assert forall|k: int| 0 <= k < ps[0].len() implies !is_ws(#[trigger] ps[0][k]) by {
                assert(is_digit(dec(e.0 as nat)[k]));
            }
        } else if i == 1 {
            assert(ps[1] == dec(e.1 as nat));
            assert forall|k: int| 0 <= k < ps[1].len() implies !is_ws(#[trigger] ps[1][k]) by {
                assert(is_digit(dec(e.1 as nat)[k]));
            }
        } else {
            assert(ps[i] == value_text(t, e.2)[i - 2]);
        }
    }
}

/// A written text: the header line, then the lines of the first `k` entries, then the line of
/// entry `k`.
#[verifier::spinoff_prover]
proof fn lemma_written_split(t: Seq<u8>, nr: usize, nc: usize, es: Seq<Entry<Span, Span>>, k: int)
    requires
        0 <= k < es.len(),
    ensures
        ({
            let w = written(t, nr, nc, es);
            let s = (header_line(nr, nc, es.len()).len() + body(t, es.take(k)).len()) as int;
            &&& s + entry_line(t, es[k]).len() <= w.len()
            &&& w.subrange(s, s + entry_line(t, es[k]).len()) == entry_line(t, es[k])
            &&& body(t, es.take(k + 1)) == body(t, es.take(k)) + entry_line(t, es[k])
        }),
{
    let h = header_line(nr, nc, es.len());
    let a = es.take(k);
    let b = es.skip(k);
    assert(a + b =~= es);
    lemma_body_append(t, a, b);
    let one = seq![es[k]];
    let rest = es.skip(k + 1);
    assert(one + rest =~= b);
    lemma_body_append(t, one, rest);
    assert(one.drop_last() =~= Seq::<Entry<Span, Span>>::empty());
    assert(body(t, one.drop_last()) =~= Seq::<u8>::empty());
    assert(one.last() == es[k]);
    let line = entry_line(t, es[k]);
    assert(body(t, one) =~= line);
    let tail = body(t, rest);
    let w = written(t, nr, nc, es);
    let ba = body(t, a);
    assert(body(t, b) == line + tail);
    assert(body(t, es) == ba + (line + tail));
    assert(w == h + (ba + (line + tail)));
    let s = (h.len() + ba.len()) as int;
    assert forall|i: int| 0 <= i < line.len() implies #[trigger] w.subrange(s, s + line.len())[i] == line[i] by {
        assert(w[s + i] == (ba + (line + tail))[ba.len() + i]);
        assert((ba + (line + tail))[ba.len() + i] == (line + tail)[i]);
    }
    assert(w.subrange(s, s + line.len()) =~= line);
    assert(es.take(k + 1).drop_last() =~= a);
}

/// Data line `k` of a written text starts after the header line and the lines of the first
/// `k` entries.
proof fn lemma_data_line(t: Seq<u8>, nr: usize, nc: usize, es: Seq<Entry<Span, Span>>, k: nat)
    requires
        fields_in(t, es),
        k < es.len(),
        written(t, nr, nc, es).len() <= usize::MAX,
    ensures
        data_line(written(t, nr, nc, es), 0, k) == header_line(nr, nc, es.len()).len() + body(t, es.take(k as int)).len(),
    decreases k,
{
    let w = written(t, nr, nc, es);
    let h = header_line(nr, nc, es.len());
    let hp = header_parts(nr, nc, es.len());
    lemma_header_line(nr, nc, es.len());
    assert(w.subrange(0, joined(hp).len() + 1 as int) =~= h);
    lemma_line(w, 0, hp);
    if k == 0 {
        assert(es.take(0) =~= Seq::<Entry<Span, Span>>::empty());
        assert(data_line(w, 0, 0) == line_start(w, line_end(w, 0) + 1, 0));
    } else {
        let j = (k - 1) as nat;
        lemma_data_line(t, nr, nc, es, j);
        lemma_written_split(t, nr, nc, es, j as int);
        let s = (h.len() + body(t, es.take(j as int)).len()) as int;
        assert(forall|j2: int, i: int| 0 <= j2 < es.len() && 0 <= i < value_spans(es[j2].2).len() ==> is_field(t, #[trigger] value_spans(es[j2].2)[i]));
        lemma_line_parts(t, es[j as int]);
        let parts = line_parts(t, es[j as int]);
        assert(entry_line(t, es[j as int]) == joined(parts).push(0x0a));
        lemma_line(w, s, parts);
        crate::reader::lemma_line_start_next(w, line_end(w, 0) + 1, j);
    }
}

/// The header line's parts are parts.
proof fn lemma_header_line(nr: usize, nc: usize, nv: nat)
    ensures
        header_parts(nr, nc, nv).len() == 3,
        forall|i: int| 0 <= i < 3 ==> is_part(#[trigger] header_parts(nr, nc, nv)[i]),
{
    lemma_dec(nr as nat);
    lemma_dec(nc as nat);
    lemma_dec(nv);
    let hp = header_parts(nr, nc, nv);
    assert forall|i: int| 0 <= i < 3 implies is_part(#[trigger] hp[i]) by {
        assert forall|k: int| 0 <= k < hp[i].len() implies !is_ws(#[trigger] hp[i][k]) by {
            assert(is_digit(hp[i][k]));
        }
    }
}

/// Writing entries whose values are fields of `t`, then reading the text back, gives the same
/// header and, entry by entry, the same row, the same column and value fields of the same text.
pub proof fn lemma_write_then_read(t: Seq<u8>, nr: usize, nc: usize, es: Seq<Entry<Span, Span>>, dt: DataType, iw: IntWidth)
    requires
        fields_in(t, es),
        ints_fit(t, es, iw),
        forall|k: int| 0 <= k < es.len() ==> (#[trigger] es[k]).2.kind() == dt,
        es.len() <= usize::MAX,
        written(t, nr, nc, es).len() <= usize::MAX,
    ensures
        ({
            let w = written(t, nr, nc, es);
            &&& 0 < w.len()
            &&& skip_comments(w, 0) == 0
            &&& header_of(w, 0, line_end(w, 0)) == Some((nr, nc, es.len() as usize))
            &&& forall|k: nat| k < es.len() ==> {
                &&& #[trigger] data_entry(w, 0, k, dt, iw) is Some
                &&& entry_matches(w, data_entry(w, 0, k, dt, iw)->0, t, es[k as int])
            }
        }),
{
    let w = written(t, nr, nc, es);
    let h = header_line(nr, nc, es.len());
    let hp = header_parts(nr, nc, es.len());
    lemma_header_line(nr, nc, es.len());
    assert(w.subrange(0, joined(hp).len() + 1 as int) =~= h);
    lemma_line(w, 0, hp);
    lemma_dec_round_trip(nr);
    lemma_dec_round_trip(nc);
    lemma_dec_round_trip(es.len() as usize);
    assert(w[0] == hp[0][0]) by {
        assert(w[0] == w.subrange(0, joined(hp).len() + 1 as int)[0]);
        assert(joined(hp) == hp[0] + seq![0x20u8] + joined(hp.drop_first()));
    }
    assert(is_part(hp[0]));
    lemma_dec(nr as nat);
    assert(is_digit(hp[0][0]));
    assert(skip_comments(w, 0) == 0);
    assert forall|k: nat| k < es.len() implies {
        &&& #[trigger] data_entry(w, 0, k, dt, iw) is Some
        &&& entry_matches(w, data_entry(w, 0, k, dt, iw)->0, t, es[k as int])
    } by {
        let ki = k as int;
        lemma_data_line(t, nr, nc, es, k);
        lemma_written_split(t, nr, nc, es, ki);
        let s = (h.len() + body(t, es.take(ki)).len()) as int;
        assert(forall|j2: int, i: int| 0 <= j2 < es.len() && 0 <= i < value_spans(es[j2].2).len() ==> is_field(t, #[trigger] value_spans(es[j2].2)[i]));
        let e = es[ki];
        lemma_line_parts(t, e);
        let parts = line_parts(t, e);
        lemma_line(w, s, parts);
        let f = fields(w, s, line_end(w, s));
        lemma_dec_round_trip(e.0);
        lemma_dec_round_trip(e.1);
        assert(span_bytes(w, f[0]) == parts[0]);
        assert(span_bytes(w, f[1]) == parts[1]);
        assert(e.2.kind() == dt);
        let v2 = crate::reader::value_of(dt, f);
        assert(value_text(w, v2) =~= value_text(t, e.2)) by {
            match e.2 {
                Value::Real(x) => {
                    assert(span_bytes(w, f[2]) == parts[2]);
                },
                Value::Complex(x, y) => {
                    assert(span_bytes(w, f[2]) == parts[2]);
                    assert(span_bytes(w, f[3]) == parts[3]);
                },
                Value::Integer(x) => {
                    assert(span_bytes(w, f[2]) == parts[2]);
                },
                Value::Bool => {},
            }
        }
        if dt == DataType::Integer {
            assert(es[ki].2 is Integer);
            assert(span_bytes(w, f[2]) == parts[2]);
            assert(int_fits(span_bytes(w, f[2]), iw));
        }
    }
}

/// Writing a matrix read from `t` and reading the text back gives the same dimensions, rows,
/// columns and value text: the law of a round trip through the coordinate form.
pub proof fn lemma_round_trip(t: Seq<u8>, m: Matrix<Span, Span>, iw: IntWidth)
    requires
        m.wf(),
        fields_in(t, m.entries()),
        ints_fit(t, m.entries(), iw),
        written(t, m.row_count(), m.col_count(), m.entries()).len() <= usize::MAX,
    ensures
        ({
            let w = written(t, m.row_count(), m.col_count(), m.entries());
            &&& 0 < w.len()
            &&& skip_comments(w, 0) == 0
            &&& header_of(w, 0, line_end(w, 0)) == Some((m.row_count(), m.col_count(), m.entry_count()))
            &&& forall|k: nat| k < m.entry_count() ==> {
                &&& #[trigger] data_entry(w, 0, k, m.data_type(), iw) is Some
                &&& entry_matches(w, data_entry(w, 0, k, m.data_type(), iw)->0, t, m.entries()[k as int])
            }
        }),
{
    m.lemma_value_kinds();
    m.lemma_entry_count();
    lemma_write_then_read(t, m.row_count(), m.col_count(), m.entries(), m.data_type(), iw);
}

/// A matrix without entries and with all dimensions 0 is written as the single line `0 0 0`.
pub proof fn lemma_empty_written(t: Seq<u8>)
    ensures
        written(t, 0, 0, Seq::<Entry<Span, Span>>::empty()) == seq![0x30u8, 0x20u8, 0x30u8, 0x20u8, 0x30u8, 0x0au8],
{
    let hp = header_parts(0, 0, 0);
    assert(dec(0) =~= seq![0x30u8]);
    assert(joined(hp.drop_first().drop_first()) == dec(0));
    assert(joined(hp.drop_first()) =~= seq![0x30u8, 0x20u8, 0x30u8]);
    assert(joined(hp) =~= seq![0x30u8, 0x20u8, 0x30u8, 0x20u8, 0x30u8]);
    assert(written(t, 0, 0, Seq::<Entry<Span, Span>>::empty()) =~= seq![0x30u8, 0x20u8, 0x30u8, 0x20u8, 0x30u8, 0x0au8]);
}

/// Appends the decimal digits of `v`.
fn push_dec(out: &mut Vec<u8>, v: usize)
    ensures
        final(out)@ == old(out)@ + dec(v as nat),
    decreases v,
{
    if v >= 10 {
        push_dec(out, v / 10);
    }
    let d = (v % 10) as u8;
    out.push(0x30 + d);
    proof {
        if v >= 10 {
            assert(dec(v as nat) == dec((v / 10) as nat).push((0x30 + v % 10) as u8));
        }
        assert(final(out)@ =~= old(out)@ + dec(v as nat));
    }
}

/// Appends a space, then the bytes of the field `f` of `t`.
fn push_field(out: &mut Vec<u8>, t: &[u8], f: Span)
    requires
        f.0 <= f.1 <= t@.len(),
    ensures
        final(out)@ == old(out)@ + seq![0x20u8] + span_bytes(t@, f),
{
    out.push(0x20);
    let mut i = f.0;
    while i < f.1
        invariant
            f.0 <= i <= f.1 <= t@.len(),
            out@ == old(out)@ + seq![0x20u8] + t@.subrange(f.0 as int, i as int),
        decreases f.1 - i,
    {
        out.push(t[i]);
        i += 1;
        proof {
            assert(out@ =~= old(out)@ + seq![0x20u8] + t@.subrange(f.0 as int, i as int));
        }
    }
}

/// Appends the line of the entry `(row, col, v)`.
#[verifier::rlimit(30)]
fn push_entry_line(out: &mut Vec<u8>, t: &[u8], row: usize, col: usize, v: Value<Span, Span>)
    requires
        forall|i: int| 0 <= i < value_spans(v).len() ==> is_field(t@, #[trigger] value_spans(v)[i]),
    ensures
        final(out)@ == old(out)@ + entry_line(t@, (row, col, v)),
{
    let ghost before = out@;
    let ghost e = (row, col, v);
    push_dec(out, row);
    out.push(0x20);
    push_dec(out, col);
    match v {
        Value::Real(x) => {
            assert(is_field(t@, value_spans(v)[0]));
            push_field(out, t, x);
        },
        Value::Complex(x, y) => {
            assert(is_field(t@, value_spans(v)[0]));
            assert(is_field(t@, value_spans(v)[1]));
            push_field(out, t, x);
            push_field(out, t, y);
        },
        Value::Integer(x) => {
            assert(is_field(t@, value_spans(v)[0]));
            push_field(out, t, x);
        },
        Value::Bool => {},
    }
    out.push(0x0a);
    proof {
        let ps = line_parts(t@, e);
        let a = dec(row as nat);
        let b = dec(col as nat);
        match v {
            Value::Real(x) => {
                let x1 = span_bytes(t@, x);
                assert(ps =~= seq![a, b, x1]);
                assert(joined(ps.drop_first().drop_first()) == x1);
                assert(joined(ps.drop_first()) =~= b + seq![0x20u8] + x1);
                assert(joined(ps) =~= a + seq![0x20u8] + b + seq![0x20u8] + x1);
            },
            Value::Complex(x, y) => {
                let x1 = span_bytes(t@, x);
                let y1 = span_bytes(t@, y);
                assert(ps =~= seq![a, b, x1, y1]);
                assert(joined(ps.drop_first().drop_first().drop_first()) == y1);
                assert(joined(ps.drop_first().drop_first()) =~= x1 + seq![0x20u8] + y1);
                assert(joined(ps.drop_first()) =~= b + seq![0x20u8] + x1 + seq![0x20u8] + y1);
                assert(joined(ps) =~= a + seq![0x20u8] + b + seq![0x20u8] + x1 + seq![0x20u8] + y1);
            },
            Value::Integer(x) => {
                let x1 = span_bytes(t@, x);
                assert(ps =~= seq![a, b, x1]);
                assert(joined(ps.drop_first().drop_first()) == x1);
                assert(joined(ps.drop_first()) =~= b + seq![0x20u8] + x1);
                assert(joined(ps) =~= a + seq![0x20u8] + b + seq![0x20u8] + x1);
            },
            Value::Bool => {
                assert(ps =~= seq![a, b]);
                assert(joined(ps.drop_first()) == b);
                assert(joined(ps) =~= a + seq![0x20u8] + b);
            },
        }
        assert(out@ =~= before + entry_line(t@, e));
    }
}

/// Writes the matrix in coordinate form: the header line `nrows ncols nvals`, then one line per
/// entry in its current order with its row, its column and the text of its value fields in `t`.
pub fn to_text(t: &[u8], m: &Matrix<Span, Span>) -> (r: Vec<u8>)
    requires
        m.wf(),
        fields_in(t@, m.entries()),
    ensures
        r@ == written(t@, m.row_count(), m.col_count(), m.entries()),
{
    let ghost es = m.entries();
    let n = m.nvals();
    proof {
        m.lemma_entry_count();
    }
    let mut out: Vec<u8> = Vec::new();
    push_dec(&mut out, m.nrows());
    out.push(0x20);
    push_dec(&mut out, m.ncols());
    out.push(0x20);
    push_dec(&mut out, n);
    out.push(0x0a);
    proof {
        let hp = header_parts(m.row_count(), m.col_count(), es.len());
        assert(joined(hp.drop_first().drop_first()) == dec(n as nat));
        assert(joined(hp.drop_first()) =~= dec(m.col_count() as nat) + seq![0x20u8] + dec(n as nat));
        assert(out@ =~= header_line(m.row_count(), m.col_count(), es.len()) + body(t@, es.take(0)));
    }
    let mut k: usize = 0;
    while k < n
        invariant
            m.wf(),
            fields_in(t@, es),
            es == m.entries(),
            n == es.len(),
            n == m.entry_count(),
            k <= n,
            out@ == header_line(m.row_count(), m.col_count(), es.len()) + body(t@, es.take(k as int)),
        decreases n - k,
    {
        let ghost before = out@;
        let (row, col, v) = m.entry(k);
        let ghost e = es[k as int];
        proof {
            assert(forall|i: int| 0 <= i < value_spans(e.2).len() ==> is_field(t@, #[trigger] value_spans(e.2)[i]));
        }
        push_entry_line(&mut out, t, row, col, v);
        proof {
            assert(es.take(k + 1).drop_last() =~= es.take(k as int));
            assert(es.take(k + 1).last() == e);
        }
        k += 1;
    }
    proof {
        assert(es.take(n as int) =~= es);
    }
    out
}

} // verus!
