use matrix_market_transform::{from_text, IntWidth, to_text, DataType, SortOrder, Value};

fn text_of(t: &[u8], s: (usize, usize)) -> &[u8] {
    &t[s.0..s.1]
}

#[test]
fn written_scenario_row_major() {
    let input = b"2 2 3\n1 1 5.0\n2 2 3.0\n1 2 4.0\n";
    let mut m = from_text(input, DataType::Real, IntWidth::I32).unwrap();
    m.permute(SortOrder::RowMajor);
    assert_eq!(to_text(input, &m), b"2 2 3\n1 1 5.0\n1 2 4.0\n2 2 3.0\n".to_vec());
}

#[test]
fn written_scenario_col_major() {
    let input = b"2 2 3\n1 1 5.0\n2 2 3.0\n1 2 4.0\n";
    let mut m = from_text(input, DataType::Real, IntWidth::I32).unwrap();
    m.sort(SortOrder::ColMajor);
    assert_eq!(to_text(input, &m), b"2 2 3\n1 1 5.0\n1 2 4.0\n2 2 3.0\n".to_vec());
}

#[test]
fn write_then_read_round_trip() {
    let cases: [(&[u8], DataType); 4] = [
        (b"%%MatrixMarket matrix coordinate real general\n% c\n4  5\t3\n 4 5 1e-3 extra\n1 1 -2.5\n3 2 7\n", DataType::Real),
        (b"3 3 2\n1 2 0.5 -0.5\n3 1 1 2\n", DataType::Complex),
        (b"10 10 2\n10 1 -7\n1 10 +3\n", DataType::Integer),
        (b"7 8 3\n7 8\n1 1\n2 3", DataType::Bool),
    ];
    for (input, dt) in cases {
        let m = from_text(input, dt, IntWidth::I32).unwrap();
        let w = to_text(input, &m);
        let again = from_text(&w, dt, IntWidth::I32).unwrap();
        assert_eq!((again.nrows(), again.ncols(), again.nvals()), (m.nrows(), m.ncols(), m.nvals()));
        for i in 0..m.nvals() {
            let (r1, c1, v1) = m.entry(i);
            let (r2, c2, v2) = again.entry(i);
            assert_eq!((r1, c1), (r2, c2));
            match (v1, v2) {
                (Value::Real(a), Value::Real(b)) | (Value::Integer(a), Value::Integer(b)) => {
                    assert_eq!(text_of(input, a), text_of(&w, b))
                },
                (Value::Complex(a, x), Value::Complex(b, y)) => {
                    assert_eq!(text_of(input, a), text_of(&w, b));
                    assert_eq!(text_of(input, x), text_of(&w, y));
                },
                (Value::Bool, Value::Bool) => {},
                _ => panic!("value kind changed"),
            }
        }
        assert_eq!(to_text(&w, &again), w);
    }
}

#[test]
fn written_form_is_normalized() {
    let input = b"% c\n 3\t4   1 \r\n  2   3\t  8.25  \n";
    let m = from_text(input, DataType::Real, IntWidth::I32).unwrap();
    assert_eq!(to_text(input, &m), b"3 4 1\n2 3 8.25\n".to_vec());
}

#[test]
fn empty_matrix_writes_zero_header() {
    for input in [&b""[..], &b"% only a comment\n"[..]] {
        let m = from_text(input, DataType::Real, IntWidth::I32).unwrap();
        assert_eq!(to_text(input, &m), b"0 0 0\n".to_vec());
    }
}

#[test]
fn large_indices_are_written_in_full() {
    let input = b"18446744073709551615 10 1\n18446744073709551615 1000000 x\n";
    let m = from_text(input, DataType::Real, IntWidth::I32).unwrap();
    assert_eq!(m.entry(0).0, usize::MAX);
    assert_eq!(to_text(input, &m), input.to_vec());
}
