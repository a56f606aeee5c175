use matrix_market_transform::{from_text, IntWidth, from_text_par, DataType, Matrix, MatrixData, ParseError, SortOrder, Span, Value};

const SAMPLE: &str = "2 2 3\n1 1 5.0\n2 2 3.0\n1 2 4.0\n";

fn field(text: &str, s: Span) -> &str {
    &text[s.0..s.1]
}

fn render(text: &str, m: &Matrix<Span, Span>) -> String {
    let mut out = format!("{} {} {}\n", m.nrows(), m.ncols(), m.nvals());
    for i in 0..m.nvals() {
        let (r, c, v) = m.entry(i);
        let line = match v {
            Value::Real(x) => format!("{} {} {}\n", r, c, field(text, x)),
            Value::Complex(x, y) => format!("{} {} {} {}\n", r, c, field(text, x), field(text, y)),
            Value::Integer(x) => format!("{} {} {}\n", r, c, field(text, x)),
            Value::Bool => format!("{} {}\n", r, c),
        };
        out.push_str(&line);
    }
    out
}

fn real_matrix(rows: Vec<usize>, cols: Vec<usize>, xs: Vec<f64>) -> Matrix<f64, i64> {
    Matrix::from_parts(9, 9, rows, cols, MatrixData::Real(xs)).unwrap()
}

fn reals(m: &Matrix<f64, i64>) -> Vec<(usize, usize, f64)> {
    (0..m.nvals())
        .map(|i| match m.entry(i) {
            (r, c, Value::Real(x)) => (r, c, x),
            _ => panic!("not a real entry"),
        })
        .collect()
}

#[test]
fn row_major_scenario() {
    let mut m = from_text(SAMPLE.as_bytes(), DataType::Real, IntWidth::I32).unwrap();
    m.permute_row_major();
    assert_eq!(render(SAMPLE, &m), "2 2 3\n1 1 5.0\n1 2 4.0\n2 2 3.0\n");
}

#[test]
fn col_major_scenario() {
    let mut m = from_text(SAMPLE.as_bytes(), DataType::Real, IntWidth::I32).unwrap();
    m.permute_col_major();
    assert_eq!(render(SAMPLE, &m), "2 2 3\n1 1 5.0\n1 2 4.0\n2 2 3.0\n");
}

#[test]
fn sort_and_scatter_scenarios() {
    let mut m = from_text(SAMPLE.as_bytes(), DataType::Real, IntWidth::I32).unwrap();
    m.sort_row_major();
    assert_eq!(render(SAMPLE, &m), "2 2 3\n1 1 5.0\n1 2 4.0\n2 2 3.0\n");
    let mut m = from_text(SAMPLE.as_bytes(), DataType::Real, IntWidth::I32).unwrap();
    m.sort(SortOrder::ColMajor);
    assert_eq!(render(SAMPLE, &m), "2 2 3\n1 1 5.0\n1 2 4.0\n2 2 3.0\n");
}

#[test]
fn round_trip_keeps_entries() {
    let text = "% a comment\n%another\n3 4 4\n3 1 1.5e3\n1 4 -2\n2 2 0.25\n1 1 7\n";
    let m = from_text(text.as_bytes(), DataType::Real, IntWidth::I32).unwrap();
    let written = render(text, &m);
    let again = from_text(written.as_bytes(), DataType::Real, IntWidth::I32).unwrap();
    assert_eq!(render(&written, &again), written);
    assert_eq!((again.nrows(), again.ncols(), again.nvals()), (3, 4, 4));
    for i in 0..m.nvals() {
        let (r1, c1, v1) = m.entry(i);
        let (r2, c2, v2) = again.entry(i);
        assert_eq!((r1, c1), (r2, c2));
        match (v1, v2) {
            (Value::Real(a), Value::Real(b)) => assert_eq!(field(text, a), field(&written, b)),
            _ => panic!("value kind changed"),
        }
    }
}

#[test]
fn empty_and_comment_only_inputs() {
    for text in ["", "% only\n% comments\n", "%no newline"] {
        let m = from_text(text.as_bytes(), DataType::Complex, IntWidth::I32).unwrap();
        assert_eq!((m.nrows(), m.ncols(), m.nvals()), (0, 0, 0));
        assert_eq!(m.element_type(), DataType::Complex);
        assert_eq!(render(text, &m), "0 0 0\n");
    }
}

#[test]
fn header_errors() {
    assert_eq!(from_text(b"2 2\n", DataType::Real, IntWidth::I32).err(), Some(ParseError::Header));
    assert_eq!(from_text(b"2 x 1\n1 1 1.0\n", DataType::Real, IntWidth::I32).err(), Some(ParseError::Header));
    assert_eq!(from_text(b"% c\n\n2 2 0\n", DataType::Real, IntWidth::I32).err(), Some(ParseError::Header));
    assert_eq!(from_text(b"99999999999999999999999 1 0\n", DataType::Bool, IntWidth::I32).err(), Some(ParseError::Header));
}

#[test]
fn entry_errors_name_the_line() {
    assert_eq!(from_text(b"2 2 2\n1 1 1.0\n2 2\n", DataType::Real, IntWidth::I32).err(), Some(ParseError::Entry(1)));
    assert_eq!(from_text(b"2 2 2\n1 1 1.0\n", DataType::Real, IntWidth::I32).err(), Some(ParseError::Entry(1)));
    assert_eq!(from_text(b"2 2 1\n1 q 1.0\n", DataType::Real, IntWidth::I32).err(), Some(ParseError::Entry(0)));
    assert_eq!(from_text(b"2 2 1\n1 1 1.0\n", DataType::Complex, IntWidth::I32).err(), Some(ParseError::Entry(0)));
    assert!(from_text(b"2 2 1\n1 1\n", DataType::Bool, IntWidth::I32).is_ok());
}

#[test]
fn value_fields_by_type() {
    let text = "3 3 2\n 1\t2  3.5 -1.0 \r\n3 3 0.5 2.5\n";
    let m = from_text(text.as_bytes(), DataType::Complex, IntWidth::I32).unwrap();
    match m.entry(0) {
        (1, 2, Value::Complex(a, b)) => {
            assert_eq!(field(text, a), "3.5");
            assert_eq!(field(text, b), "-1.0");
        },
        other => panic!("unexpected entry {:?}", other.0),
    }
    let m = from_text(b"3 3 1\n2 3 -7\n", DataType::Integer, IntWidth::I32).unwrap();
    assert!(matches!(m.entry(0), (2, 3, Value::Integer(s)) if s == (10, 12)));
    let m = from_text(b"3 3 1\n2 3\n", DataType::Bool, IntWidth::I32).unwrap();
    assert!(matches!(m.entry(0), (2, 3, Value::Bool)));
}

#[test]
fn row_major_is_sorted_and_complete() {
    let rows = vec![5, 1, 3, 1, 2, 5, 4, 3];
    let cols = vec![2, 7, 3, 2, 9, 1, 4, 1];
    let xs: Vec<f64> = (0..8).map(|i| i as f64).collect();
    let mut m = real_matrix(rows.clone(), cols.clone(), xs);
    m.permute_row_major();
    let e = reals(&m);
    for w in e.windows(2) {
        assert!((w[0].0, w[0].1) < (w[1].0, w[1].1));
    }
    for (r, c, x) in e {
        let k = x as usize;
        assert_eq!((rows[k], cols[k]), (r, c));
    }
}

#[test]
fn col_major_is_sorted() {
    let rows = vec![5, 1, 3, 1, 2, 5, 4, 3];
    let cols = vec![2, 7, 3, 2, 9, 1, 4, 1];
    let mut m = real_matrix(rows, cols, vec![0.0; 8]);
    m.permute_col_major();
    let e = reals(&m);
    for w in e.windows(2) {
        assert!((w[0].1, w[0].0) < (w[1].1, w[1].0));
    }
}

#[test]
fn strategies_agree() {
    let n = 200usize;
    let rows: Vec<usize> = (0..n).map(|i| (i * 37 + 11) % 23).collect();
    let cols: Vec<usize> = (0..n).map(|i| (i * 53 + 7) % 19 + (i % 3) * 19).collect();
    let xs: Vec<f64> = (0..n).map(|i| i as f64 * 0.5).collect();
    for order in [SortOrder::RowMajor, SortOrder::ColMajor] {
        let mut a = real_matrix(rows.clone(), cols.clone(), xs.clone());
        let mut b = real_matrix(rows.clone(), cols.clone(), xs.clone());
        a.permute(order);
        b.sort(order);
        assert_eq!(reals(&a), reals(&b));
    }
}

#[test]
fn compute_order_is_a_bijection() {
    let rows = vec![4, 0, 4, 2, 1, 0];
    let cols = vec![1, 3, 0, 2, 2, 0];
    let m = real_matrix(rows, cols, vec![0.0; 6]);
    for order in [SortOrder::RowMajor, SortOrder::ColMajor] {
        let mut p = m.compute_order(order);
        p.sort();
        assert_eq!(p, (0..6).collect::<Vec<usize>>());
    }
    assert_eq!(m.compute_order(SortOrder::RowMajor), vec![5, 1, 4, 3, 2, 0]);
    assert_eq!(m.compute_order(SortOrder::ColMajor), vec![5, 2, 0, 4, 3, 1]);
}

#[test]
fn apply_permutation_moves_entries() {
    let mut m = real_matrix(vec![0, 1, 2, 3], vec![4, 5, 6, 7], vec![0.0, 1.0, 2.0, 3.0]);
    m.apply_permutation(vec![2, 0, 3, 1]);
    assert_eq!(reals(&m), vec![(2, 6, 2.0), (0, 4, 0.0), (3, 7, 3.0), (1, 5, 1.0)]);
}

#[test]
fn complex_components_travel_together() {
    let n = 50usize;
    let rows: Vec<usize> = (0..n).map(|i| (i * 7) % 11).collect();
    let cols: Vec<usize> = (0..n).map(|i| (i * 13) % 17 + i / 11 * 17).collect();
    let re: Vec<f64> = (0..n).map(|i| i as f64).collect();
    let im: Vec<f64> = (0..n).map(|i| -(i as f64)).collect();
    for order in [SortOrder::RowMajor, SortOrder::ColMajor] {
        for in_place in [true, false] {
            let vals = MatrixData::Complex(re.clone(), im.clone());
            let mut m: Matrix<f64, i64> = Matrix::from_parts(11, 51, rows.clone(), cols.clone(), vals).unwrap();
            if in_place {
                m.permute(order);
            } else {
                m.sort(order);
            }
            for i in 0..n {
                match m.entry(i) {
                    (r, c, Value::Complex(x, y)) => {
                        assert_eq!(y, -x);
                        let k = x as usize;
                        assert_eq!((rows[k], cols[k]), (r, c));
                    },
                    _ => panic!("not a complex entry"),
                }
            }
        }
    }
}

#[test]
fn pattern_and_integer_shapes() {
    let mut m: Matrix<f32, i32> = Matrix::from_parts(3, 3, vec![2, 0, 1], vec![0, 2, 1], MatrixData::Bool()).unwrap();
    m.permute_row_major();
    let e: Vec<(usize, usize)> = (0..3).map(|i| (m.entry(i).0, m.entry(i).1)).collect();
    assert_eq!(e, vec![(0, 2), (1, 1), (2, 0)]);
    let mut m: Matrix<f32, i32> =
        Matrix::from_parts(3, 3, vec![2, 0, 1], vec![0, 2, 1], MatrixData::Integer(vec![20, 2, 11])).unwrap();
    m.sort_col_major();
    let e: Vec<i32> = (0..3)
        .map(|i| match m.entry(i).2 {
            Value::Integer(x) => x,
            _ => panic!("not an integer entry"),
        })
        .collect();
    assert_eq!(e, vec![20, 11, 2]);
}

#[test]
fn from_parts_checks_lengths() {
    assert!(Matrix::<f32, i32>::from_parts(2, 2, vec![0, 1], vec![0], MatrixData::Bool()).is_none());
    assert!(Matrix::<f32, i32>::from_parts(2, 2, vec![0, 1], vec![0, 1], MatrixData::Real(vec![1.0])).is_none());
    assert!(Matrix::<f32, i32>::from_parts(2, 2, vec![0, 1], vec![0, 1], MatrixData::Complex(vec![1.0, 2.0], vec![1.0]))
        .is_none());
    assert!(Matrix::<f32, i32>::from_parts(2, 2, vec![0, 1], vec![0, 1], MatrixData::Integer(vec![1, 2])).is_some());
}

#[test]
fn duplicate_pairs_keep_their_order() {
    let mut a = real_matrix(vec![1, 0, 1, 0], vec![1, 0, 1, 0], vec![0.0, 1.0, 2.0, 3.0]);
    let mut b = real_matrix(vec![1, 0, 1, 0], vec![1, 0, 1, 0], vec![0.0, 1.0, 2.0, 3.0]);
    a.permute_row_major();
    b.sort_row_major();
    assert_eq!(reals(&a), vec![(0, 0, 1.0), (0, 0, 3.0), (1, 1, 0.0), (1, 1, 2.0)]);
    assert_eq!(reals(&a), reals(&b));
}

#[test]
fn parallel_reader_agrees() {
    let inputs: [(&str, DataType); 9] = [
        (SAMPLE, DataType::Real),
        ("% c\n3 3 2\n1 2 0.5 -0.5\n3 1 1 2\n", DataType::Complex),
        ("", DataType::Integer),
        ("%only\n", DataType::Bool),
        ("2 2\n", DataType::Real),
        ("2 2 2\n1 1 1.0\n2 2\n", DataType::Real),
        ("2 2 2\n1 x 1.0\n2\n", DataType::Real),
        ("2 2 3\n1 1 1.0\n2 2 2.0", DataType::Real),
        ("4 4 2\n1 1\n2 2\nextra line\n", DataType::Bool),
    ];
    for (text, dt) in inputs {
        let a = from_text(text.as_bytes(), dt, IntWidth::I32);
        let b = from_text_par(text.as_bytes(), dt, IntWidth::I32);
        match (a, b) {
            (Ok(a), Ok(b)) => assert_eq!(render(text, &a), render(text, &b)),
            (Err(x), Err(y)) => assert_eq!(x, y),
            _ => panic!("readers disagree on {:?}", text),
        }
    }
    assert_eq!(from_text_par(b"2 2 3\n1 1 1.0\n2 2 2.0", DataType::Real, IntWidth::I32).err(), Some(ParseError::Entry(2)));
    assert_eq!(from_text_par(b"2 2 2\n1 x 1.0\n2\n", DataType::Real, IntWidth::I32).err(), Some(ParseError::Entry(0)));
}

#[test]
fn parallel_reader_on_many_lines() {
    let mut text = String::from("% generated\n1000 1000 500\n");
    for i in 0..500usize {
        text.push_str(&format!("{} {} {}.5\n", (i * 7919) % 1000 + 1, (i * 104729) % 1000 + 1, i));
    }
    let a = from_text(text.as_bytes(), DataType::Real, IntWidth::I32).unwrap();
    let mut b = from_text_par(text.as_bytes(), DataType::Real, IntWidth::I32).unwrap();
    assert_eq!(render(&text, &a), render(&text, &b));
    b.sort(SortOrder::RowMajor);
    for i in 1..b.nvals() {
        assert!((b.entry(i - 1).0, b.entry(i - 1).1) < (b.entry(i).0, b.entry(i).1));
    }
}

#[test]
fn integer_values_must_be_integers() {
    assert_eq!(from_text(b"1 1 1\n1 1 abc\n", DataType::Integer, IntWidth::I32).err(), Some(ParseError::Entry(0)));
    assert_eq!(from_text_par(b"1 1 1\n1 1 abc\n", DataType::Integer, IntWidth::I32).err(), Some(ParseError::Entry(0)));
    assert_eq!(from_text(b"2 2 2\n1 1 5\n2 2 5x\n", DataType::Integer, IntWidth::I64).err(), Some(ParseError::Entry(1)));
    assert_eq!(from_text(b"2 2 1\n1 1 -\n", DataType::Integer, IntWidth::I32).err(), Some(ParseError::Entry(0)));
    assert_eq!(from_text(b"2 2 1\n1 1 1.5\n", DataType::Integer, IntWidth::I32).err(), Some(ParseError::Entry(0)));
    assert!(from_text(b"2 2 1\n1 1 1.5\n", DataType::Real, IntWidth::I32).is_ok());
    for ok in ["+5", "-2147483648", "2147483647", "007"] {
        let text = format!("2 2 1\n1 1 {}\n", ok);
        assert!(from_text(text.as_bytes(), DataType::Integer, IntWidth::I32).is_ok(), "{}", ok);
    }
    for bad in ["2147483648", "-2147483649", "--1", "+-1"] {
        let text = format!("2 2 1\n1 1 {}\n", bad);
        assert_eq!(from_text(text.as_bytes(), DataType::Integer, IntWidth::I32).err(), Some(ParseError::Entry(0)), "{}", bad);
    }
    let text = "2 2 2\n1 1 -9223372036854775808\n2 2 9223372036854775807\n";
    assert!(from_text(text.as_bytes(), DataType::Integer, IntWidth::I64).is_ok());
    assert!(from_text(text.as_bytes(), DataType::Integer, IntWidth::I32).is_err());
    let text = "2 2 1\n1 1 9223372036854775808\n";
    assert_eq!(from_text(text.as_bytes(), DataType::Integer, IntWidth::I64).err(), Some(ParseError::Entry(0)));
}
