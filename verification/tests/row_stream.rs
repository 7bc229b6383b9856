//! Fixed-arity rows: complete rows, the two column-count errors, error
//! recovery, and skipping.

use lazycsv::{Csv, RowIterError};

fn row_bytes(row: Vec<lazycsv::Cell<'_>>) -> Vec<Vec<u8>> {
    row.into_iter().map(|c| c.buf.to_vec()).collect()
}

#[test]
fn two_complete_rows() {
    let mut rows = Csv::new(b"a,b,c\n1,2,3\n").into_rows(3);
    let first = rows.next().expect("a row").expect("no error");
    assert_eq!(row_bytes(first), vec![b"a".to_vec(), b"b".to_vec(), b"c".to_vec()]);
    let second = rows.next().expect("a row").expect("no error");
    assert_eq!(row_bytes(second), vec![b"1".to_vec(), b"2".to_vec(), b"3".to_vec()]);
    assert!(rows.next().is_none());
}

#[test]
fn unterminated_last_row_is_dropped() {
    // The scanner drops an unterminated trailing cell, so the last record
    // without a line terminator never becomes a row.
    let mut rows = Csv::new(b"a,b,c\n1,2,3").into_rows(3);
    let first = rows.next().expect("a row").expect("no error");
    assert_eq!(row_bytes(first), vec![b"a".to_vec(), b"b".to_vec(), b"c".to_vec()]);
    assert!(rows.next().is_none());
}

#[test]
fn too_few_columns() {
    let mut rows = Csv::new(b"a,b\n1,2,3").into_rows(3);
    match rows.next() {
        Some(Err(RowIterError::ColumnCountSmallerThanExpected { expected, actual })) => {
            assert_eq!(expected, 3);
            assert_eq!(actual, 2);
        },
        other => panic!("expected the too-few error, got {:?}", other.map(|r| r.map(row_bytes))),
    }
}

#[test]
fn too_many_columns() {
    let mut rows = Csv::new(b"a,b,c,d\n").into_rows(3);
    match rows.next() {
        Some(Err(RowIterError::ColumnCountLargerThanExpected { expected })) => {
            assert_eq!(expected, 3);
        },
        other => panic!("expected the too-many error, got {:?}", other.map(|r| r.map(row_bytes))),
    }
}

#[test]
fn error_does_not_stop_iteration() {
    let mut rows = Csv::new(b"a,b\n1,2,3\n").into_rows(3);
    assert!(matches!(
        rows.next(),
        Some(Err(RowIterError::ColumnCountSmallerThanExpected { expected: 3, actual: 2 }))
    ));
    let second = rows.next().expect("a row").expect("no error");
    assert_eq!(row_bytes(second), vec![b"1".to_vec(), b"2".to_vec(), b"3".to_vec()]);
    assert!(rows.next().is_none());
}

#[test]
fn row_skip_fast_path() {
    let mut rows = Csv::new(b"a,b\nc,d\ne,f\n").into_rows(2).skip(2);
    let row = rows.next().expect("a row").expect("no error");
    assert_eq!(row_bytes(row), vec![b"e".to_vec(), b"f".to_vec()]);
    assert!(rows.next().is_none());
}

#[test]
fn custom_separator_rows_match_comma_rows() {
    let mut tabbed = Csv::with_separator(b"a\tb\tc\n1\t2\t3", b'\t').into_rows(3);
    let mut comma = Csv::new(b"a,b,c\n1,2,3").into_rows(3);
    loop {
        let t = tabbed.next().map(|r| r.map(row_bytes));
        let c = comma.next().map(|r| r.map(row_bytes));
        assert_eq!(t, c);
        if t.is_none() {
            break;
        }
    }
}

#[test]
fn crlf_rows_match_lf_rows() {
    let mut crlf = Csv::new(b"a,b\r\nc,d\r\n").into_rows(2);
    let mut lf = Csv::new(b"a,b\nc,d\n").into_rows(2);
    loop {
        let x = crlf.next().map(|r| r.map(row_bytes));
        let y = lf.next().map(|r| r.map(row_bytes));
        assert_eq!(x, y);
        if x.is_none() {
            break;
        }
    }
}
