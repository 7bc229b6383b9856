//! The flat item stream: cell boundaries, quoting, line terminators and the
//! row-skipping fast path.

use lazycsv::{Csv, CsvIterItem};

fn collect_items(mut csv: Csv<'_>) -> Vec<Option<Vec<u8>>> {
    let mut out = Vec::new();
    while let Some(item) = csv.next() {
        match item {
            CsvIterItem::Cell(cell) => out.push(Some(cell.buf.to_vec())),
            CsvIterItem::LineEnd => out.push(None),
        }
    }
    out
}

#[test]
fn flat_stream_basic() {
    let items = collect_items(Csv::new(b"a,b,c\n1,2,3"));
    let expected: Vec<Option<Vec<u8>>> = vec![
        Some(b"a".to_vec()),
        Some(b"b".to_vec()),
        Some(b"c".to_vec()),
        None,
        Some(b"1".to_vec()),
        Some(b"2".to_vec()),
    ];
    assert_eq!(items, expected);
}

#[test]
fn empty_buffer_yields_nothing() {
    let mut csv = Csv::new(b"");
    assert!(csv.next().is_none());
    assert!(csv.next().is_none());
}

#[test]
fn empty_cells_kept() {
    let items = collect_items(Csv::new(b",\n"));
    let expected: Vec<Option<Vec<u8>>> =
        vec![Some(b"".to_vec()), Some(b"".to_vec()), None];
    assert_eq!(items, expected);
}

#[test]
fn crlf_and_lf_give_identical_boundaries() {
    let lf = collect_items(Csv::new(b"a,b\nc,d\n"));
    let crlf = collect_items(Csv::new(b"a,b\r\nc,d\r\n"));
    assert_eq!(lf, crlf);
    let expected: Vec<Option<Vec<u8>>> = vec![
        Some(b"a".to_vec()),
        Some(b"b".to_vec()),
        None,
        Some(b"c".to_vec()),
        Some(b"d".to_vec()),
        None,
    ];
    assert_eq!(lf, expected);
}

#[test]
fn quoted_cell_keeps_separator_and_newline() {
    let items = collect_items(Csv::new(b"\"a,b\nc\",d\n"));
    let expected: Vec<Option<Vec<u8>>> =
        vec![Some(b"a,b\nc".to_vec()), Some(b"d".to_vec()), None];
    assert_eq!(items, expected);
}

#[test]
fn mid_cell_quote_opens_run_but_strips_nothing() {
    // A quote mark later in a cell still swallows separators until its
    // mate, but only a quote at the cell's very first byte is stripped.
    let items = collect_items(Csv::new(b"ab\"c,d\"e,f\n"));
    let expected: Vec<Option<Vec<u8>>> =
        vec![Some(b"ab\"c,d\"e".to_vec()), Some(b"f".to_vec()), None];
    assert_eq!(items, expected);
}

#[test]
fn quoted_cell_before_crlf() {
    let items = collect_items(Csv::new(b"\"a\"\r\n"));
    let expected: Vec<Option<Vec<u8>>> = vec![Some(b"a".to_vec()), None];
    assert_eq!(items, expected);
}

#[test]
fn escaped_quotes_inside_quoted_cell() {
    // Doubled quote marks are content: the raw slice keeps them doubled.
    let items = collect_items(Csv::new(b"\"a\"\"b\",c\n"));
    let expected: Vec<Option<Vec<u8>>> =
        vec![Some(b"a\"\"b".to_vec()), Some(b"c".to_vec()), None];
    assert_eq!(items, expected);
}

#[test]
fn unterminated_quote_drops_tail() {
    let items = collect_items(Csv::new(b"\"abc"));
    assert!(items.is_empty());
}

#[test]
fn unterminated_last_cell_dropped() {
    let items = collect_items(Csv::new(b"a,b\nc"));
    let expected: Vec<Option<Vec<u8>>> =
        vec![Some(b"a".to_vec()), Some(b"b".to_vec()), None];
    assert_eq!(items, expected);
}

#[test]
fn split_matches_scanner_on_unquoted_input() {
    // The scanner's cells are exactly what splitting on b',' and b'\n' gives.
    let buf: &[u8] = b"one,two\nthree,four\n";
    let items = collect_items(Csv::new(buf));
    let mut expected: Vec<Option<Vec<u8>>> = Vec::new();
    for line in buf.split(|&b| b == b'\n') {
        if line.is_empty() {
            continue;
        }
        for cell in line.split(|&b| b == b',') {
            expected.push(Some(cell.to_vec()));
        }
        expected.push(None);
    }
    assert_eq!(items, expected);
}

#[test]
fn skip_rows_equals_iterating_past_lines() {
    let buf: &[u8] = b"a,b\nc,d\ne,f\n";
    for n in 0..=3usize {
        let skipped = collect_items(Csv::new(buf).skip_rows(n));
        let mut full = Vec::new();
        {
            let mut csv = Csv::new(buf);
            let mut lines = 0usize;
            while let Some(item) = csv.next() {
                if lines >= n {
                    match item {
                        CsvIterItem::Cell(cell) => full.push(Some(cell.buf.to_vec())),
                        CsvIterItem::LineEnd => full.push(None),
                    }
                } else if let CsvIterItem::LineEnd = item {
                    lines += 1;
                }
            }
        }
        assert_eq!(skipped, full, "n = {}", n);
    }
}

#[test]
fn skip_rows_past_end_yields_nothing() {
    let mut csv = Csv::new(b"a,b\nc,d\n").skip_rows(5);
    assert!(csv.next().is_none());
    let mut csv2 = Csv::new(b"a,b\nc").skip_rows(2);
    assert!(csv2.next().is_none());
}

#[test]
fn skip_rows_lands_after_newline() {
    let mut csv = Csv::new(b"a,b,c\n1,2,3\n4,5,6\n").skip_rows(2);
    match csv.next() {
        Some(CsvIterItem::Cell(cell)) => assert_eq!(cell.buf, &b"4"[..]),
        _ => panic!("expected a cell"),
    }
}

#[test]
fn custom_separator_tab() {
    let items = collect_items(Csv::with_separator(b"a\tb\tc\n1\t2\t3", b'\t'));
    let comma = collect_items(Csv::new(b"a,b,c\n1,2,3"));
    assert_eq!(items, comma);
}
