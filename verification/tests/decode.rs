//! Cell decoding: UTF-8 validation, the borrowed fast path, and unquoting.

use lazycsv::{Cell, CellValue, Csv, CsvIterItem, Utf8Error};

#[test]
fn plain_ascii_is_borrowed_unchanged() {
    let cell = Cell { buf: b"hello123" };
    match cell.try_as_str() {
        Ok(CellValue::Borrowed(s)) => assert_eq!(s, "hello123"),
        other => panic!("expected a borrowed value, got {:?}", other),
    }
}

#[test]
fn multibyte_utf8_is_borrowed() {
    let text = "héllo wörld";
    let cell = Cell { buf: text.as_bytes() };
    match cell.try_as_str() {
        Ok(CellValue::Borrowed(s)) => assert_eq!(s, text),
        other => panic!("expected a borrowed value, got {:?}", other),
    }
}

#[test]
fn invalid_utf8_is_an_error() {
    let cell = Cell { buf: b"\xff\xfe" };
    assert_eq!(cell.try_as_str().err(), Some(Utf8Error));
}

#[test]
fn quote_opened_content_is_dequoted_owned() {
    // Raw content starting with a quote mark: the doubled quotes collapse,
    // with one allocation.
    let cell = Cell { buf: b"\"\"x\"\"y" };
    match cell.try_as_str() {
        Ok(CellValue::Owned(s)) => assert_eq!(s, "\"x\"y"),
        other => panic!("expected an owned value, got {:?}", other),
    }
}

#[test]
fn doubled_quotes_mid_cell_stay_when_content_opens_unquoted() {
    // Unquoting hangs on the first character being a quote mark: content
    // that opens with anything else is handed out as it stands.
    let cell = Cell { buf: b"a\"\"b" };
    match cell.try_as_str() {
        Ok(CellValue::Borrowed(s)) => assert_eq!(s, "a\"\"b"),
        other => panic!("expected a borrowed value, got {:?}", other),
    }
}

#[test]
fn scanner_strips_quotes_then_decode() {
    // End to end: the scanner strips the surrounding quotes, decoding then
    // sees the inner bytes.
    let mut csv = Csv::new(b"\"a,b\",c\n");
    match csv.next() {
        Some(CsvIterItem::Cell(cell)) => {
            assert_eq!(cell.buf, &b"a,b"[..]);
            match cell.try_as_str() {
                Ok(CellValue::Borrowed(s)) => assert_eq!(s, "a,b"),
                other => panic!("expected a borrowed value, got {:?}", other),
            }
        },
        _ => panic!("expected a cell"),
    }
}

#[test]
fn empty_cell_decodes_empty() {
    let cell = Cell { buf: b"" };
    match cell.try_as_str() {
        Ok(CellValue::Borrowed(s)) => assert_eq!(s, ""),
        other => panic!("expected a borrowed value, got {:?}", other),
    }
}

#[test]
fn cell_identity_is_raw_bytes() {
    assert_eq!(Cell { buf: b"a" }, Cell { buf: b"a" });
    assert_ne!(Cell { buf: b"\"a\"" }, Cell { buf: b"a" });
}

#[test]
fn cell_order_is_raw_byte_order() {
    assert!(Cell { buf: b"a" } < Cell { buf: b"b" });
    assert!(Cell { buf: b"a" } < Cell { buf: b"ab" });
    assert!(Cell { buf: b"" } < Cell { buf: b"a" });
    assert_eq!(
        Cell { buf: b"x" }.cmp(&Cell { buf: b"x" }),
        std::cmp::Ordering::Equal
    );
}
