use telegram_backup::bridge::{mime_priority, queue_row_from_item, queue_rows_from_line};
use telegram_backup::download::{ChunkBuffer, DOWNLOAD_CAP};
use telegram_backup::text::{is_blank, is_white_space_char, trimmed_nonempty_lines};

#[test]
fn buffer_keeps_at_most_the_file_size() {
    let mut buf = ChunkBuffer::new(10);
    assert!(buf.wants_more());
    buf.push_chunk(&[1, 2, 3, 4]);
    assert!(buf.wants_more());
    buf.push_chunk(&[5, 6, 7, 8, 9, 10, 11, 12]);
    assert!(!buf.wants_more());
    buf.push_chunk(&[13]);
    assert_eq!(buf.finish().unwrap(), vec![1, 2, 3, 4, 5, 6, 7, 8, 9, 10]);
}

#[test]
fn buffer_keeps_at_most_two_mebibytes() {
    let mut buf = ChunkBuffer::new(10 * DOWNLOAD_CAP);
    let chunk = vec![7u8; 65536];
    let mut pushed = 0;
    while buf.wants_more() {
        buf.push_chunk(&chunk);
        pushed += 1;
    }
    assert_eq!(pushed, 32);
    let bytes = buf.finish().unwrap();
    assert_eq!(bytes.len() as u64, DOWNLOAD_CAP);
    assert_eq!(DOWNLOAD_CAP, 2 * 1024 * 1024);
}

#[test]
fn buffer_is_the_stream_prefix() {
    let mut buf = ChunkBuffer::new(5);
    buf.push_chunk(&[]);
    buf.push_chunk(&[1, 2]);
    buf.push_chunk(&[3, 4, 5, 6]);
    assert_eq!(buf.finish().unwrap(), vec![1, 2, 3, 4, 5]);
}

#[test]
fn empty_download_is_an_error() {
    let buf = ChunkBuffer::new(0);
    assert!(!buf.wants_more());
    assert_eq!(buf.finish().unwrap_err(), "Downloaded zero bytes");
    let mut buf = ChunkBuffer::new(100);
    buf.push_chunk(&[]);
    assert_eq!(buf.finish().unwrap_err(), "Downloaded zero bytes");
}

#[test]
fn white_space_is_unicode_white_space() {
    for c in [' ', '\t', '\n', '\r', '\u{b}', '\u{c}', '\u{85}', '\u{a0}', '\u{1680}', '\u{2000}', '\u{200a}', '\u{2028}', '\u{2029}', '\u{202f}', '\u{205f}', '\u{3000}'] {
        assert!(is_white_space_char(c), "{:?}", c);
        assert!(c.is_whitespace());
    }
    for c in ['a', '\u{200b}', '\u{feff}', '\u{180e}', '\0', '\u{1f}'] {
        assert!(!is_white_space_char(c), "{:?}", c);
        assert!(!c.is_whitespace());
    }
}

#[test]
fn blank_content_is_white_space_only() {
    assert!(is_blank(""));
    assert!(is_blank(" \n\t\r\n\u{3000}"));
    assert!(!is_blank(" [] "));
}

#[test]
fn lines_are_trimmed_and_empty_ones_dropped() {
    let content = "  [1]\r\n\n   \n[2] \n[3]";
    assert_eq!(trimmed_nonempty_lines(content), vec!["[1]", "[2]", "[3]"]);
    assert_eq!(trimmed_nonempty_lines("[a]\n"), vec!["[a]"]);
    assert_eq!(trimmed_nonempty_lines(""), Vec::<String>::new());
    assert_eq!(trimmed_nonempty_lines("\n\n"), Vec::<String>::new());
    assert_eq!(trimmed_nonempty_lines("\u{a0}é x\u{a0}\nü"), vec!["é x", "ü"]);
}

#[test]
fn images_come_first() {
    assert_eq!(mime_priority("image/jpeg"), 1);
    assert_eq!(mime_priority("image/"), 1);
    assert_eq!(mime_priority("video/mp4"), 2);
    assert_eq!(mime_priority("Image/png"), 2);
    assert_eq!(mime_priority("image"), 2);
    assert_eq!(mime_priority(""), 2);
}

#[test]
fn bridge_line_becomes_queue_rows() {
    let line = r#"[{"media_store_id":"42","path":"/sdcard/DCIM/a.jpg","mime_type":"image/jpeg","size":1234,"date_added":1700000000},{"media_store_id":"43","path":"/sdcard/b.mp4","mime_type":"video/mp4","size":-5}]"#;
    let rows = queue_rows_from_line(line).expect("an array");
    assert_eq!(rows.len(), 2);
    assert_eq!(rows[0].id, "q-42");
    assert_eq!(rows[0].media_store_id, "42");
    assert_eq!(rows[0].uri, "");
    assert_eq!(rows[0].path, "/sdcard/DCIM/a.jpg");
    assert_eq!(rows[0].mime_type, "image/jpeg");
    assert_eq!(rows[0].size, 1234);
    assert_eq!(rows[0].date_added, 1700000000);
    assert_eq!(rows[0].priority, 1);
    assert_eq!(rows[0].status, "Pending");
    assert_eq!(rows[1].id, "q-43");
    assert_eq!(rows[1].priority, 2);
    assert_eq!(rows[1].size, -5);
    assert_eq!(rows[1].date_added, 0);
}

#[test]
fn missing_or_mistyped_fields_take_defaults() {
    let line = r#"[{"media_store_id":7,"path":null,"size":"12","date_added":1.5}, 3, "x", {}]"#;
    let rows = queue_rows_from_line(line).expect("an array");
    assert_eq!(rows.len(), 4);
    for row in &rows {
        assert_eq!(row.id, "q-");
        assert_eq!(row.media_store_id, "");
        assert_eq!(row.path, "");
        assert_eq!(row.mime_type, "");
        assert_eq!(row.size, 0);
        assert_eq!(row.date_added, 0);
        assert_eq!(row.priority, 2);
        assert_eq!(row.status, "Pending");
    }
    let big = r#"[{"size":18446744073709551615,"date_added":-9223372036854775808}]"#;
    let rows = queue_rows_from_line(big).unwrap();
    assert_eq!(rows[0].size, 0);
    assert_eq!(rows[0].date_added, i64::MIN);
}

#[test]
fn lines_that_are_not_arrays_are_skipped() {
    assert!(queue_rows_from_line("{\"a\":1}").is_none());
    assert!(queue_rows_from_line("not json").is_none());
    assert!(queue_rows_from_line("[1,").is_none());
    assert_eq!(queue_rows_from_line("[]").unwrap().len(), 0);
}

#[test]
fn one_item_becomes_one_row() {
    let value: serde_json::Value = serde_json::from_str(r#"{"media_store_id":"abc","mime_type":"image/png"}"#).unwrap();
    let row = queue_row_from_item(&value);
    assert_eq!(row.id, "q-abc");
    assert_eq!(row.priority, 1);
}
