use ais_forwarder::ais_reformatter::{
    append_prefixed_lines, build_prefix, build_prefix_at, calculate_checksum, ClockError,
    Formatter,
};
use std::sync::Arc;

use ais_forwarder::position::PositionCell;

fn new_cell() -> Arc<PositionCell> {
    Arc::new(PositionCell::new())
}

#[test]
fn checksum_is_xor_of_all_bytes() {
    assert_eq!(calculate_checksum(b""), 0);
    assert_eq!(calculate_checksum(&[0x01, 0x02, 0x03]), 0);
    assert_eq!(calculate_checksum(b"!AIVDM"), 118);
    assert_eq!(calculate_checksum(b"c:1700000000,l:4.5;52.25"), 0x1F);
}

#[test]
fn prefix_with_time_and_position() {
    let mut buf = String::from("leftover");
    let p = build_prefix_at(&mut buf, Some(1_700_000_000), Some("l:4.5;52.25"));
    assert_eq!(p, "\\c:1700000000,l:4.5;52.25*1F\\");
    assert_eq!(buf, "\\c:1700000000,l:4.5;52.25*1F\\");
}

#[test]
fn prefix_with_time_only() {
    let mut buf = String::new();
    assert_eq!(build_prefix_at(&mut buf, Some(1_700_000_000), None), "\\c:1700000000*5F\\");
    assert_eq!(build_prefix_at(&mut buf, Some(0), None), "\\c:0*69\\");
}

#[test]
fn prefix_with_position_only() {
    let mut buf = String::new();
    assert_eq!(build_prefix_at(&mut buf, None, Some("l:10;20")), "\\,l:10;20*42\\");
    assert_eq!(build_prefix_at(&mut buf, None, Some("")), "\\,*2C\\");
}

#[test]
fn prefix_without_fields_is_empty() {
    let mut buf = String::from("old");
    assert_eq!(build_prefix_at(&mut buf, None, None), "");
    assert_eq!(buf, "\\");
}

#[test]
fn build_prefix_without_time_reads_no_clock() {
    let mut buf = String::new();
    assert_eq!(build_prefix(&mut buf, false, None), Ok(""));
    let mut buf = String::new();
    assert_eq!(build_prefix(&mut buf, false, Some("l:10;20")), Ok("\\,l:10;20*42\\"));
}

#[test]
fn build_prefix_with_time_writes_current_time() {
    let mut buf = String::new();
    let r: Result<&str, ClockError> = build_prefix(&mut buf, true, None);
    let p = r.unwrap().to_string();
    assert!(p.starts_with("\\c:"));
    assert!(p.ends_with("\\"));
    let digits = &p[3..p.len() - 4];
    let secs: u64 = digits.parse().unwrap();
    assert!(secs > 1_600_000_000);
    let star = &p[p.len() - 4..p.len() - 3];
    assert_eq!(star, "*");
    let cs = calculate_checksum(p[1..p.len() - 4].as_bytes());
    assert_eq!(&p[p.len() - 3..p.len() - 1], format!("{:02X}", cs));
}

#[test]
fn lines_are_split_stripped_and_prefixed() {
    let mut out = vec![b"earlier".to_vec()];
    append_prefixed_lines(b"P", b"!AIVDM,1\r\n\n\r\n!AIVDM,2", &mut out);
    assert_eq!(
        out,
        vec![b"earlier".to_vec(), b"P!AIVDM,1\n".to_vec(), b"P!AIVDM,2\n".to_vec()]
    );
}

#[test]
fn only_one_carriage_return_is_stripped() {
    let mut out = Vec::new();
    append_prefixed_lines(b"", b"a\r\r\n\rb", &mut out);
    assert_eq!(out, vec![b"a\r\n".to_vec(), b"\rb\n".to_vec()]);
}

#[test]
fn empty_chunk_gives_no_line() {
    let mut out: Vec<Vec<u8>> = Vec::new();
    append_prefixed_lines(b"P", b"", &mut out);
    assert!(out.is_empty());
    append_prefixed_lines(b"P", b"\n\r\n\r", &mut out);
    assert!(out.is_empty());
}

#[test]
fn splitting_at_a_newline_forwards_the_same_lines() {
    let whole = b"!A,1\r\n!A,2\n!A,3";
    let mut at_once = Vec::new();
    append_prefixed_lines(b"\\x\\", whole, &mut at_once);
    let mut in_parts = Vec::new();
    append_prefixed_lines(b"\\x\\", b"!A,1\r\n!A,2", &mut in_parts);
    append_prefixed_lines(b"\\x\\", b"!A,3", &mut in_parts);
    assert_eq!(at_once, in_parts);
}

#[test]
fn formatter_uses_latest_position() {
    let cell = new_cell();
    let mut formatter = Formatter::new(Arc::clone(&cell), false);
    let mut out = Vec::new();
    formatter.process_complete_chunk(b"!AIVDM,x", &mut out).unwrap();
    assert_eq!(out, vec![b"!AIVDM,x\n".to_vec()]);

    cell.store(Some("l:10;20".to_string()));
    out.clear();
    let mut clone = formatter.clone();
    clone.process_complete_chunk(b"!AIVDM,y\r\n", &mut out).unwrap();
    assert_eq!(out, vec![b"\\,l:10;20*42\\!AIVDM,y\n".to_vec()]);
}

#[test]
fn formatter_with_time_prefix() {
    let mut formatter = Formatter::new(new_cell(), true);
    let mut out = Vec::new();
    formatter.process_complete_chunk(b"one\ntwo", &mut out).unwrap();
    assert_eq!(out.len(), 2);
    for (line, payload) in out.iter().zip([&b"one"[..], &b"two"[..]]) {
        assert!(line.starts_with(b"\\c:"));
        assert!(line.ends_with(payload.iter().copied().chain([b'\n']).collect::<Vec<u8>>().as_slice()));
    }
    assert_eq!(out[0][..out[0].len() - 4], out[1][..out[1].len() - 4]);
}

#[test]
fn cloned_formatters_share_the_position() {
    let cell = new_cell();
    let mut first = Formatter::new(Arc::clone(&cell), false);
    let mut second = first.clone();
    cell.store(Some("l:1;2".to_string()));
    let mut a = Vec::new();
    let mut b = Vec::new();
    first.process_complete_chunk(b"x", &mut a).unwrap();
    second.process_complete_chunk(b"x", &mut b).unwrap();
    assert_eq!(a, b);
    assert!(a[0].starts_with(b"\\,l:1;2*"));
}

#[test]
fn format_chunk_at_given_time_and_position() {
    let mut formatter = Formatter::new(new_cell(), true);
    let mut out = Vec::new();
    formatter.format_chunk_at(Some(1_700_000_000), Some("l:4.5;52.25"), b"a\r\nb", &mut out);
    assert_eq!(
        out,
        vec![
            b"\\c:1700000000,l:4.5;52.25*1F\\a\n".to_vec(),
            b"\\c:1700000000,l:4.5;52.25*1F\\b\n".to_vec(),
        ]
    );
    out.clear();
    formatter.format_chunk_at(None, None, b"c", &mut out);
    assert_eq!(out, vec![b"c\n".to_vec()]);
}
