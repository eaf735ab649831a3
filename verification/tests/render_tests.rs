use live_preview::render::{render_block, render_line, split_lines};

const RESET: &str = "\x1B[2J\x1B[1;1H";

fn segs(lines: &[&[u8]]) -> Vec<Vec<u8>> {
    lines.iter().map(|l| l.to_vec()).collect()
}

#[test]
fn split_lines_basic() {
    assert_eq!(split_lines(b"hello world\n"), segs(&[b"hello world"]));
    assert_eq!(split_lines(b"a\nb\n"), segs(&[b"a", b"b"]));
    assert_eq!(split_lines(b""), segs(&[]));
}

#[test]
fn split_lines_trailing_segment_kept() {
    assert_eq!(split_lines(b"a\nb"), segs(&[b"a", b"b"]));
    assert_eq!(split_lines(b"no newline"), segs(&[b"no newline"]));
}

#[test]
fn split_lines_empty_lines() {
    assert_eq!(split_lines(b"\n\n"), segs(&[b"", b""]));
    assert_eq!(split_lines(b"a\n\nb\n"), segs(&[b"a", b"", b"b"]));
}

#[test]
fn split_lines_crlf() {
    assert_eq!(split_lines(b"a\r\nb\r\n"), segs(&[b"a", b"b"]));
    // A carriage return not followed by a newline stays in the line.
    assert_eq!(split_lines(b"a\rb\n"), segs(&[b"a\rb"]));
    // Only one carriage return is stripped before the newline.
    assert_eq!(split_lines(b"a\r\r\n"), segs(&[b"a\r"]));
    // A trailing carriage return without a newline is kept.
    assert_eq!(split_lines(b"a\r"), segs(&[b"a\r"]));
}

#[test]
fn render_line_decodes_text() {
    assert_eq!(render_line(&b"plain".to_vec()), "plain");
    // Multi-byte characters are decoded, not passed through as bytes.
    assert_eq!(render_line(&"héllo".as_bytes().to_vec()), "héllo");
}

#[test]
fn render_line_invalid_bytes_become_placeholder() {
    assert_eq!(render_line(&vec![0xff, 0xfe]), "(invalid utf-8 line)");
    // 0xC3 starts a two-byte sequence that never completes.
    assert_eq!(render_line(&vec![b'a', 0xc3]), "(invalid utf-8 line)");
}

#[test]
fn block_starts_with_reset_and_stderr_lines_come_first() {
    let block = render_block(b"warning\n", b"out1\nout2\n");
    assert_eq!(
        block,
        vec![
            format!("{}warning", RESET),
            "out1".to_string(),
            "out2".to_string(),
        ]
    );
}

#[test]
fn empty_result_still_clears_the_screen() {
    assert_eq!(render_block(b"", b""), vec![RESET.to_string()]);
}

#[test]
fn reset_emitted_once_per_block() {
    let block = render_block(b"", b"x\ny\n");
    assert_eq!(block.len(), 2);
    assert!(block[0].starts_with(RESET));
    assert!(!block[1].contains(RESET));
}

#[test]
fn blocks_stay_contiguous_across_results() {
    // The lines a session prints are the blocks of its results, one after
    // another: the second result's block begins only after the whole of
    // the first.
    let first = render_block(b"e1\n", b"o1\no2\n");
    let second = render_block(b"", b"p\n");
    let mut session: Vec<String> = Vec::new();
    session.extend(first.iter().cloned());
    session.extend(second.iter().cloned());
    assert_eq!(&session[..first.len()], &first[..]);
    assert_eq!(&session[first.len()..], &second[..]);
    assert_eq!(
        session,
        vec![
            format!("{}e1", RESET),
            "o1".to_string(),
            "o2".to_string(),
            format!("{}p", RESET),
        ]
    );
}

#[test]
fn invalid_line_among_valid_ones() {
    let mut bytes = Vec::new();
    bytes.extend_from_slice(b"good\n");
    bytes.extend_from_slice(&[0xff, b'\n']);
    bytes.extend_from_slice(b"also good\n");
    let block = render_block(b"", &bytes);
    assert_eq!(
        block,
        vec![
            format!("{}good", RESET),
            "(invalid utf-8 line)".to_string(),
            "also good".to_string(),
        ]
    );
}
