use imessage_undeleter::handwriting::{
    decompress_strokes, parse_coordinates, parse_dimensions, parse_strokes, HandwritingPayload,
    HandwrittenMessage, Point, StrokeCompression,
};
use imessage_undeleter::strutil::{contains_sub, i64_to_string, split_commas, str_lt, u64_to_string};

fn coord_bytes(v: u16) -> [u8; 2] {
    (v ^ 0x8000).to_le_bytes()
}

fn payload() -> HandwritingPayload {
    // One stroke of two points: (10, 20) width 3 and (90, 40) width 1,
    // in a 100 by 50 frame.
    let mut strokes: Vec<u8> = vec![2, 0];
    for (x, y, w) in [(10u16, 20u16, 3u16), (90, 40, 1)] {
        strokes.extend_from_slice(&coord_bytes(x));
        strokes.extend_from_slice(&coord_bytes(y));
        strokes.extend_from_slice(&coord_bytes(w));
        strokes.extend_from_slice(&[0, 0]);
    }
    let mut frame = vec![0, 0, 0, 0];
    frame.extend_from_slice(&coord_bytes(100));
    frame.extend_from_slice(&coord_bytes(50));
    HandwritingPayload {
        id: "e8fae151".to_string(),
        created_at: 577234961,
        compression: StrokeCompression::Uncompressed,
        strokes,
        decompressed_length: None,
        frame,
    }
}

#[test]
fn coordinates_flip_the_sign_bit() {
    assert_eq!(parse_coordinates(0x64, 0x80), 100);
    assert_eq!(parse_coordinates(0x0A, 0x80), 10);
}

#[test]
fn dimensions_come_from_the_frame_tail() {
    let p = payload();
    assert_eq!(parse_dimensions(&p), Ok((100, 50)));
}

#[test]
fn strokes_parse_and_scale_into_the_frame() {
    let p = payload();
    let raw = parse_strokes(&decompress_strokes(&p).unwrap()).unwrap();
    assert_eq!(
        raw,
        vec![vec![
            Point { x: 10, y: 20, width: 3 },
            Point { x: 90, y: 40, width: 1 },
        ]]
    );

    let msg = HandwrittenMessage::from_payload(&p).unwrap();
    assert_eq!(msg.id, "e8fae151");
    assert_eq!(msg.created_at, 577234961);
    assert_eq!(msg.width, 105);
    assert_eq!(msg.height, 55);
    // x scales by 100/90, y by 50/40, and the pen width onto 1..=10.
    assert_eq!(
        msg.strokes,
        vec![vec![
            Point { x: 11, y: 25, width: 14 },
            Point { x: 100, y: 50, width: 5 },
        ]]
    );
}

#[test]
fn truncated_stroke_data_is_rejected() {
    let mut p = payload();
    p.strokes.truncate(5);
    assert!(HandwrittenMessage::from_payload(&p).is_err());
}

#[test]
fn unknown_compression_is_rejected() {
    let mut p = payload();
    p.compression = StrokeCompression::Unrecognized;
    assert!(HandwrittenMessage::from_payload(&p).is_err());
}

#[test]
fn svg_carries_frame_and_polylines() {
    let msg = HandwrittenMessage::from_payload(&payload()).unwrap();
    let svg = msg.render_svg();
    assert!(svg.starts_with("\n<svg viewBox=\"0 0 105 55\""));
    assert!(svg.contains("<id>e8fae151</id>"));
    assert!(svg.contains("<createdAt>577234961</createdAt>"));
    assert!(svg.contains("<polyline class=\"line\" points=\"11,25 100,50\" stroke-width=\"14\" />"));
    assert!(svg.ends_with("</svg>\n"));
}

#[test]
fn ascii_canvas_has_uniform_rows() {
    let msg = HandwrittenMessage::from_payload(&payload()).unwrap();
    let art = msg.render_ascii(40);
    let lines: Vec<&str> = art.split('\n').collect();
    // 40 rows, each of the same width, and a trailing empty piece after
    // the final newline.
    assert_eq!(lines.len(), 41);
    assert_eq!(lines[40], "");
    for line in &lines[..40] {
        assert_eq!(line.len(), lines[0].len());
        assert!(line.chars().all(|c| c == ' ' || c == '*'));
    }
    assert!(art.contains('*'));
}

#[test]
fn decimal_rendering_matches_expected_text() {
    assert_eq!(u64_to_string(0), "0");
    assert_eq!(u64_to_string(42), "42");
    assert_eq!(u64_to_string(18446744073709551615), "18446744073709551615");
    assert_eq!(i64_to_string(-5), "-5");
    assert_eq!(i64_to_string(-9223372036854775808), "-9223372036854775808");
    assert_eq!(i64_to_string(17), "17");
}

#[test]
fn string_order_and_search_behave_like_std() {
    assert!(str_lt("alice@x", "bob@y"));
    assert!(!str_lt("bob@y", "alice@x"));
    assert!(str_lt("+15550001", "alice@x"));
    assert!(!str_lt("same", "same"));

    assert!(contains_sub("alice@example.com", "alice"));
    assert!(contains_sub("alice@example.com", ""));
    assert!(!contains_sub("alice@example.com", "bob"));

    let parts = split_commas("alice,bob");
    assert_eq!(parts, vec!["alice".to_string(), "bob".to_string()]);
    let single = split_commas("carol");
    assert_eq!(single, vec!["carol".to_string()]);
}
