use parsley::{
    encode_utf8, generate_lines, is_line_break, Blackhole, Chars, Clusters, Graphemes,
    InclusiveRange, Line, Span, REPLACEMENT,
};

#[test]
fn test_graphemes() {
    let input = "Hello, My name is \n \r\n \r\n\r \n\t\r\nNoah!";
    let mut graphemes = Graphemes::new(input.as_bytes().to_vec(), false, false);

    let mut seen: Vec<String> = Vec::new();
    let mut expected_index = 0usize;
    loop {
        match graphemes.peek() {
            Some((peeked, location)) => {
                assert_eq!(location.index, graphemes.current_index());
                let (next, location) = graphemes.next().unwrap().unwrap();
                assert_eq!(next, peeked);
                assert_eq!(location.index, expected_index);
                assert_eq!(graphemes.current_index(), expected_index);
                expected_index += 1;
                seen.push(next);
            }
            None => {
                graphemes.reset_peek();
                break;
            }
        }
    }
    assert_eq!(seen.concat(), input);
    assert!(seen.contains(&"\r\n".to_string()));
    assert_eq!(graphemes.current_line(), 5);
    assert_eq!(graphemes.lines()[5], "Noah!");
    assert_eq!(graphemes.lines()[0], "Hello, My name is ");
}

#[test]
fn peeking_keeps_the_location() {
    let mut graphemes = Graphemes::new("ab\ncd".as_bytes().to_vec(), true, false);
    graphemes.next();
    let index = graphemes.current_index();
    let (first, loc1) = graphemes.peek().unwrap();
    let (second, loc2) = graphemes.peek().unwrap();
    let (third, loc3) = graphemes.peek().unwrap();
    assert_eq!((first.as_str(), second.as_str(), third.as_str()), ("b", "\n", "c"));
    assert_eq!(loc1.index, index);
    assert_eq!((loc2.line, loc2.column), (0, 1));
    assert_eq!((loc3.line, loc3.column), (0, 1));
    assert_eq!(graphemes.current_index(), index);
    assert_eq!(graphemes.current_line(), 0);
    graphemes.reset_peek();
    let (again, _) = graphemes.peek().unwrap();
    assert_eq!(again, "b");
    let (next, location) = graphemes.next().unwrap().unwrap();
    assert_eq!(next, "b");
    assert_eq!(location.index, index + 1);
    assert_eq!(location.column, 1);
}

#[test]
fn line_and_column_bookkeeping() {
    let mut graphemes = Graphemes::from("a\r\nbc".as_bytes().to_vec());
    let (_, a) = graphemes.next().unwrap().unwrap();
    let (brk, l) = graphemes.next().unwrap().unwrap();
    let (_, b) = graphemes.next().unwrap().unwrap();
    let (_, c) = graphemes.next().unwrap().unwrap();
    assert!(graphemes.next().is_none());
    assert_eq!((a.line, a.column), (0, 0));
    assert_eq!(brk, "\r\n");
    assert_eq!((l.line, l.column), (0, 1));
    assert_eq!((b.line, b.column), (1, 0));
    assert_eq!((c.line, c.column), (1, 1));
    assert_eq!(c.byte_range, InclusiveRange::new(4, 4));
    assert_eq!(graphemes.grapheme_count(), 4);
    assert_eq!(graphemes.lines().to_vec(), vec!["a".to_string(), "bc".to_string()]);
    assert_eq!(graphemes.current_byte_index(), 4);
    assert_eq!(graphemes.byte_count(), 5);
    assert!(graphemes.bytes().is_empty());
}

#[test]
fn combining_marks_form_one_grapheme() {
    let mut clusters = Clusters::new("e\u{301}x".as_bytes().to_vec(), true, false);
    let (first, range) = clusters.next().unwrap().unwrap();
    assert_eq!(first, "e\u{301}");
    assert_eq!(range, InclusiveRange::new(0, 2));
    let (second, range) = clusters.next().unwrap().unwrap();
    assert_eq!(second, "x");
    assert_eq!(range, InclusiveRange::new(3, 3));
    assert!(clusters.next().is_none());
    assert_eq!(clusters.bytes(), "e\u{301}x".as_bytes());
    assert_eq!(clusters.byte_count(), 4);
}

#[test]
fn strict_clusters_hold_back_an_error() {
    let mut clusters = Clusters::new(vec![b'a', 0x80, b'b'], false, false);
    assert_eq!(clusters.next().unwrap().unwrap().0, "a");
    assert_eq!(clusters.next().unwrap().unwrap_err(), vec![0x80]);
    assert_eq!(clusters.next().unwrap().unwrap().0, "b");
    assert!(clusters.next().is_none());
    assert_eq!(clusters.invalid_bytes(), 1);
    assert_eq!(clusters.valid_bytes(), 2);
}

#[test]
fn valid_input_decodes_alike_in_both_modes() {
    let input = "h\u{e9}llo \u{1F600}\r\n".as_bytes().to_vec();
    let mut lossy = Graphemes::new(input.clone(), true, false);
    let mut strict = Graphemes::new(input, false, false);
    loop {
        let a = lossy.next();
        let b = strict.next();
        match (a, b) {
            (None, None) => break,
            (Some(Ok((ga, la))), Some(Ok((gb, lb)))) => {
                assert_eq!(ga, gb);
                assert_eq!(la, lb);
            }
            other => panic!("modes differ: {:?}", other),
        }
    }
    assert_eq!(lossy.invalid_bytes(), 0);
    assert_eq!(strict.invalid_bytes(), 0);
}

#[test]
fn lossy_mode_counts_and_replaces_invalid_runs() {
    let input = vec![b'a', 0xFF, 0xFE, b'b', 0xE2, 0x28, 0xA1];
    let mut chars = Chars::new(input, true, false);
    let mut out: Vec<char> = Vec::new();
    while let Some(item) = chars.next() {
        out.push(item.unwrap().0);
    }
    assert_eq!(out, vec!['a', REPLACEMENT, 'b', REPLACEMENT]);
    assert_eq!(chars.invalid_bytes(), 5);
    assert_eq!(chars.valid_bytes(), 2);
    assert_eq!(chars.byte_count(), 2 + 2 * 3);
}

#[test]
fn strict_mode_reports_the_invalid_bytes() {
    let mut chars = Chars::new(vec![0xE2, 0x28, 0xA1, b'z'], false, true);
    assert_eq!(chars.next(), Some(Err(vec![0xE2, 0x28, 0xA1])));
    let (c, range) = chars.next().unwrap().unwrap();
    assert_eq!(c, 'z');
    assert_eq!(range, InclusiveRange::new(0, 0));
    assert_eq!(chars.next(), None);
    assert!(chars.bytes().is_empty());
}

#[test]
fn utf8_encoding() {
    assert_eq!(encode_utf8('a'), vec![0x61]);
    assert_eq!(encode_utf8('\u{e9}'), vec![0xC3, 0xA9]);
    assert_eq!(encode_utf8(REPLACEMENT), vec![0xEF, 0xBF, 0xBD]);
    assert_eq!(encode_utf8('\u{1F600}'), vec![0xF0, 0x9F, 0x98, 0x80]);
}

#[test]
fn blackhole_counts_or_keeps() {
    let mut kept = Blackhole::new(false);
    kept.extend(&[1, 2, 3]);
    assert_eq!(kept.len(), 3);
    assert_eq!(kept.bytes(), &[1, 2, 3]);
    let mut void = Blackhole::new(true);
    void.extend(&[1, 2, 3]);
    void.extend(&[4]);
    assert_eq!(void.len(), 4);
    assert!(void.bytes().is_empty());
}

#[test]
fn line_breaks() {
    assert!(is_line_break(&"\n".to_string()));
    assert!(is_line_break(&"\r\n".to_string()));
    assert!(!is_line_break(&"\r".to_string()));
    assert!(!is_line_break(&"n".to_string()));
}

#[test]
fn span_lines_for_one_and_many_lines() {
    let lines = vec!["ab\u{e9}".to_string(), "x".to_string(), "hello".to_string()];
    let one = generate_lines(&lines, InclusiveRange::new(1, 1), InclusiveRange::new(2, 5));
    assert_eq!(one, vec![Line { index: 1, range: InclusiveRange::new(2, 5) }]);
    let many = generate_lines(&lines, InclusiveRange::new(0, 2), InclusiveRange::new(1, 3));
    assert_eq!(
        many,
        vec![
            Line { index: 0, range: InclusiveRange::new(1, 2) },
            Line { index: 1, range: InclusiveRange::new(0, 0) },
            Line { index: 2, range: InclusiveRange::new(0, 3) },
        ]
    );
    let past = generate_lines(&lines, InclusiveRange::new(2, 4), InclusiveRange::new(0, 0));
    assert_eq!(past.len(), 3);
    assert_eq!(past[1], Line { index: 3, range: InclusiveRange::new(0, 0) });
}

#[test]
fn span_accessors() {
    let lines = vec!["abc".to_string()];
    let mut span = Span::new(
        &lines,
        InclusiveRange::new(0, 2),
        InclusiveRange::new(0, 2),
        InclusiveRange::new(0, 0),
        InclusiveRange::new(0, 2),
        "file".to_string(),
    );
    assert_eq!(span.source(), "file");
    assert_eq!(span.lines().len(), 1);
    *span.byte_range_mut() = None;
    assert!(span.byte_range().is_none());
    *span.grapheme_range_mut() = Some(InclusiveRange::new(1, 1));
    assert_eq!(span.grapheme_range().unwrap(), InclusiveRange::new(1, 1));
    span.lines_mut().clear();
    assert!(span.lines().is_empty());
    let empty = Span::default();
    assert_eq!(empty.source(), "No Source");
    assert!(empty.grapheme_range().is_none());
}

fn decode_all(input: Vec<u8>, lossy: bool) -> (Vec<Result<char, Vec<u8>>>, usize) {
    let mut chars = Chars::new(input, lossy, false);
    let mut out = Vec::new();
    while let Some(item) = chars.next() {
        out.push(item.map(|(c, _)| c));
    }
    (out, chars.invalid_bytes())
}

#[test]
fn truncated_sequence_at_the_end_is_one_invalid_run() {
    let (out, invalid) = decode_all(vec![b'a', 0xE2, 0x82], true);
    assert_eq!(out, vec![Ok('a'), Ok(REPLACEMENT)]);
    assert_eq!(invalid, 2);
    let (out, invalid) = decode_all(vec![b'a', 0xC3], true);
    assert_eq!(out, vec![Ok('a'), Ok(REPLACEMENT)]);
    assert_eq!(invalid, 1);
    let (out, invalid) = decode_all(vec![b'a', 0xC3], false);
    assert_eq!(out, vec![Ok('a'), Err(vec![0xC3])]);
    assert_eq!(invalid, 1);
}

#[test]
fn adjacent_invalid_bytes_form_one_run() {
    let (out, invalid) = decode_all(vec![0x80, 0x80, b'x', 0xFF], true);
    assert_eq!(out, vec![Ok(REPLACEMENT), Ok('x'), Ok(REPLACEMENT)]);
    assert_eq!(invalid, 3);
    let (out, _) = decode_all(vec![0x80, 0x80, b'x'], false);
    assert_eq!(out, vec![Err(vec![0x80, 0x80]), Ok('x')]);
}

#[test]
fn byte_ranges_follow_each_other() {
    let input = "a\u{e9}\u{1F600}\r\nb".as_bytes().to_vec();
    let mut graphemes = Graphemes::new(input, true, false);
    let mut next_start = 0usize;
    while let Some(item) = graphemes.next() {
        let (g, location) = item.unwrap();
        assert_eq!(location.byte_range.start, next_start);
        assert_eq!(location.byte_range.end + 1 - location.byte_range.start, g.len());
        assert_eq!(graphemes.current_byte_index(), location.byte_range.end);
        next_start = location.byte_range.end + 1;
    }
    assert_eq!(next_start, 10);
}

#[test]
fn every_peek_matches_the_next_it_foresees() {
    let mut graphemes = Graphemes::new("xy\nz".as_bytes().to_vec(), true, false);
    let peeked: Vec<(String, InclusiveRange)> = (0..4)
        .map(|_| {
            let (g, loc) = graphemes.peek().unwrap();
            (g, loc.byte_range)
        })
        .collect();
    assert!(graphemes.peek().is_none());
    for (g, range) in peeked {
        let (next, location) = graphemes.next().unwrap().unwrap();
        assert_eq!(next, g);
        assert_eq!(location.byte_range, range);
    }
    assert!(graphemes.next().is_none());
}

#[test]
fn inner_and_lines_access() {
    let mut graphemes = Graphemes::new("ab".as_bytes().to_vec(), true, false);
    graphemes.next();
    assert_eq!(graphemes.inner().valid_bytes(), 2);
    assert_eq!(graphemes.inner_mut().byte_count(), 2);
    graphemes.lines_mut()[0].push('!');
    assert_eq!(graphemes.lines()[0], "a!");
}
