use linestats::error::Error;
use linestats::scanner::{find_terminator, scan_chunks, tail_start, CarryBuffer, LineScanner};

fn chunked(content: &[u8], size: usize) -> Vec<Vec<u8>> {
    content.chunks(size).map(|c| c.to_vec()).collect()
}

fn lines(texts: &[&str]) -> Vec<Vec<u8>> {
    texts.iter().map(|t| t.as_bytes().to_vec()).collect()
}

#[test]
fn chunk_size_five_gives_the_three_lines() {
    let content = b"A;1.0\nB;2.5\nA;3.0\n";
    let got = scan_chunks(&chunked(content, 5), 100).unwrap();
    assert_eq!(got, lines(&["A;1.0", "B;2.5", "A;3.0"]));
}

#[test]
fn every_chunk_size_gives_what_one_chunk_gives() {
    let content = b"Berlin;12.5\n\nCairo;-3.0\nAmsterdam;7\nlast line without end";
    let whole = scan_chunks(&vec![content.to_vec()], 100).unwrap();
    assert_eq!(
        whole,
        lines(&["Berlin;12.5", "", "Cairo;-3.0", "Amsterdam;7", "last line without end"])
    );
    for size in 1..=content.len() {
        assert_eq!(scan_chunks(&chunked(content, size), 100).unwrap(), whole);
    }
}

#[test]
fn chunks_of_varying_sizes_give_the_same_lines() {
    let content = b"A;1.0\nB;2.5\nA;3.0\n";
    let cuts: Vec<Vec<u8>> = vec![
        content[0..1].to_vec(),
        content[1..6].to_vec(),
        content[6..6].to_vec(),
        content[6..13].to_vec(),
        content[13..18].to_vec(),
    ];
    assert_eq!(scan_chunks(&cuts, 100).unwrap(), lines(&["A;1.0", "B;2.5", "A;3.0"]));
}

#[test]
fn a_chunk_that_ends_on_a_terminator_leaves_no_carry() {
    let mut scanner = LineScanner::new(100);
    let got = scanner.feed(b"A;1.0\n").unwrap();
    assert_eq!(got, lines(&["A;1.0"]));
    assert_eq!(scanner.carried_len(), 0);
    let got = scanner.feed(b"B;2.5\n").unwrap();
    assert_eq!(got, lines(&["B;2.5"]));
    assert_eq!(scanner.finish(), None);
}

#[test]
fn a_chunk_that_begins_with_a_terminator_completes_the_carry() {
    let mut scanner = LineScanner::new(100);
    assert_eq!(scanner.feed(b"A;1.0").unwrap(), lines(&[]));
    assert_eq!(scanner.carried_len(), 5);
    assert_eq!(scanner.feed(b"\nB").unwrap(), lines(&["A;1.0"]));
    assert_eq!(scanner.carried_len(), 1);
    assert_eq!(scanner.finish(), Some(b"B".to_vec()));
}

#[test]
fn a_line_may_span_many_chunks() {
    let mut scanner = LineScanner::new(100);
    assert_eq!(scanner.feed(b"Ham").unwrap(), lines(&[]));
    assert_eq!(scanner.feed(b"bur").unwrap(), lines(&[]));
    assert_eq!(scanner.feed(b"g;1").unwrap(), lines(&[]));
    assert_eq!(scanner.feed(b".5\nX").unwrap(), lines(&["Hamburg;1.5"]));
    assert_eq!(scanner.finish(), Some(b"X".to_vec()));
}

#[test]
fn an_empty_chunk_changes_nothing() {
    let mut scanner = LineScanner::new(100);
    assert_eq!(scanner.feed(b"abc").unwrap(), lines(&[]));
    assert_eq!(scanner.feed(b"").unwrap(), lines(&[]));
    assert_eq!(scanner.carried_len(), 3);
    assert_eq!(scanner.feed(b"\n").unwrap(), lines(&["abc"]));
}

#[test]
fn end_of_file_without_trailing_terminator() {
    let got = scan_chunks(&vec![b"A;1.0\nB;2.0".to_vec()], 100).unwrap();
    assert_eq!(got, lines(&["A;1.0", "B;2.0"]));
    let got = scan_chunks(&chunked(b"A;1.0\nB;2.0", 4), 100).unwrap();
    assert_eq!(got, lines(&["A;1.0", "B;2.0"]));
}

#[test]
fn an_empty_final_line_is_not_emitted() {
    assert_eq!(scan_chunks(&vec![b"A\nB\n".to_vec()], 100).unwrap(), lines(&["A", "B"]));
    assert_eq!(scan_chunks(&vec![], 100).unwrap(), lines(&[]));
    assert_eq!(scan_chunks(&vec![b"".to_vec()], 100).unwrap(), lines(&[]));
}

#[test]
fn empty_lines_in_the_middle_are_emitted() {
    assert_eq!(scan_chunks(&vec![b"\n\nA\n\n".to_vec()], 100).unwrap(), lines(&["", "", "A", ""]));
}

#[test]
fn a_line_longer_than_the_carry_across_a_boundary_is_too_long() {
    let mut content = vec![b'k'; 150];
    content.extend_from_slice(b";1.0\n");
    let chunks = vec![content[..120].to_vec(), content[120..].to_vec()];
    assert_eq!(scan_chunks(&chunks, 100), Err(Error::LineTooLong));
}

#[test]
fn a_tail_of_exactly_the_capacity_fits() {
    let mut scanner = LineScanner::new(4);
    assert_eq!(scanner.feed(b"x\nabcd").unwrap(), lines(&["x"]));
    assert_eq!(scanner.carried_len(), 4);
    assert_eq!(scanner.feed(b"\n").unwrap(), lines(&["abcd"]));
}

#[test]
fn a_tail_one_byte_over_the_capacity_is_refused_and_nothing_changes() {
    let mut scanner = LineScanner::new(4);
    assert_eq!(scanner.feed(b"ab").unwrap(), lines(&[]));
    assert_eq!(scanner.feed(b"cde"), Err(Error::LineTooLong));
    assert_eq!(scanner.carried_len(), 2);
    assert_eq!(scanner.feed(b"x\nabcde"), Err(Error::LineTooLong));
    assert_eq!(scanner.carried_len(), 2);
    assert_eq!(scanner.feed(b"c\n").unwrap(), lines(&["abc"]));
}

#[test]
fn a_long_line_inside_one_chunk_needs_no_carry() {
    let mut scanner = LineScanner::new(4);
    assert_eq!(scanner.feed(b"a long line\nab").unwrap(), lines(&["a long line"]));
    assert_eq!(scanner.feed(b" and a long completion\n").unwrap(), lines(&["ab and a long completion"]));
}

#[test]
fn a_scanner_without_room_takes_whole_lines_only() {
    let mut scanner = LineScanner::new(0);
    assert_eq!(scanner.capacity(), 0);
    assert_eq!(scanner.feed(b"A\nB\n").unwrap(), lines(&["A", "B"]));
    assert_eq!(scanner.feed(b"A\nB"), Err(Error::LineTooLong));
}

#[test]
fn carry_buffer_checks_every_write() {
    let mut buf = CarryBuffer::new(5);
    assert_eq!(buf.capacity(), 5);
    assert!(buf.is_empty());
    assert_eq!(buf.append(b"abc"), Ok(()));
    assert_eq!(buf.len(), 3);
    assert_eq!(buf.append(b"def"), Err(Error::LineTooLong));
    assert_eq!(buf.len(), 3);
    assert_eq!(buf.append(b"de"), Ok(()));
    assert_eq!(buf.append(b""), Ok(()));
    assert_eq!(buf.append(b"f"), Err(Error::LineTooLong));
    assert_eq!(buf.take(), b"abcde".to_vec());
    assert!(buf.is_empty());
    assert_eq!(buf.capacity(), 5);
    assert_eq!(buf.append(b"12345"), Ok(()));
}

#[test]
fn find_terminator_gives_the_first_at_or_after() {
    let bytes = b"ab\ncd\n\nef";
    assert_eq!(find_terminator(bytes, 0), 2);
    assert_eq!(find_terminator(bytes, 2), 2);
    assert_eq!(find_terminator(bytes, 3), 5);
    assert_eq!(find_terminator(bytes, 6), 6);
    assert_eq!(find_terminator(bytes, 7), 9);
    assert_eq!(find_terminator(bytes, 9), 9);
    assert_eq!(find_terminator(b"", 0), 0);
}

#[test]
fn tail_start_is_just_after_the_last_terminator() {
    assert_eq!(tail_start(b"ab\ncd\n\nef"), 7);
    assert_eq!(tail_start(b"abc"), 0);
    assert_eq!(tail_start(b"abc\n"), 4);
    assert_eq!(tail_start(b""), 0);
    assert_eq!(tail_start(b"\n"), 1);
}
