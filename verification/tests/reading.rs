use comp_input::{BrokenInput, FailingSource, FormattedRead, MemorySource, ReadError};

fn reader(input: &[u8]) -> FormattedRead<MemorySource> {
    FormattedRead::new(MemorySource::new(input.to_vec()))
}

fn reader_in_pieces(input: &[u8], cuts: &[usize]) -> FormattedRead<MemorySource> {
    FormattedRead::new(MemorySource::with_cuts(input.to_vec(), cuts.to_vec()))
}

fn reader_that_breaks(
    input: &[u8],
    cuts: &[usize],
    limit: usize,
) -> FormattedRead<FailingSource> {
    let inner = MemorySource::with_cuts(input.to_vec(), cuts.to_vec());
    FormattedRead::new(FailingSource::new(inner, limit))
}

fn broken(position: usize) -> ReadError<BrokenInput> {
    ReadError::Io(BrokenInput { position })
}

fn every(step: usize, len: usize) -> Vec<usize> {
    (1..len).filter(|i| i % step == 0).collect()
}

#[test]
fn lib_test_graph() {
    let input = b"3 4\n1 2\n1 3\n2 3\n2 1\n";
    let mut reader = FormattedRead::new(MemorySource::new(input.to_vec()));

    let n = reader.read_word::<usize>().expect("failed to read usize");
    let m = reader.read_word::<usize>().expect("failed to read usize");
    let edges = (0..m)
        .map(|_| {
            (
                reader.read_word::<usize>().expect("failed to read usize") - 1,
                reader.read_word::<usize>().expect("failed to read usize") - 1,
            )
        })
        .collect::<Vec<_>>();

    assert_eq!(n, 3);
    assert_eq!(m, 4);
    assert_eq!(edges, vec![(0, 1), (0, 2), (1, 2), (1, 0)]);
}

#[test]
fn test_crlf() {
    let input = b"3 b\r\nHello World!\r\n-2 -1 0\r\nFino.\r\n";
    let mut reader = FormattedRead::new(MemorySource::new(input.to_vec()));

    let a = reader.read_word::<u32>().expect("failed to read u32");
    let b = reader.read_word::<char>().expect("failed to read char");
    let c = reader.read_line::<String>().expect("failed to read line");
    let mut d = [0i8; 3];
    for i in 0..3 {
        d[i] = reader.read_word::<i8>().expect("failed to read i8");
    }
    let e = reader.read_word::<String>().expect("failed to read String");

    assert_eq!(a, 3);
    assert_eq!(b, 'b');
    assert_eq!(c, "Hello World!");
    assert_eq!(d, [-2, -1, 0]);
    assert_eq!(e, "Fino.");
}

#[test]
fn test_test_graph() {
    let input = b"3 4\n1 2\n1 3\n2 3\n2 1";
    let mut reader = FormattedRead::new(MemorySource::new(input.to_vec()));

    let n = reader.read_word::<usize>().expect("failed to read usize");
    let m = reader.read_word::<usize>().expect("failed to read usize");
    let mut edges = Vec::new();
    let mut failure = None;
    for _ in 0..m {
        let from = reader.read_word::<usize>();
        let to = reader.read_word::<usize>();
        match (from, to) {
            (Ok(from), Ok(to)) => edges.push((from - 1, to - 1)),
            (_, Err(e)) | (Err(e), _) => failure = Some(e),
        }
    }

    assert_eq!(n, 3);
    assert_eq!(m, 4);
    // No delimiter stands behind the last number, so the last edge is never
    // complete.
    assert_eq!(edges, vec![(0, 1), (0, 2), (1, 2)]);
    assert_eq!(failure, Some(ReadError::EndOfInput));
}

#[test]
fn word_split_across_one_byte_pieces() {
    let mut reader = reader_in_pieces(b"12345 ", &[1, 2, 3, 4, 5]);
    assert_eq!(reader.read_word::<u32>(), Ok(12345));
    assert_eq!(reader.read_word::<u32>(), Err(ReadError::EndOfInput));
}

#[test]
fn words_do_not_depend_on_the_pieces() {
    let input = b"  12 -7\t+30\r\n999\x0c0 \n";
    let text = std::str::from_utf8(input).unwrap();
    let expected: Vec<i64> = text.split_ascii_whitespace().map(|w| w.parse().unwrap()).collect();
    assert_eq!(expected, vec![12, -7, 30, 999, 0]);
    for step in 1..=input.len() {
        let mut reader = reader_in_pieces(input, &every(step, input.len()));
        let mut seen = Vec::new();
        loop {
            match reader.read_word::<i64>() {
                Ok(value) => seen.push(value),
                Err(e) => {
                    assert_eq!(e, ReadError::EndOfInput);
                    break;
                }
            }
        }
        assert_eq!(seen, expected, "pieces of {} bytes", step);
    }
}

#[test]
fn words_with_uneven_pieces() {
    let mut reader = reader_in_pieces(b"alpha  beta\ngamma ", &[2, 3, 7, 8, 12, 17]);
    assert_eq!(reader.read_word::<String>().unwrap(), "alpha");
    assert_eq!(reader.read_word::<String>().unwrap(), "beta");
    assert_eq!(reader.read_word::<String>().unwrap(), "gamma");
    assert_eq!(reader.read_word::<String>(), Err(ReadError::EndOfInput));
}

#[test]
fn string_word_is_the_bytes_between_whitespace() {
    let input = "\t h\u{e9}llo w\u{f6}rld\n";
    let mut reader = reader(input.as_bytes());
    let first = reader.read_word::<String>().unwrap();
    let second = reader.read_word::<String>().unwrap();
    assert_eq!(first.as_bytes(), "h\u{e9}llo".as_bytes());
    assert_eq!(second, "w\u{f6}rld");
    assert!(!first.bytes().any(|b| b.is_ascii_whitespace()));
}

#[test]
fn exactly_one_delimiter_is_consumed_after_a_word() {
    let mut reader = reader(b"ab\r\ncd\n");
    assert_eq!(reader.read_word::<String>().unwrap(), "ab");
    // The carriage return went with the word. The line feed is still
    // there, and is passed over as whitespace before the line.
    assert_eq!(reader.read_line::<String>().unwrap(), "cd");
}

#[test]
fn line_loses_one_carriage_return_only() {
    let mut reader = reader(b"one\r\ntwo\nthree\r\r\nfour\r");
    assert_eq!(reader.read_line::<String>().unwrap(), "one");
    assert_eq!(reader.read_line::<String>().unwrap(), "two");
    assert_eq!(reader.read_line::<String>().unwrap(), "three\r");
    // A carriage return alone does not close a line.
    assert_eq!(reader.read_line::<String>(), Err(ReadError::EndOfInput));
}

#[test]
fn line_keeps_inner_and_trailing_blanks() {
    let mut reader = reader(b"Hello  World! \t\nnext\n");
    assert_eq!(reader.read_line::<String>().unwrap(), "Hello  World! \t");
    assert_eq!(reader.read_line::<String>().unwrap(), "next");
}

#[test]
fn blank_lines_and_blanks_before_a_line_are_passed_over() {
    let mut reader = reader(b"\n\r\n   \t\n  first line\n\n\nsecond\n");
    assert_eq!(reader.read_line::<String>().unwrap(), "first line");
    assert_eq!(reader.read_line::<String>().unwrap(), "second");
    assert_eq!(reader.read_line::<String>(), Err(ReadError::EndOfInput));
}

#[test]
fn whitespace_run_across_pieces_is_passed_over() {
    let input = b" \t\n\r \x0c  \n 7 \n\n\n\n x\n";
    for step in 1..=input.len() {
        let mut reader = reader_in_pieces(input, &every(step, input.len()));
        assert_eq!(reader.read_word::<u8>(), Ok(7));
        assert_eq!(reader.read_line::<String>().unwrap(), "x");
    }
}

#[test]
fn no_whitespace_before_the_first_word() {
    let mut reader = reader(b"1 2 ");
    assert_eq!(reader.read_word::<u8>(), Ok(1));
    assert_eq!(reader.read_word::<u8>(), Ok(2));
}

#[test]
fn line_split_across_pieces() {
    let input = b"Hello World!\r\nsecond line\nthird\r\n";
    for step in 1..=input.len() {
        let mut reader = reader_in_pieces(input, &every(step, input.len()));
        assert_eq!(reader.read_line::<String>().unwrap(), "Hello World!");
        assert_eq!(reader.read_line::<String>().unwrap(), "second line");
        assert_eq!(reader.read_line::<String>().unwrap(), "third");
        assert_eq!(reader.read_line::<String>(), Err(ReadError::EndOfInput));
    }
}

#[test]
fn carriage_return_and_line_feed_in_different_pieces() {
    let mut reader = reader_in_pieces(b"ab\r\ncd\n", &[3]);
    assert_eq!(reader.read_line::<String>().unwrap(), "ab");
    assert_eq!(reader.read_line::<String>().unwrap(), "cd");
}

#[test]
fn line_feed_is_found_where_it_stands() {
    let mut reader = reader(b"a b\nc d\n");
    assert_eq!(reader.read_line::<String>().unwrap(), "a b");
    assert_eq!(reader.read_word::<char>(), Ok('c'));
    assert_eq!(reader.read_line::<String>().unwrap(), "d");
}

#[test]
fn end_of_input_on_empty_and_blank_input() {
    for input in [&b""[..], &b" "[..], &b"\n\n"[..], &b" \t\r\n\x0c "[..]] {
        assert_eq!(reader(input).read_word::<u32>(), Err(ReadError::EndOfInput));
        assert_eq!(reader(input).read_line::<String>(), Err(ReadError::EndOfInput));
        let cuts = every(1, input.len());
        assert_eq!(
            reader_in_pieces(input, &cuts).read_word::<String>(),
            Err(ReadError::EndOfInput)
        );
    }
}

#[test]
fn end_of_input_inside_a_word() {
    assert_eq!(reader(b"42").read_word::<u32>(), Err(ReadError::EndOfInput));
    assert_eq!(reader_in_pieces(b"  42", &[1, 3]).read_word::<u32>(), Err(ReadError::EndOfInput));
    // The word is not looked at: end of input is reported, not invalid data.
    assert_eq!(reader(b"4x").read_word::<u32>(), Err(ReadError::EndOfInput));
}

#[test]
fn end_of_input_inside_a_line() {
    assert_eq!(reader(b"no line feed").read_line::<String>(), Err(ReadError::EndOfInput));
    assert_eq!(
        reader_in_pieces(b"no line feed\r", &[4, 8]).read_line::<String>(),
        Err(ReadError::EndOfInput)
    );
}

#[test]
fn invalid_data_for_each_kind_of_word() {
    assert_eq!(reader(b"12a ").read_word::<u32>(), Err(ReadError::InvalidData));
    assert_eq!(reader(b"+5 ").read_word::<u32>(), Err(ReadError::InvalidData));
    assert_eq!(reader(b"- ").read_word::<i32>(), Err(ReadError::InvalidData));
    assert_eq!(reader(b"ab ").read_word::<char>(), Err(ReadError::InvalidData));
    assert_eq!(reader(b"\xffxyz ").read_word::<String>(), Err(ReadError::InvalidData));
    assert_eq!(
        reader_in_pieces(b"12a ", &[1, 2, 3]).read_word::<u32>(),
        Err(ReadError::InvalidData)
    );
}

#[test]
fn invalid_data_for_a_line_that_is_not_utf8() {
    assert_eq!(reader(b"ab\xc3\n").read_line::<String>(), Err(ReadError::InvalidData));
    assert_eq!(
        reader_in_pieces(b"ab\xc3\r\n", &[2]).read_line::<String>(),
        Err(ReadError::InvalidData)
    );
}

#[test]
fn form_feed_delimits_and_vertical_tab_does_not() {
    let mut reader = reader(b"a\x0cb c\x0bd ");
    assert_eq!(reader.read_word::<String>().unwrap(), "a");
    assert_eq!(reader.read_word::<String>().unwrap(), "b");
    assert_eq!(reader.read_word::<String>().unwrap(), "c\x0bd");
}

#[test]
fn bytes_above_ascii_are_payload() {
    // U+00A0 and U+2003 are blanks to Unicode, and plain bytes here.
    let input = "a\u{a0}b\u{2003}c d\n";
    let mut reader = reader(input.as_bytes());
    assert_eq!(reader.read_word::<String>().unwrap(), "a\u{a0}b\u{2003}c");
    assert_eq!(reader.read_word::<String>().unwrap(), "d");
}

#[test]
fn accumulator_is_fresh_for_each_token() {
    let mut reader = reader_in_pieces(b"abcdef gh\nij kl\n", &[3, 8, 11, 13]);
    assert_eq!(reader.read_word::<String>().unwrap(), "abcdef");
    assert_eq!(reader.read_line::<String>().unwrap(), "gh");
    assert_eq!(reader.read_word::<String>().unwrap(), "ij");
    assert_eq!(reader.read_line::<String>().unwrap(), "kl");
}

#[test]
fn wrapping_is_silent_when_reading_words() {
    let mut reader = reader(b"256 4294967296 -129\n");
    assert_eq!(reader.read_word::<u8>(), Ok(0));
    assert_eq!(reader.read_word::<u32>(), Ok(0));
    assert_eq!(reader.read_word::<i8>(), Ok(127));
}

#[test]
fn failure_of_the_source_is_handed_on_as_it_came() {
    // While whitespace is passed over.
    let mut reader = reader_that_breaks(b"   12 ", &[2], 2);
    assert_eq!(reader.read_word::<u32>(), Err(broken(2)));
    // Before the first byte of the word is shown.
    let mut reader = reader_that_breaks(b"12 34 ", &[3], 3);
    assert_eq!(reader.read_word::<u32>(), Ok(12));
    assert_eq!(reader.read_word::<u32>(), Err(broken(3)));
    // In the middle of a word.
    let mut reader = reader_that_breaks(b"12345 ", &[2, 4], 4);
    assert_eq!(reader.read_word::<u32>(), Err(broken(4)));
    // In the middle of a line.
    let mut reader = reader_that_breaks(b"one\ntwo three\n", &[4, 8], 8);
    assert_eq!(reader.read_line::<String>().unwrap(), "one");
    assert_eq!(reader.read_line::<String>(), Err(broken(8)));
}

#[test]
fn source_that_breaks_late_enough_does_not_matter() {
    let mut reader = reader_that_breaks(b"12 ab\n", &[1, 2, 3, 4, 5], 6);
    assert_eq!(reader.read_word::<u32>(), Ok(12));
    assert_eq!(reader.read_line::<String>().unwrap(), "ab");
    assert_eq!(reader.read_word::<u32>(), Err(broken(6)));
}
