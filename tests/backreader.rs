use std::io::BufRead;
use std::io::Cursor;

use backreader::back_lines::{trim, BackLines, Next};
use backreader::reading::read_lines_back;
use backreader::scanner::{BackBufReader, Poll, BUF_SIZE};

fn back(data: &[u8], block_size: usize) -> Vec<String> {
    read_lines_back(data, block_size).expect("valid text")
}

fn forward_reversed(data: &[u8]) -> Vec<String> {
    let mut lines: Vec<String> = Cursor::new(data.to_vec())
        .lines()
        .map(|l| l.expect("valid text"))
        .collect();
    lines.reverse();
    lines
}

/// Drives a line sequence over `data` by hand, answering each fetch.
fn drive(data: &[u8], lines: &mut BackLines) -> Vec<String> {
    let mut out = Vec::new();
    loop {
        match lines.next() {
            Next::Line(s) => out.push(s),
            Next::Invalid(b) => panic!("invalid line {:?}", b),
            Next::Fetch { start, len } => {
                let s = start as usize;
                lines.supply(data[s..s + len].to_vec());
            }
            Next::End => return out,
        }
    }
}

#[test]
fn small_file() {
    let mut text = String::new();
    for i in 1..=2000 {
        text.push_str(&format!("{}\n", i));
    }
    let data = text.as_bytes();
    let lines = back(data, BUF_SIZE);
    let lines2 = forward_reversed(data);
    assert_eq!(lines, lines2);
    assert_eq!(lines.len(), 2000);
    assert_eq!(lines[0], "2000");
    assert_eq!(lines[1999], "1");
}

#[test]
fn three_lines_with_terminator() {
    assert_eq!(back(b"a\nb\nc\n", BUF_SIZE), vec!["c", "b", "a"]);
}

#[test]
fn three_lines_without_terminator() {
    assert_eq!(back(b"a\nb\nc", BUF_SIZE), vec!["c", "b", "a"]);
}

#[test]
fn empty_stream() {
    assert_eq!(back(b"", BUF_SIZE), Vec::<String>::new());
    assert_eq!(back(b"", 1), Vec::<String>::new());
}

#[test]
fn single_block_without_trailing_terminator() {
    assert_eq!(back(b"first\nsecond\nlast piece", BUF_SIZE), vec!["last piece", "second", "first"]);
    assert_eq!(back(b"only", BUF_SIZE), vec!["only"]);
}

#[test]
fn terminator_normalization() {
    assert_eq!(back(b"abc\n", BUF_SIZE), vec!["abc"]);
    assert_eq!(back(b"abc\r\n", BUF_SIZE), vec!["abc"]);
    assert_eq!(back(b"abc\n\r", BUF_SIZE), vec!["\r", "abc"]);
    assert_eq!(back(b"x\r\ny\n", 2), vec!["y", "x"]);
    assert_eq!(back(b"\n\n", BUF_SIZE), vec!["", ""]);
}

#[test]
fn trim_removes_one_ending() {
    assert_eq!(trim(b"ab\r\n".to_vec()), b"ab".to_vec());
    assert_eq!(trim(b"ab\n".to_vec()), b"ab".to_vec());
    assert_eq!(trim(b"ab\n\n".to_vec()), b"ab\n".to_vec());
    assert_eq!(trim(b"ab\r".to_vec()), b"ab\r".to_vec());
    assert_eq!(trim(b"\r\n".to_vec()), Vec::<u8>::new());
    assert_eq!(trim(Vec::new()), Vec::<u8>::new());
}

#[test]
fn boundary_straddling_lines() {
    let block = 16usize;
    let middle: Vec<u8> = (0..2 * block + 5).map(|i| b'a' + (i % 26) as u8).collect();
    for blocks in 1..4usize {
        for delta in 0..5usize {
            // the middle line's terminator stands block * blocks + delta - 2
            // bytes before the end of the stream
            let tail_len = block * blocks + delta - 3;
            let mut data = Vec::new();
            data.extend_from_slice(b"head line\n");
            data.extend_from_slice(&middle);
            data.push(b'\n');
            let tail: Vec<u8> = (0..tail_len).map(|i| b'A' + (i % 26) as u8).collect();
            data.extend_from_slice(&tail);
            data.push(b'\n');
            let got = back(&data, block);
            assert_eq!(got, forward_reversed(&data));
            assert_eq!(got.len(), 3);
            assert_eq!(got[0].as_bytes(), &tail[..]);
            assert_eq!(got[1].as_bytes(), &middle[..]);
            assert_eq!(got[2], "head line");
        }
    }
}

#[test]
fn round_trip_many_block_sizes() {
    let samples: Vec<&[u8]> = vec![
        b"",
        b"\n",
        b"one",
        b"one\ntwo\nthree\n",
        b"one\r\ntwo\r\nthree",
        b"\n\nx\n\n",
        b"a much longer line than any block here\nshort\n\nanother rather long line of text",
    ];
    for data in samples {
        for block in 1..12usize {
            assert_eq!(back(data, block), forward_reversed(data), "block {}", block);
        }
        assert_eq!(back(data, BUF_SIZE), forward_reversed(data));
    }
}

#[test]
fn lines_longer_than_a_block() {
    let long: String = std::iter::repeat('x').take(2000).collect();
    let text = format!("start\n{}\nend", long);
    assert_eq!(back(text.as_bytes(), BUF_SIZE), vec!["end".to_string(), long.clone(), "start".to_string()]);
    assert_eq!(back(long.as_bytes(), BUF_SIZE), vec![long.clone()]);
}

#[test]
fn stream_of_exact_block_multiple() {
    let line: String = std::iter::repeat('q').take(511).collect();
    let text = format!("{}\n{}\n", line, line);
    assert_eq!(text.len(), 1024);
    assert_eq!(back(text.as_bytes(), BUF_SIZE), vec![line.clone(), line]);
}

#[test]
fn multibyte_text_is_decoded() {
    let text = "héllo\nwörld €\n";
    assert_eq!(back(text.as_bytes(), 3), vec!["wörld €", "héllo"]);
}

#[test]
fn invalid_utf8_is_reported() {
    let data: &[u8] = b"good\nbad \xff\r\nlast\n";
    let r = read_lines_back(data, BUF_SIZE);
    assert_eq!(r, Err(b"bad \xff".to_vec()));
}

#[test]
fn exhaustion_is_idempotent() {
    let data: &[u8] = b"a\nb\n";
    let mut lines = BackBufReader::with_block_size(data.len() as u64, 3).lines();
    assert_eq!(drive(data, &mut lines), vec!["b", "a"]);
    for _ in 0..3 {
        assert!(matches!(lines.next(), Next::End));
    }
}

#[test]
fn scanner_asks_for_blocks_from_the_end() {
    let mut r = BackBufReader::new(1000);
    assert!(matches!(r.poll(), Poll::Fetch { start: 488, len: 512 }));
    // asking again without supplying repeats the request
    assert!(matches!(r.poll(), Poll::Fetch { start: 488, len: 512 }));
    let mut block = vec![b'z'; 512];
    block[100] = b'\n';
    block[511] = b'\n';
    r.supply(block);
    match r.poll() {
        Poll::Line(l) => assert_eq!(l, {
            let mut v = vec![b'z'; 410];
            v.push(b'\n');
            v
        }),
        _ => panic!("expected a line"),
    }
    assert!(matches!(r.poll(), Poll::Fetch { start: 0, len: 488 }));
    r.supply(vec![b'y'; 488]);
    match r.poll() {
        Poll::Line(l) => {
            assert_eq!(l.len(), 488 + 101);
            assert_eq!(l[0], b'y');
            assert_eq!(l[588], b'\n');
        }
        _ => panic!("expected a line"),
    }
    assert!(matches!(r.poll(), Poll::End));
    assert!(matches!(r.poll(), Poll::End));
}

#[test]
fn empty_scanner_ends_at_once() {
    let mut r = BackBufReader::new(0);
    assert!(matches!(r.poll(), Poll::End));
}
