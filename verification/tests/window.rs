use std::cell::Cell;
use std::rc::Rc;

use rbrep::error::{Error, RbrepResult};
use rbrep::expr::matcher::MatchList;
use rbrep::expr::Expr;
use rbrep::input::{ByteSource, FileBufferInput, MatchInput, MemorySource};
use rbrep::output::ExprOutput;

/// A source that counts how often it is asked, and that can fail.
struct Counted {
    data: Vec<u8>,
    at: usize,
    asked: Rc<Cell<usize>>,
    fail_at: Option<usize>,
}

impl ByteSource for Counted {
    fn next_byte(&mut self) -> RbrepResult<Option<u8>> {
        self.asked.set(self.asked.get() + 1);
        if self.fail_at == Some(self.at) {
            return Err(Error::Unknown);
        }
        if self.at < self.data.len() {
            self.at += 1;
            Ok(Some(self.data[self.at - 1]))
        } else {
            Ok(None)
        }
    }
}

fn counted(data: &[u8], fail_at: Option<usize>) -> (FileBufferInput<Counted>, Rc<Cell<usize>>) {
    let asked = Rc::new(Cell::new(0));
    let source = Counted { data: data.to_vec(), at: 0, asked: asked.clone(), fail_at };
    (FileBufferInput::new(source), asked)
}

#[test]
fn memory_source_hands_out_each_byte_once() {
    let mut source = MemorySource::new(vec![1, 2]);
    assert!(matches!(source.next_byte(), Ok(Some(1))));
    assert!(matches!(source.next_byte(), Ok(Some(2))));
    assert!(matches!(source.next_byte(), Ok(None)));
    assert!(matches!(source.next_byte(), Ok(None)));
}

#[test]
fn new_window_has_taken_nothing() {
    let (input, asked) = counted(b"abc", None);
    assert_eq!(input.pos(), 0);
    assert!(!input.eof());
    assert_eq!(asked.get(), 0);
}

#[test]
fn read_takes_what_is_missing_and_no_more() {
    let (mut input, asked) = counted(b"abcdef", None);
    assert_eq!(input.read(0).unwrap(), b'a');
    assert_eq!(asked.get(), 1);
    assert_eq!(input.read(0).unwrap(), b'a');
    assert_eq!(asked.get(), 1);
    assert_eq!(input.read(3).unwrap(), b'd');
    assert_eq!(asked.get(), 4);
    assert_eq!(input.read(1).unwrap(), b'b');
    assert_eq!(input.read(2).unwrap(), b'c');
    assert_eq!(asked.get(), 4);
    assert_eq!(input.pos(), 0);
}

#[test]
fn read_behind_the_end_is_the_end_of_file() {
    let (mut input, asked) = counted(b"ab", None);
    assert!(matches!(input.read(2), Err(Error::EndOfFile)));
    assert_eq!(asked.get(), 3);
    // the bytes before the end are still there
    assert!(!input.eof());
    assert_eq!(input.read(1).unwrap(), b'b');
    assert!(matches!(input.read(5), Err(Error::EndOfFile)));
    // the source has said that it is at its end: it is not asked again
    assert_eq!(asked.get(), 3);
}

#[test]
fn advance_lets_go_of_the_first_bytes() {
    let (mut input, asked) = counted(b"abcd", None);
    assert_eq!(input.read(1).unwrap(), b'b');
    input.advance(1).unwrap();
    assert_eq!(input.pos(), 1);
    assert_eq!(input.read(0).unwrap(), b'b');
    assert_eq!(input.read(1).unwrap(), b'c');
    // one byte was let go of, one was taken in its place
    assert_eq!(asked.get(), 3);
    input.advance(2).unwrap();
    assert_eq!(input.pos(), 3);
    assert_eq!(input.read(0).unwrap(), b'd');
    assert!(!input.eof());
    input.advance(1).unwrap();
    assert_eq!(input.pos(), 4);
    assert!(input.eof());
    assert!(matches!(input.read(0), Err(Error::EndOfFile)));
}

#[test]
fn advance_by_nothing_changes_nothing() {
    let (mut input, asked) = counted(b"ab", None);
    input.advance(0).unwrap();
    assert_eq!(input.pos(), 0);
    assert_eq!(asked.get(), 0);
    assert!(!input.eof());
}

#[test]
fn advance_passes_bytes_that_were_not_looked_at() {
    let (mut input, _) = counted(b"abcd", None);
    input.advance(2).unwrap();
    assert_eq!(input.pos(), 2);
    assert_eq!(input.read(0).unwrap(), b'c');
    assert_eq!(input.read(1).unwrap(), b'd');
}

#[test]
fn window_of_an_empty_stream_ends_with_the_first_step() {
    let (mut input, _) = counted(b"", None);
    assert!(!input.eof());
    assert!(matches!(input.read(0), Err(Error::EndOfFile)));
    assert!(input.eof());
    input.advance(1).unwrap();
    assert_eq!(input.pos(), 1);
    assert!(input.eof());
}

#[test]
fn scan_asks_the_source_for_each_byte_once() {
    for (pattern, data) in [
        ("30", &b"0101010"[..]),
        ("30313233", b"0120123"),
        ("??*1+;", b"abcdefgh"),
        ("!30", b"0011"),
        ("", b"abc"),
    ] {
        let tree = Expr::tree_from(pattern).unwrap();
        let (mut input, asked) = counted(data, None);
        let mut list = MatchList::new();
        Expr::for_each_match::<_, ExprOutput, _>(&tree, &mut input, &mut list, None).unwrap();
        assert!(input.eof());
        // each byte once, and once the answer that no byte is left
        assert_eq!(asked.get(), data.len() + 1, "{pattern}");
        assert_eq!(input.pos(), data.len().max(1));
    }
}

#[test]
fn scan_that_stops_early_takes_only_what_it_has_looked_at() {
    let tree = Expr::tree_from("3031").unwrap();
    let (mut input, asked) = counted(b"xx01yyyyyyyy", None);
    let mut list = MatchList::new();
    let n = Expr::for_each_match::<_, ExprOutput, _>(&tree, &mut input, &mut list, Some(1)).unwrap();
    assert_eq!(n, 1);
    assert_eq!(input.pos(), 2);
    assert_eq!(asked.get(), 4);
}

#[test]
fn failure_of_the_source_ends_the_scan() {
    let tree = Expr::tree_from("30").unwrap();
    let (mut input, _) = counted(b"0101", Some(2));
    let mut list = MatchList::new();
    let r = Expr::for_each_match::<_, ExprOutput, _>(&tree, &mut input, &mut list, None);
    assert!(matches!(r, Err(Error::Io)));
    // the match before the failure was handed over
    assert_eq!(list.into_vec().len(), 1);
}

#[test]
fn failure_of_the_source_fails_the_read() {
    let (mut input, _) = counted(b"ab", Some(1));
    assert_eq!(input.read(0).unwrap(), b'a');
    assert!(matches!(input.read(1), Err(Error::Io)));
    assert!(matches!(input.advance(1), Err(Error::Io)));
}
