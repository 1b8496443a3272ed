use rbrep::config::Config;
use rbrep::error::{Error, RbrepResult};
use rbrep::expr::Expr;
use rbrep::input::{ByteSource, FileBufferInput, MatchInput};
use rbrep::report::TextOutput;

/// A source outside the library: bytes that come one by one from a reader.
struct Pipe<R: std::io::Read> {
    from: R,
    pulled: usize,
}

impl<R: std::io::Read> ByteSource for Pipe<R> {
    fn next_byte(&mut self) -> RbrepResult<Option<u8>> {
        let mut next = [0u8; 1];
        match self.from.read(&mut next) {
            Ok(0) => Ok(None),
            Ok(_) => {
                self.pulled += 1;
                Ok(Some(next[0]))
            }
            Err(_) => Err(Error::Io),
        }
    }
}

/// An output outside the library.
struct Sheet(Vec<u8>);

impl TextOutput for Sheet {
    fn put(&mut self, text: &str) -> RbrepResult<()> {
        self.0.extend_from_slice(text.as_bytes());
        Ok(())
    }
}

#[test]
fn scan_of_a_reader_writes_to_a_writer() {
    let tree = Expr::tree_from("31*2;").unwrap();
    let data = b"00112233".to_vec();
    let mut window = FileBufferInput::new(Pipe { from: data.as_slice(), pulled: 0 });
    let (sheet, done) = Expr::apply(&tree, &mut window, Sheet(Vec::new()), "pipe", &Config::new());
    assert_eq!(done.unwrap(), 1);
    assert_eq!(String::from_utf8(sheet.0).unwrap(), "pipe\n00000002\t3131\n");
    assert!(window.eof());
}
