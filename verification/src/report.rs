//! The report of a scan as text: a line with the name of the stream before
//! its first match, a line for each match with its offset and its bytes in
//! hexadecimal, and, where asked for, the number of matches.
use crate::config::Config;
use crate::error::{Error, RbrepResult};
use crate::expr::matcher::{excused, scanned, MatchSink};
use crate::expr::{nodes_of, Expr, ExprBranch};
use crate::input::{ahead, fits, later, MatchInput};
use crate::output::{ExprOutData, ExprOutput};
use crate::semantics::{hits, Hit};
use vstd::prelude::*;
use vstd::string::StringExecFns;

verus! {

/// The digit for a value below sixteen.
pub open spec fn hex_char(d: nat) -> char {
    if d < 10 {
        ('0' as nat + d) as char
    } else {
        ('a' as nat + d - 10) as char
    }
}

/// `value` in hexadecimal, with zeros in front up to `width` digits.
pub open spec fn hex_text(value: nat, width: nat) -> Seq<char>
    decreases value, width,
{
    if value < 16 && width <= 1 {
        seq![hex_char(value)]
    } else {
        hex_text(
            value / 16,
            if width > 0 {
                (width - 1) as nat
            } else {
                0
            },
        ).push(hex_char(value % 16))
    }
}

/// `value` in decimal.
pub open spec fn decimal_text(value: nat) -> Seq<char>
    decreases value,
{
    if value < 10 {
        seq![hex_char(value)]
    } else {
        decimal_text(value / 10).push(hex_char(value % 10))
    }
}

/// The digit for a value below sixteen, as text.
fn digit_str(d: usize) -> (text: &'static str)
    requires
        d < 16,
    ensures
        text@ == seq![hex_char(d as nat)],
{
    proof {
        reveal_strlit("0");
        reveal_strlit("1");
        reveal_strlit("2");
        reveal_strlit("3");
        reveal_strlit("4");
        reveal_strlit("5");
        reveal_strlit("6");
        reveal_strlit("7");
        reveal_strlit("8");
        reveal_strlit("9");
        reveal_strlit("a");
        reveal_strlit("b");
        reveal_strlit("c");
        reveal_strlit("d");
        reveal_strlit("e");
        reveal_strlit("f");
    }
    let text = if d == 0 {
        "0"
    } else if d == 1 {
        "1"
    } else if d == 2 {
        "2"
    } else if d == 3 {
        "3"
    } else if d == 4 {
        "4"
    } else if d == 5 {
        "5"
    } else if d == 6 {
        "6"
    } else if d == 7 {
        "7"
    } else if d == 8 {
        "8"
    } else if d == 9 {
        "9"
    } else if d == 10 {
        "a"
    } else if d == 11 {
        "b"
    } else if d == 12 {
        "c"
    } else if d == 13 {
        "d"
    } else if d == 14 {
        "e"
    } else {
        "f"
    };
    assert(text@ =~= seq![hex_char(d as nat)]);
    text
}

/// Writes `value` in hexadecimal behind `out`.
fn push_hex(out: &mut String, value: usize, width: usize)
    ensures
        final(out)@ == old(out)@ + hex_text(value as nat, width as nat),
    decreases value, width,
{
    let ghost before = out@;
    if value >= 16 || width > 1 {
        let rest = if width > 0 {
            width - 1
        } else {
            0
        };
        push_hex(out, value / 16, rest);
        out.append(digit_str(value % 16));
        assert(out@ =~= before + hex_text(value as nat, width as nat));
    } else {
        out.append(digit_str(value));
        assert(out@ =~= before + hex_text(value as nat, width as nat));
    }
}

/// Writes `value` in decimal behind `out`.
fn push_decimal(out: &mut String, value: usize)
    ensures
        final(out)@ == old(out)@ + decimal_text(value as nat),
    decreases value,
{
    let ghost before = out@;
    if value >= 10 {
        push_decimal(out, value / 10);
        out.append(digit_str(value % 10));
        assert(out@ =~= before + decimal_text(value as nat));
    } else {
        out.append(digit_str(value));
        assert(out@ =~= before + decimal_text(value as nat));
    }
}

/// `value` in hexadecimal, with zeros in front up to `width` digits.
pub fn hex(value: usize, width: usize) -> (text: String)
    ensures
        text@ == hex_text(value as nat, width as nat),
{
    let mut text = String::new();
    push_hex(&mut text, value, width);
    assert(text@ =~= hex_text(value as nat, width as nat));
    text
}

/// `value` in decimal.
pub fn decimal(value: usize) -> (text: String)
    ensures
        text@ == decimal_text(value as nat),
{
    let mut text = String::new();
    push_decimal(&mut text, value);
    assert(text@ =~= decimal_text(value as nat));
    text
}

/// `text` between the escape sequences that switch a colour on and off
/// again. `colour` is the digit that stands for the colour.
pub open spec fn tinted(text: Seq<char>, colour: char) -> Seq<char> {
    seq!['\u{1b}', '[', '3', colour, 'm'] + text + seq!['\u{1b}', '[', '0', 'm']
}

/// Whether `painted` is `text`, either as it is or in the colour.
pub open spec fn painted_as(painted: Seq<char>, text: Seq<char>, colour: char) -> bool {
    painted == text || painted == tinted(text, colour)
}

/// `console::style` with `magenta`, written out as text: the text itself
/// where colours are off for the standard output, and the text between the
/// escape sequences for magenta and for the reset where they are on.
#[verifier::external_body]
fn paint_magenta(text: &str) -> (painted: String)
    ensures
        painted_as(painted@, text@, '5'),
{
    console::style(text).magenta().to_string()
}

/// `console::style` with `green`, written out as text: the text itself
/// where colours are off for the standard output, and the text between the
/// escape sequences for green and for the reset where they are on.
#[verifier::external_body]
fn paint_green(text: &str) -> (painted: String)
    ensures
        painted_as(painted@, text@, '2'),
{
    console::style(text).green().to_string()
}

/// `console::style` with `red`, written out as text: the text itself where
/// colours are off for the standard output, and the text between the escape
/// sequences for red and for the reset where they are on.
#[verifier::external_body]
fn paint_red(text: &str) -> (painted: String)
    ensures
        painted_as(painted@, text@, '1'),
{
    console::style(text).red().to_string()
}

/// `console::style` without a colour, written out as text: a style that
/// sets nothing writes the text as it is.
#[verifier::external_body]
fn paint_plain(text: &str) -> (painted: String)
    ensures
        painted@ == text@,
{
    console::style(text).to_string()
}

/// What stands before byte `i` of a line: a blank where a group of `space`
/// bytes is full, and nothing before the first byte or where `space` is 0.
pub open spec fn gap(i: nat, space: nat) -> Seq<char> {
    if space != 0 && i != 0 && i % space == 0 {
        seq![' ']
    } else {
        Seq::empty()
    }
}

/// The first `upto` of the bytes of a line, each as the text in `cells`.
pub open spec fn row_text(cells: Seq<Seq<char>>, space: nat, upto: nat) -> Seq<char>
    decreases upto,
{
    if 0 < upto <= cells.len() {
        row_text(cells, space, (upto - 1) as nat) + gap((upto - 1) as nat, space) + cells[upto
            - 1]
    } else {
        Seq::empty()
    }
}

/// The line for one match: the offset, a tab, the bytes, and the end of the
/// line.
pub open spec fn line_text(offset: Seq<char>, cells: Seq<Seq<char>>, space: nat) -> Seq<char> {
    offset + seq!['\t'] + row_text(cells, space, cells.len()) + seq!['\n']
}

/// The texts that strings hold.
pub open spec fn texts(cells: Seq<String>) -> Seq<Seq<char>> {
    Seq::new(cells.len(), |i: int| cells[i]@)
}

/// The bytes of a match, each as two hexadecimal digits.
pub open spec fn plain_cells(data: Seq<ExprOutData>) -> Seq<Seq<char>> {
    Seq::new(data.len(), |i: int| hex_text(data[i].value as nat, 2))
}

/// The line for one match without colours: the offset in at least eight
/// hexadecimal digits, and each byte in two.
pub open spec fn plain_line(pos: nat, data: Seq<ExprOutData>, space: nat) -> Seq<char> {
    line_text(hex_text(pos, 8), plain_cells(data), space)
}

/// Whether `line` is a line for the match with colours: the offset may be
/// green, the bytes that were held against a constraint may be red, and the
/// other bytes are as they are without colours.
pub open spec fn is_pretty_line(line: Seq<char>, pos: nat, data: Seq<ExprOutData>, space: nat)
    -> bool {
    exists|offset: Seq<char>, cells: Seq<Seq<char>>|
        {
            &&& line == #[trigger] line_text(offset, cells, space)
            &&& painted_as(offset, hex_text(pos, 8), '2')
            &&& cells.len() == data.len()
            &&& forall|i: int|
                0 <= i < data.len() ==> if data[i].highlight {
                    painted_as(#[trigger] cells[i], hex_text(data[i].value as nat, 2), '1')
                } else {
                    cells[i] == hex_text(data[i].value as nat, 2)
                }
        }
}

/// Lays out the line for one match from the text of its offset and the
/// texts of its bytes.
pub fn lay_out(offset: &str, cells: &Vec<String>, space: u32) -> (line: String)
    ensures
        line@ == line_text(offset@, texts(cells@), space as nat),
{
    proof {
        reveal_strlit("\t");
        reveal_strlit("\n");
    }
    let ghost all = texts(cells@);
    let mut line = String::new();
    line.append(offset);
    line.append("\t");
    let ghost head = offset@ + seq!['\t'];
    assert(line@ =~= head + row_text(all, space as nat, 0));
    let mut i: usize = 0;
    while i < cells.len()
        invariant
            i <= cells.len(),
            all == texts(cells@),
            head == offset@ + seq!['\t'],
            line@ == head + row_text(all, space as nat, i as nat),
        decreases cells.len() - i,
    {
        let ghost before = line@;
        if space != 0 && i != 0 && (i as u64) % (space as u64) == 0 {
            proof {
                reveal_strlit(" ");
            }
            line.append(" ");
        }
        assert(line@ =~= before + gap(i as nat, space as nat));
        line.append(cells[i].as_str());
        assert(all[i as int] == cells@[i as int]@);
        assert(line@ =~= head + row_text(all, space as nat, (i + 1) as nat));
        i += 1;
    }
    line.append("\n");
    line
}

/// The line for one match. With `pretty` the offset and the bytes go
/// through the painter, which may colour them.
pub fn match_line(pos: usize, data: &[ExprOutData], space: u32, pretty: bool) -> (line: String)
    ensures
        !pretty ==> line@ == plain_line(pos as nat, data@, space as nat),
        pretty ==> is_pretty_line(line@, pos as nat, data@, space as nat),
{
    let offset = hex(pos, 8);
    let offset = if pretty {
        paint_green(offset.as_str())
    } else {
        offset
    };
    let mut cells: Vec<String> = Vec::new();
    let mut i: usize = 0;
    while i < data.len()
        invariant
            i <= data.len(),
            cells@.len() == i,
            forall|k: int|
                0 <= k < i ==> if pretty && data@[k].highlight {
                    painted_as(#[trigger] cells@[k]@, hex_text(data@[k].value as nat, 2), '1')
                } else {
                    cells@[k]@ == hex_text(data@[k].value as nat, 2)
                },
        decreases data.len() - i,
    {
        let b = data[i];
        let text = hex(b.value as usize, 2);
        let cell = if pretty {
            if b.highlight {
                paint_red(text.as_str())
            } else {
                paint_plain(text.as_str())
            }
        } else {
            text
        };
        cells.push(cell);
        i += 1;
    }
    let line = lay_out(offset.as_str(), &cells, space);
    proof {
        if pretty {
            assert(texts(cells@).len() == data@.len());
            assert forall|k: int| 0 <= k < data@.len() implies if data@[k].highlight {
                painted_as(#[trigger] texts(cells@)[k], hex_text(data@[k].value as nat, 2), '1')
            } else {
                texts(cells@)[k] == hex_text(data@[k].value as nat, 2)
            } by {
                assert(texts(cells@)[k] == cells@[k]@);
            }
        } else {
            assert(texts(cells@) =~= plain_cells(data@));
        }
    }
    line
}

/// Where the report goes.
pub trait TextOutput {
    /// The text that was written so far, for an output that keeps it. An
    /// output that does not say otherwise tells nothing of what it holds.
    open spec fn written(&self) -> Option<Seq<char>> {
        None
    }

    /// Writes `text` behind what was written. An output that keeps its text
    /// does not fail.
    fn put(&mut self, text: &str) -> (r: RbrepResult<()>)
        ensures
            final(self).written() is Some == old(self).written() is Some,
            old(self).written() matches Some(before) ==> r is Ok && final(self).written() == Some(
                before + text@,
            ),
    ;
}

/// A report that is kept in memory.
impl TextOutput for String {
    open spec fn written(&self) -> Option<Seq<char>> {
        Some(self@)
    }

    fn put(&mut self, text: &str) -> (r: RbrepResult<()>) {
        self.append(text);
        Ok(())
    }
}

/// The lines of the first `upto` of the matches `found`, without colours.
pub open spec fn lines_text(found: Seq<Hit>, space: nat, upto: nat) -> Seq<char>
    decreases upto,
{
    if 0 < upto <= found.len() {
        lines_text(found, space, (upto - 1) as nat) + plain_line(
            found[upto - 1].offset,
            found[upto - 1].bytes,
            space,
        )
    } else {
        Seq::empty()
    }
}

/// What a report without colours says of the matches `found` in the stream
/// `name`: nothing where there are none; else the name and, unless only
/// the number of matches is asked for, a line for each match.
pub open spec fn body_text(name: Seq<char>, found: Seq<Hit>, space: nat, count: bool) -> Seq<
    char,
> {
    if found.len() == 0 {
        Seq::empty()
    } else if count {
        name + seq!['\n']
    } else {
        name + seq!['\n'] + lines_text(found, space, found.len())
    }
}

/// The number `n` as far as a `usize` can count.
pub open spec fn counted(n: nat) -> nat {
    if n <= usize::MAX {
        n
    } else {
        usize::MAX as nat
    }
}

/// The whole report without colours: what it says of the matches, and the
/// number of matches where that is asked for.
pub open spec fn report_text(name: Seq<char>, found: Seq<Hit>, space: nat, count: bool) -> Seq<
    char,
> {
    if count {
        body_text(name, found, space, count) + decimal_text(counted(found.len())) + seq!['\n']
    } else {
        body_text(name, found, space, count)
    }
}

/// Whether `text` is `head` and then `tail`.
pub open spec fn splits(text: Seq<char>, head: Seq<char>, tail: Seq<char>) -> bool {
    text == head + tail
}

/// Whether `text` holds the lines of the first `upto` of the matches
/// `found`, each of them a line with colours.
pub open spec fn is_pretty_lines(text: Seq<char>, found: Seq<Hit>, space: nat, upto: nat) -> bool
    decreases upto,
{
    if 0 < upto <= found.len() {
        exists|head: Seq<char>, line: Seq<char>|
            {
                &&& #[trigger] splits(text, head, line)
                &&& is_pretty_lines(head, found, space, (upto - 1) as nat)
                &&& is_pretty_line(line, found[upto - 1].offset, found[upto - 1].bytes, space)
            }
    } else {
        text.len() == 0
    }
}

/// Whether `text` is what a report with colours says of the matches
/// `found` in the stream `name`: nothing where there are none; else the
/// name, which may be magenta, and, unless only the number of matches is
/// asked for, a line for each match.
pub open spec fn is_pretty_body(
    text: Seq<char>,
    name: Seq<char>,
    found: Seq<Hit>,
    space: nat,
    count: bool,
) -> bool {
    if found.len() == 0 {
        text.len() == 0
    } else {
        exists|title: Seq<char>, rest: Seq<char>|
            {
                &&& #[trigger] splits(text, title + seq!['\n'], rest)
                &&& painted_as(title, name, '5')
                &&& if count {
                    rest.len() == 0
                } else {
                    is_pretty_lines(rest, found, space, found.len())
                }
            }
    }
}

/// Whether `text` is a whole report with colours: what it says of the
/// matches, and the number of matches where that is asked for.
pub open spec fn is_pretty_report(
    text: Seq<char>,
    name: Seq<char>,
    found: Seq<Hit>,
    space: nat,
    count: bool,
) -> bool {
    if count {
        exists|body: Seq<char>, tail: Seq<char>|
            {
                &&& #[trigger] splits(text, body, tail)
                &&& is_pretty_body(body, name, found, space, count)
                &&& tail == decimal_text(counted(found.len())) + seq!['\n']
            }
    } else {
        is_pretty_body(text, name, found, space, count)
    }
}

/// Lines with colours of the first matches are such lines of the first
/// matches of a longer run that starts with the same matches.
pub proof fn lemma_pretty_lines_same(
    text: Seq<char>,
    found: Seq<Hit>,
    longer: Seq<Hit>,
    space: nat,
    upto: nat,
)
    requires
        upto <= found.len() <= longer.len(),
        forall|i: int| 0 <= i < upto ==> found[i] == longer[i],
        is_pretty_lines(text, found, space, upto),
    ensures
        is_pretty_lines(text, longer, space, upto),
    decreases upto,
{
    if upto > 0 {
        let (head, line) = choose|head: Seq<char>, line: Seq<char>|
            {
                &&& #[trigger] splits(text, head, line)
                &&& is_pretty_lines(head, found, space, (upto - 1) as nat)
                &&& is_pretty_line(line, found[upto - 1].offset, found[upto - 1].bytes, space)
            };
        lemma_pretty_lines_same(head, found, longer, space, (upto - 1) as nat);
        assert(splits(text, head, line));
    }
}

/// What a report with colours says of some matches, and behind it the name
/// of the stream, if these are the first, and the line of one more match,
/// unless only the number of matches is asked for, is what the report says
/// of the matches with that one.
pub proof fn lemma_pretty_body_grows(
    sent: Seq<char>,
    title: Seq<char>,
    line: Seq<char>,
    name: Seq<char>,
    found: Seq<Hit>,
    hit: Hit,
    space: nat,
    count: bool,
)
    requires
        is_pretty_body(sent, name, found, space, count),
        painted_as(title, name, '5'),
        is_pretty_line(line, hit.offset, hit.bytes, space),
    ensures
        is_pretty_body(
            sent + (if found.len() == 0 {
                title + seq!['\n']
            } else {
                Seq::empty()
            }) + (if count {
                Seq::empty()
            } else {
                line
            }),
            name,
            found.push(hit),
            space,
            count,
        ),
{
    let now = found.push(hit);
    let newline = seq!['\n'];
    let text = sent + (if found.len() == 0 {
        title + newline
    } else {
        Seq::empty()
    }) + (if count {
        Seq::empty()
    } else {
        line
    });
    let none = Seq::<char>::empty();
    if found.len() == 0 {
        if count {
            assert(text =~= (title + newline) + none);
            assert(splits(text, title + newline, none));
        } else {
            assert(text =~= (title + newline) + line);
            assert(line =~= none + line);
            assert(splits(line, none, line));
            assert(is_pretty_lines(none, now, space, 0));
            assert(is_pretty_lines(line, now, space, 1));
            assert(splits(text, title + newline, line));
        }
    } else {
        let (first, rest) = choose|first: Seq<char>, rest: Seq<char>|
            {
                &&& #[trigger] splits(sent, first + newline, rest)
                &&& painted_as(first, name, '5')
                &&& if count {
                    rest.len() == 0
                } else {
                    is_pretty_lines(rest, found, space, found.len())
                }
            };
        if count {
            assert(text =~= (first + newline) + rest);
            assert(splits(text, first + newline, rest));
        } else {
            lemma_pretty_lines_same(rest, found, now, space, found.len());
            assert(splits(rest + line, rest, line));
            assert(is_pretty_lines(rest + line, now, space, now.len()));
            assert(text =~= (first + newline) + (rest + line));
            assert(splits(text, first + newline, rest + line));
        }
    }
}

/// A sink that writes each match that it gets to a report.
pub struct Report<W: TextOutput> {
    out: W,
    name: String,
    space: u32,
    pretty: bool,
    count: bool,
    first_in_file: bool,
    matches: usize,
    failed: bool,
    // what the output held before the report, and what the report has
    // written
    base: Ghost<Seq<char>>,
    sent: Ghost<Seq<char>>,
    log: Ghost<Seq<Hit>>,
}

impl<W: TextOutput> Report<W> {
    /// What has to hold of a report between calls.
    pub closed spec fn sound(&self) -> bool {
        &&& self.first_in_file <==> self.log@.len() == 0
        &&& self.matches == counted(self.log@.len())
        &&& self.out.written() matches Some(text) ==> {
            &&& !self.failed
            &&& text == self.base@ + self.sent@
            &&& if self.pretty {
                is_pretty_body(self.sent@, self.name@, self.log@, self.space as nat, self.count)
            } else {
                self.sent@ == body_text(self.name@, self.log@, self.space as nat, self.count)
            }
        }
    }

    /// The text that the output held before the report, if it keeps its
    /// text.
    pub closed spec fn before(&self) -> Seq<char> {
        self.base@
    }

    /// The output.
    pub closed spec fn output(&self) -> W {
        self.out
    }

    /// The name of the stream.
    pub closed spec fn title(&self) -> Seq<char> {
        self.name@
    }

    /// How the report is laid out: the bytes between blanks, and whether
    /// colours and only the number of matches are asked for.
    pub closed spec fn layout(&self) -> (nat, bool, bool) {
        (self.space as nat, self.pretty, self.count)
    }

    /// A report on the stream `name` that goes to `out`, laid out as `cfg`
    /// says.
    pub fn new(out: W, name: &str, cfg: &Config) -> (report: Self)
        ensures
            report.inv(),
            report.received().len() == 0,
            report.wants_more(),
            report.output() == out,
            out.written() matches Some(text) ==> report.before() == text,
            report.title() == name@,
            report.layout() == (cfg.space as nat, cfg.pretty, cfg.count),
    {
        let ghost base = match out.written() {
            Some(text) => text,
            None => Seq::empty(),
        };
        let report = Report {
            out,
            name: name.to_owned(),
            space: cfg.space,
            pretty: cfg.pretty,
            count: cfg.count,
            first_in_file: true,
            matches: 0,
            failed: false,
            base: Ghost(base),
            sent: Ghost(Seq::empty()),
            log: Ghost(Seq::empty()),
        };
        assert(base =~= base + Seq::empty());
        report
    }

    /// Writes `text`, unless writing has failed before.
    fn write(&mut self, text: &str)
        ensures
            final(self).name == old(self).name,
            final(self).space == old(self).space,
            final(self).pretty == old(self).pretty,
            final(self).count == old(self).count,
            final(self).first_in_file == old(self).first_in_file,
            final(self).matches == old(self).matches,
            final(self).base == old(self).base,
            final(self).log == old(self).log,
            final(self).sent@ == old(self).sent@ + text@,
            final(self).out.written() is Some == old(self).out.written() is Some,
            old(self).failed ==> final(self).failed,
            !old(self).failed ==> (old(self).out.written() matches Some(before) ==> !final(self).failed
                && final(self).out.written() == Some(before + text@)),
    {
        if !self.failed {
            match self.out.put(text) {
                Ok(_) => {},
                Err(_) => {
                    self.failed = true;
                },
            }
        }
        proof {
            self.sent@ = self.sent@ + text@;
        }
    }

    /// Gives the output back as it is.
    pub fn into_output(self) -> (out: W)
        ensures
            out == self.output(),
    {
        self.out
    }

    /// Ends the report: writes the number of matches where that is asked
    /// for, and gives the output back.
    pub fn finish(self) -> (done: (W, RbrepResult<usize>))
        requires
            self.inv(),
        ensures
            done.0.written() is Some == self.output().written() is Some,
            done.1 matches Ok(n) ==> n == counted(self.received().len()) && self.wants_more(),
            self.output().written() is Some ==> {
                &&& done.1 is Ok
                &&& reported(
                    done.0.written()->0,
                    self.before(),
                    self.title(),
                    self.received(),
                    self.layout(),
                )
            },
    {
        let mut report = self;
        let ghost written = report.out.written();
        let ghost body = report.sent@;
        if report.count {
            let total = decimal(report.matches);
            report.write(total.as_str());
            proof {
                reveal_strlit("\n");
            }
            report.write("\n");
            proof {
                if let Some(text) = written {
                    let tail = decimal_text(report.matches as nat) + seq!['\n'];
                    assert(report.sent@ =~= body + tail);
                    assert(report.out.written()->0 =~= report.base@ + (body + tail));
                    assert(splits(body + tail, body, tail));
                }
            }
        }
        let matches = report.matches;
        proof {
            if let Some(text) = written {
                let now = report.out.written()->0;
                let name = report.name@;
                let space = report.space as nat;
                assert(now =~= report.base@ + report.sent@);
                if report.pretty {
                    assert(is_pretty_report(report.sent@, name, report.log@, space, report.count));
                    assert(splits(now, report.base@, report.sent@));
                } else {
                    assert(report.sent@ =~= report_text(name, report.log@, space, report.count));
                }
            }
        }
        if report.failed {
            (report.out, Err(Error::Io))
        } else {
            (report.out, Ok(matches))
        }
    }
}

/// Whether `text` is what an output holds that held `before` and then took
/// the report on the matches `found` of the stream `name`. Without colours
/// the report is told to the letter; with colours each piece of it may or
/// may not have its colour.
pub open spec fn reported(
    text: Seq<char>,
    before: Seq<char>,
    name: Seq<char>,
    found: Seq<Hit>,
    layout: (nat, bool, bool),
) -> bool {
    if layout.1 {
        exists|report: Seq<char>|
            #[trigger] splits(text, before, report) && is_pretty_report(
                report,
                name,
                found,
                layout.0,
                layout.2,
            )
    } else {
        text == before + report_text(name, found, layout.0, layout.2)
    }
}

impl<W: TextOutput> MatchSink for Report<W> {
    open spec fn inv(&self) -> bool {
        self.sound()
    }

    closed spec fn received(&self) -> Seq<Hit> {
        self.log@
    }

    closed spec fn wants_more(&self) -> bool {
        !self.failed
    }

    open spec fn follows(&self, from: &Self) -> bool {
        &&& self.before() == from.before()
        &&& self.title() == from.title()
        &&& self.layout() == from.layout()
        &&& self.output().written() is Some == from.output().written() is Some
    }

    proof fn follows_itself(&self) {
    }

    proof fn follows_on(&self, mid: &Self, from: &Self) {
    }

    /// Writes the name of the stream before the first match, and, unless
    /// only the number of matches is asked for, the line of the match.
    fn accept(&mut self, pos: usize, data: &[ExprOutData]) -> (go_on: bool) {
        let ghost hit = Hit { offset: pos as nat, bytes: data@ };
        let ghost found = self.log@;
        let ghost written = self.out.written();
        let ghost sent = self.sent@;
        let ghost newline = seq!['\n'];
        let ghost mut title = self.name@;
        let ghost mut row = Seq::<char>::empty();
        if self.first_in_file {
            let name = if self.pretty {
                paint_magenta(self.name.as_str())
            } else {
                self.name.clone()
            };
            proof {
                title = name@;
            }
            self.write(name.as_str());
            proof {
                reveal_strlit("\n");
            }
            self.write("\n");
            self.first_in_file = false;
        }
        // print the match unless only the count is asked for
        if !self.count {
            let line = match_line(pos, data, self.space, self.pretty);
            proof {
                row = line@;
            }
            self.write(line.as_str());
        }
        if self.matches < usize::MAX {
            self.matches += 1;
        }
        proof {
            self.log@ = found.push(hit);
            let name = self.name@;
            let space = self.space as nat;
            let now = found.push(hit);
            let head = if found.len() == 0 {
                title + newline
            } else {
                Seq::empty()
            };
            let tail = if self.count {
                Seq::empty()
            } else {
                row
            };
            assert(self.sent@ =~= sent + head + tail);
            if let Some(text) = written {
                assert(self.out.written()->0 =~= self.base@ + self.sent@);
                if self.pretty {
                    if self.count {
                        // a line that is not written: any line will do
                        let any = plain_line(hit.offset, hit.bytes, space);
                        lemma_plain_is_pretty(hit.offset, hit.bytes, space);
                        lemma_pretty_body_grows(sent, title, any, name, found, hit, space, true);
                    } else {
                        lemma_pretty_body_grows(sent, title, row, name, found, hit, space, false);
                    }
                } else {
                    lemma_lines_grow(found, hit, space);
                    assert(self.sent@ =~= body_text(name, now, space, self.count));
                }
            }
        }
        !self.failed
    }
}

/// A line without colours is a line with colours of which no piece has its
/// colour.
pub proof fn lemma_plain_is_pretty(pos: nat, data: Seq<ExprOutData>, space: nat)
    ensures
        is_pretty_line(plain_line(pos, data, space), pos, data, space),
{
    let offset = hex_text(pos, 8);
    let cells = plain_cells(data);
    assert(plain_line(pos, data, space) == line_text(offset, cells, space));
}

/// The lines of the matches so far stay as they are when one more match is
/// found, and its line comes behind them.
pub proof fn lemma_lines_grow(found: Seq<Hit>, hit: Hit, space: nat)
    ensures
        lines_text(found.push(hit), space, found.len() + 1) == lines_text(
            found,
            space,
            found.len(),
        ) + plain_line(hit.offset, hit.bytes, space),
{
    lemma_lines_same(found, found.push(hit), space, found.len());
}

/// The lines of the first matches are those of the first matches of a longer
/// run that starts with the same matches.
pub proof fn lemma_lines_same(found: Seq<Hit>, longer: Seq<Hit>, space: nat, upto: nat)
    requires
        upto <= found.len() <= longer.len(),
        forall|i: int| 0 <= i < upto ==> found[i] == longer[i],
    ensures
        lines_text(found, space, upto) == lines_text(longer, space, upto),
    decreases upto,
{
    if upto > 0 {
        lemma_lines_same(found, longer, space, (upto - 1) as nat);
    }
}

/// How many of `all` matches a scan hands over that stops after
/// `stop_after` of them.
pub open spec fn told(all: nat, stop_after: Option<usize>) -> nat {
    match stop_after {
        Some(cap) => if cap <= all {
            cap as nat
        } else {
            all
        },
        None => all,
    }
}

impl Expr {
    /// Scans the stream `i` for the pattern and writes the report to `o`:
    /// the name of the stream before the first match, a line for each
    /// match, and the number of matches where `cfg` asks for it. The scan
    /// stops after `cfg.stop_after` matches. Gives back the output and the
    /// number of matches that were found.
    ///
    /// Whatever the stream turns out to be behind what the input has taken
    /// from it, the report is the report on the matches of the pattern in
    /// that stream.
    pub fn apply<IF, W>(expr: &ExprBranch, i: &mut IF, o: W, name: &str, cfg: &Config) -> (done: (
        W,
        RbrepResult<usize>,
    )) where IF: MatchInput, W: TextOutput
        requires
            old(i).inv(),
        ensures
            final(i).inv(),
            later(old(i), final(i)),
            done.0.written() is Some == o.written() is Some,
            forall|s: Seq<u8>| #[trigger]
                fits(s, final(i)) ==> (done.1 matches Ok(n) ==> {
                    let all = hits(nodes_of(expr@), ahead(s, old(i).position()), old(i).position());
                    let some = all.take(told(all.len(), cfg.stop_after) as int);
                    &&& n == counted(some.len())
                    &&& o.written() matches Some(before) ==> reported(
                        done.0.written()->0,
                        before,
                        name@,
                        some,
                        (cfg.space as nat, cfg.pretty, cfg.count),
                    )
                }),
            done.1 is Err ==> excused(final(i)) || o.written() is None,
    {
        let ghost at = i.position();
        let ghost branch = nodes_of(expr@);
        let mut report = Report::new(o, name, cfg);
        // no matter what, the scan always advances a single byte
        // to check all possible combinations
        let outcome = Self::for_each_match::<IF, ExprOutput, Report<W>>(
            expr,
            i,
            &mut report,
            cfg.stop_after,
        );
        match outcome {
            Err(e) => (report.into_output(), Err(e)),
            Ok(_) => {
                let ghost got = report.received();
                let ghost open = report.wants_more();
                let done = report.finish();
                proof {
                    assert forall|s: Seq<u8>| #[trigger] fits(s, i) implies (done.1 matches Ok(n)
                        ==> {
                        let all = hits(branch, ahead(s, at), at);
                        let some = all.take(told(all.len(), cfg.stop_after) as int);
                        &&& n == counted(some.len())
                        &&& o.written() matches Some(before) ==> reported(
                            done.0.written()->0,
                            before,
                            name@,
                            some,
                            (cfg.space as nat, cfg.pretty, cfg.count),
                        )
                    }) by {
                        let all = hits(branch, ahead(s, at), at);
                        if done.1 is Ok {
                            assert(scanned(
                                all,
                                Seq::empty(),
                                got,
                                cfg.stop_after != Some(got.len() as usize) && open,
                            ));
                            assert(Seq::<Hit>::empty() + all.take(got.len() as int) =~= all.take(
                                got.len() as int,
                            ));
                            assert(got == all.take(got.len() as int));
                            assert(open);
                            assert(got.len() == told(all.len(), cfg.stop_after));
                        }
                    }
                }
                done
            },
        }
    }
}

} // verus!
