use crate::error::{Error, RbrepResult};
use vstd::prelude::*;

verus! {

/// What the matcher reads from: a window that starts at a position of a
/// stream and gives the bytes behind that position by their offset.
///
/// An input takes the bytes of its stream from a source as they are asked
/// for. What it has taken so far is what it knows of the stream; what is
/// to come it knows only where its source does (`whole`).
pub trait MatchInput: Sized {
    /// What has to hold of the input between calls.
    spec fn inv(&self) -> bool;

    /// The bytes of the stream, from the first one on, that the input has
    /// taken from its source so far.
    spec fn seen(&self) -> Seq<u8>;

    /// Whether the input has found the end of the stream: `seen` is all
    /// there is.
    spec fn closed(&self) -> bool;

    /// The whole stream, for an input that knows it from the start.
    spec fn whole(&self) -> Option<Seq<u8>>;

    /// The offset in the stream at which the window starts.
    spec fn position(&self) -> nat;

    /// Whether the input has found that nothing is left to read.
    spec fn finished(&self) -> bool;

    /// An input that has nothing left to read has found the end of the
    /// stream, and its window starts at the end or behind it.
    proof fn finished_is_behind(&self)
        requires
            self.inv(),
        ensures
            self.finished() ==> self.closed() && self.position() >= self.seen().len(),
    ;

    /// The stream that an input knows starts with what the input has taken
    /// of it, and ends with it where the input has found the end.
    proof fn whole_is_seen(&self)
        requires
            self.inv(),
        ensures
            self.whole() matches Some(all) ==> {
                &&& self.seen().len() <= all.len()
                &&& all.take(self.seen().len() as int) == self.seen()
                &&& self.closed() ==> all == self.seen()
            },
    ;

    /// read a single byte from the input at the required offset
    fn read(&mut self, offset: usize) -> (r: RbrepResult<u8>)
        requires
            old(self).inv(),
        ensures
            final(self).inv(),
            old(self).seen().len() <= final(self).seen().len(),
            final(self).seen().take(old(self).seen().len() as int) == old(self).seen(),
            old(self).closed() ==> final(self).closed() && final(self).seen() == old(self).seen(),
            final(self).whole() == old(self).whole(),
            old(self).position() <= final(self).position(),
            final(self).position() == old(self).position(),
            final(self).seen().len() <= old(self).seen().len() || final(self).seen().len()
                <= old(self).position() + offset + 1,
            match r {
                Ok(byte) => {
                    &&& old(self).position() + offset < final(self).seen().len()
                    &&& byte == final(self).seen()[old(self).position() + offset]
                },
                Err(Error::EndOfFile) => {
                    &&& final(self).closed()
                    &&& old(self).position() + offset >= final(self).seen().len()
                },
                Err(_) => old(self).whole() is None,
            },
    ;

    /// called to trim a possible buffer by n bytes
    /// and re-read if required
    /// advances pos as well
    fn advance(&mut self, by: usize) -> (r: RbrepResult<()>)
        requires
            old(self).inv(),
            old(self).position() + by <= usize::MAX,
        ensures
            final(self).inv(),
            old(self).seen().len() <= final(self).seen().len(),
            final(self).seen().take(old(self).seen().len() as int) == old(self).seen(),
            old(self).closed() ==> final(self).closed() && final(self).seen() == old(self).seen(),
            final(self).whole() == old(self).whole(),
            old(self).position() <= final(self).position(),
            match r {
                Ok(_) => {
                    &&& final(self).position() == old(self).position() + by
                    &&& by > 0 ==> final(self).finished() || final(self).position() < final(self).seen().len()
                    &&& by == 0 ==> final(self).finished() == old(self).finished()
                },
                Err(_) => old(self).whole() is None,
            },
    ;

    /// current read cursor position:
    /// the start offset from which a match begins
    fn pos(&self) -> (at: usize)
        requires
            self.inv(),
        ensures
            at == self.position(),
    ;

    /// true if no more bytes can be read
    fn eof(&self) -> (done: bool)
        requires
            self.inv(),
        ensures
            done == self.finished(),
    ;
}

/// Whether `after` is `before` at a later time: it has taken more bytes of
/// the same stream, or none.
pub open spec fn later<IF: MatchInput>(before: &IF, after: &IF) -> bool {
    &&& before.seen().len() <= after.seen().len()
    &&& after.seen().take(before.seen().len() as int) == before.seen()
    &&& before.closed() ==> after.closed() && after.seen() == before.seen()
    &&& after.whole() == before.whole()
    &&& before.position() <= after.position()
}

/// Whether `s` can be the stream of `input`: it starts with the bytes that
/// the input has taken, it ends with them if the input has found the end,
/// and it is the stream that the input knows, if it knows one.
pub open spec fn fits<IF: MatchInput>(s: Seq<u8>, input: &IF) -> bool {
    &&& input.seen().len() <= s.len()
    &&& s.take(input.seen().len() as int) == input.seen()
    &&& input.closed() ==> s == input.seen()
    &&& input.whole() matches Some(all) ==> s == all
}

/// The bytes of the stream `s` from the offset `position` on.
pub open spec fn ahead(s: Seq<u8>, position: nat) -> Seq<u8> {
    if position <= s.len() {
        s.skip(position as int)
    } else {
        Seq::empty()
    }
}

/// A stream that can be the stream of an input could be the stream of this
/// input earlier on.
pub proof fn lemma_fits_earlier<IF: MatchInput>(s: Seq<u8>, before: &IF, after: &IF)
    requires
        later(before, after),
        fits(s, after),
    ensures
        fits(s, before),
{
    assert(s.take(before.seen().len() as int) =~= after.seen().take(before.seen().len() as int));
}

/// Later on and again later on is later on.
pub proof fn lemma_later_on<IF: MatchInput>(first: &IF, mid: &IF, last: &IF)
    requires
        later(first, mid),
        later(mid, last),
    ensures
        later(first, last),
{
    assert(last.seen().take(first.seen().len() as int) =~= mid.seen().take(
        first.seen().len() as int,
    ));
}

/// Where the window reads from: something that hands out the bytes of a
/// stream one by one, front to back, and each of them once.
pub trait ByteSource {
    /// The bytes that the source has yet to hand out, for a source that
    /// knows them. A source that does not say otherwise knows nothing of
    /// what is to come.
    open spec fn pending(&self) -> Option<Seq<u8>> {
        None
    }

    /// Hands out the next byte, or `None` at the end of the stream. A source
    /// that knows what it has to hand out does not fail.
    fn next_byte(&mut self) -> (r: RbrepResult<Option<u8>>)
        ensures
            final(self).pending() is Some == old(self).pending() is Some,
            old(self).pending() matches Some(rest) ==> if rest.len() > 0 {
                &&& r == Ok::<Option<u8>, Error>(Some(rest[0]))
                &&& final(self).pending() == Some(rest.drop_first())
            } else {
                &&& r == Ok::<Option<u8>, Error>(None)
                &&& final(self).pending() == Some(rest)
            },
    ;
}

/// A source that hands out bytes that lie in memory.
pub struct MemorySource {
    data: Vec<u8>,
    at: usize,
}

impl MemorySource {
    pub fn new(data: Vec<u8>) -> (source: Self)
        ensures
            source.pending() == Some(data@),
    {
        let source = MemorySource { data, at: 0 };
        assert(source.data@.skip(0) =~= source.data@);
        source
    }
}

impl ByteSource for MemorySource {
    closed spec fn pending(&self) -> Option<Seq<u8>> {
        if self.at <= self.data@.len() {
            Some(self.data@.skip(self.at as int))
        } else {
            Some(Seq::empty())
        }
    }

    fn next_byte(&mut self) -> (r: RbrepResult<Option<u8>>) {
        if self.at < self.data.len() {
            let byte = self.data[self.at];
            assert(self.data@.skip(self.at as int).drop_first() =~= self.data@.skip(
                self.at as int + 1,
            ));
            self.at += 1;
            Ok(Some(byte))
        } else {
            Ok(None)
        }
    }
}

/// A sliding window over a source: it holds the bytes that were looked at
/// behind its start, and lets go of those that the scan has passed.
pub struct FileBufferInput<S: ByteSource> {
    buffer: Vec<u8>,
    read: S,
    eof: bool,
    pos: usize,
    // the bytes that the window has let go of
    past: Ghost<Seq<u8>>,
}

impl<S: ByteSource> FileBufferInput<S> {
    /// The bytes that the window holds.
    pub closed spec fn held(&self) -> Seq<u8> {
        self.buffer@
    }

    /// The bytes that the window has let go of.
    pub closed spec fn passed(&self) -> Seq<u8> {
        self.past@
    }

    /// The bytes that are still in the source, where the source knows them.
    pub closed spec fn unread(&self) -> Option<Seq<u8>> {
        self.read.pending()
    }

    /// The whole stream, where the source knows what it has left.
    pub closed spec fn total(&self) -> Option<Seq<u8>> {
        match self.read.pending() {
            Some(rest) => Some(self.past@ + self.buffer@ + rest),
            None => None,
        }
    }

    /// What has to hold of the window between calls.
    pub closed spec fn sound(&self) -> bool {
        &&& self.eof ==> (self.read.pending() matches Some(rest) ==> rest.len() == 0)
        &&& self.past@.len() <= self.pos
        &&& self.past@.len() < self.pos ==> self.eof && self.buffer@.len() == 0
    }

    /// Whether `after` is this window at a later time.
    pub closed spec fn grown(&self, after: &Self) -> bool {
        let before = self.past@ + self.buffer@;
        let now = after.past@ + after.buffer@;
        &&& before.len() <= now.len()
        &&& now.take(before.len() as int) == before
        &&& self.eof ==> after.eof && now == before
        &&& after.total() == self.total()
        &&& self.pos <= after.pos
    }

    /// Later on and again later on is later on.
    proof fn lemma_grown_on(&self, mid: &Self, last: &Self)
        requires
            self.grown(mid),
            mid.grown(last),
        ensures
            self.grown(last),
    {
        let first = self.past@ + self.buffer@;
        assert((last.past@ + last.buffer@).take(first.len() as int) =~= (mid.past@
            + mid.buffer@).take(first.len() as int));
    }

    /// What a window has taken from its source is what it has let go of
    /// and, behind that, what it holds; with what is still in the source,
    /// that is the whole stream. So a byte that has left the source stays in
    /// the window until the scan has passed it, and none is asked for twice.
    pub proof fn lemma_stream_parts(&self)
        requires
            self.inv(),
        ensures
            self.seen() == self.passed() + self.held(),
            self.whole() == match self.unread() {
                Some(rest) => Some(self.passed() + self.held() + rest),
                None => None,
            },
            self.position() >= self.passed().len(),
            self.position() > self.passed().len() ==> self.held().len() == 0 && self.closed(),
    {
    }

    /// A window at the start of what `read` has left.
    pub fn new(read: S) -> (input: Self)
        ensures
            input.inv(),
            input.seen().len() == 0,
            input.held().len() == 0,
            input.passed().len() == 0,
            input.unread() == read.pending(),
            input.whole() == read.pending(),
            input.position() == 0,
            !input.closed(),
            !input.finished(),
    {
        let input = Self { buffer: Vec::new(), read, eof: false, pos: 0, past: Ghost(Seq::empty()) };
        proof {
            if let Some(rest) = input.read.pending() {
                assert(input.past@ + input.buffer@ + rest =~= rest);
            }
        }
        input
    }

    /// Lets go of the byte at `offset` of the window, if the window holds
    /// one there.
    fn remove(&mut self, offset: usize)
        ensures
            final(self).read == old(self).read,
            final(self).eof == old(self).eof,
            final(self).pos == old(self).pos,
            final(self).past == old(self).past,
            final(self).buffer@ == if offset < old(self).buffer@.len() {
                old(self).buffer@.remove(offset as int)
            } else {
                old(self).buffer@
            },
    {
        if self.buffer.len() > offset {
            self.buffer.remove(offset);
        }
    }

    /// Takes one byte from the source into the window, and says how many
    /// bytes that were: none at the end of the stream.
    fn read_next(&mut self) -> (r: RbrepResult<usize>)
        requires
            old(self).sound(),
        ensures
            final(self).sound(),
            old(self).grown(final(self)),
            final(self).pos == old(self).pos,
            final(self).past == old(self).past,
            match r {
                Ok(n) => {
                    &&& n <= 1
                    &&& final(self).buffer@.len() == old(self).buffer@.len() + n
                    &&& n == 0 <==> final(self).eof
                },
                Err(e) => {
                    &&& e is Io
                    &&& old(self).total() is None
                    &&& final(self).buffer@ == old(self).buffer@
                    &&& final(self).eof == old(self).eof
                },
            },
    {
        if self.eof {
            // the source has said that it is at its end
            assert((self.past@ + self.buffer@).take((self.past@ + self.buffer@).len() as int)
                =~= self.past@ + self.buffer@);
            return Ok(0);
        }
        // read a new byte
        let res = self.read.next_byte();
        proof {
            assert((self.past@ + self.buffer@).take((self.past@ + self.buffer@).len() as int)
                =~= self.past@ + self.buffer@);
        }
        match res {
            Ok(None) => {
                // the end of the stream is no failure
                self.eof = true;
                proof {
                    if let Some(rest) = old(self).read.pending() {
                        assert(self.past@ + self.buffer@ + self.read.pending()->0 =~= old(self).past@
                            + old(self).buffer@ + rest);
                    }
                }
                Ok(0)
            },
            Err(e) => Err(Error::Io),
            Ok(Some(byte)) => {
                self.buffer.push(byte);
                proof {
                    if let Some(rest) = old(self).read.pending() {
                        assert(self.past@ + self.buffer@ + self.read.pending()->0 =~= old(self).past@
                            + old(self).buffer@ + rest);
                    }
                    assert((self.past@ + self.buffer@).take(
                        (old(self).past@ + old(self).buffer@).len() as int,
                    ) =~= old(self).past@ + old(self).buffer@);
                }
                Ok(1)
            },
        }
    }

    /// Takes from the source what is missing up to `offset`, and no more.
    fn fill(&mut self, offset: usize) -> (r: RbrepResult<bool>)
        requires
            old(self).sound(),
        ensures
            final(self).sound(),
            old(self).grown(final(self)),
            final(self).pos == old(self).pos,
            final(self).past == old(self).past,
            final(self).buffer@.len() <= old(self).buffer@.len() || final(self).buffer@.len()
                <= offset + 1,
            match r {
                Ok(there) => if there {
                    offset < final(self).buffer@.len()
                } else {
                    final(self).eof && offset >= final(self).buffer@.len()
                },
                Err(e) => e is Io && old(self).total() is None,
            },
    {
        assert((self.past@ + self.buffer@).take((self.past@ + self.buffer@).len() as int)
            =~= self.past@ + self.buffer@);
        while self.buffer.len() <= offset
            invariant
                self.sound(),
                old(self).grown(self),
                self.pos == old(self).pos,
                self.past == old(self).past,
                self.buffer@.len() <= old(self).buffer@.len() || self.buffer@.len() <= offset + 1,
            decreases offset + 1 - self.buffer.len(),
        {
            let ghost mid = *self;
            match self.read_next() {
                Ok(n) => {
                    proof {
                        old(self).lemma_grown_on(&mid, self);
                    }
                    if n == 0 {
                        return Ok(false);
                    }
                },
                Err(e) => {
                    proof {
                        old(self).lemma_grown_on(&mid, self);
                    }
                    return Err(e);
                },
            }
        }
        Ok(true)
    }

    /// Lets go of the first byte of the window, and takes one byte from the
    /// source in its place.
    fn slide(&mut self) -> (r: RbrepResult<()>)
        requires
            old(self).sound(),
            old(self).pos < usize::MAX,
        ensures
            final(self).sound(),
            old(self).grown(final(self)),
            final(self).buffer@.len() <= old(self).buffer@.len() || final(self).buffer@.len() <= 1,
            match r {
                Ok(_) => {
                    &&& final(self).pos == old(self).pos + 1
                    &&& (final(self).eof && final(self).buffer@.len() == 0) || final(self).pos < (
                    final(self).past@ + final(self).buffer@).len()
                },
                Err(e) => e is Io && old(self).total() is None,
            },
    {
        let ghost first = *self;
        if self.buffer.len() == 0 {
            // nothing was looked at: the byte to let go of is still in the
            // source
            match self.read_next() {
                Ok(_) => {},
                Err(e) => {
                    return Err(e);
                },
            }
        } else {
            assert((self.past@ + self.buffer@).take((self.past@ + self.buffer@).len() as int)
                =~= self.past@ + self.buffer@);
        }
        let ghost second = *self;
        proof {
            if self.buffer@.len() > 0 {
                self.past@ = self.past@.push(self.buffer@[0]);
            }
        }
        self.remove(0);
        self.pos += 1;
        let ghost third = *self;
        proof {
            assert(third.past@ + third.buffer@ =~= second.past@ + second.buffer@);
            if let Some(rest) = second.read.pending() {
                assert(third.past@ + third.buffer@ + rest =~= second.past@ + second.buffer@
                    + rest);
            }
            assert((third.past@ + third.buffer@).take((second.past@ + second.buffer@).len() as int)
                =~= second.past@ + second.buffer@);
            assert(second.grown(&third));
            first.lemma_grown_on(&second, &third);
        }
        match self.read_next() {
            Ok(_) => {
                proof {
                    first.lemma_grown_on(&third, self);
                }
                Ok(())
            },
            Err(e) => {
                proof {
                    first.lemma_grown_on(&third, self);
                }
                Err(e)
            },
        }
    }
}

impl<S: ByteSource> MatchInput for FileBufferInput<S> {
    open spec fn inv(&self) -> bool {
        self.sound()
    }

    closed spec fn seen(&self) -> Seq<u8> {
        self.past@ + self.buffer@
    }

    closed spec fn closed(&self) -> bool {
        self.eof
    }

    open spec fn whole(&self) -> Option<Seq<u8>> {
        self.total()
    }

    closed spec fn position(&self) -> nat {
        self.pos as nat
    }

    closed spec fn finished(&self) -> bool {
        self.eof && self.buffer@.len() == 0
    }

    proof fn finished_is_behind(&self) {
    }

    proof fn whole_is_seen(&self) {
        if let Some(rest) = self.read.pending() {
            let seen = self.past@ + self.buffer@;
            assert((seen + rest).take(seen.len() as int) =~= seen);
            if self.eof {
                assert(seen + rest =~= seen);
            }
        }
    }

    /// The window takes from the source what is missing up to `offset`, and
    /// no more, and lets go of nothing.
    fn read(&mut self, offset: usize) -> (r: RbrepResult<u8>)
        ensures
            final(self).passed() == old(self).passed(),
            final(self).held().len() <= old(self).held().len() || final(self).held().len()
                <= offset + 1,
    {
        match self.fill(offset) {
            Ok(true) => {
                let byte = self.buffer[offset];
                assert((self.past@ + self.buffer@)[self.pos + offset] == byte);
                Ok(byte)
            },
            Ok(false) => Err(Error::EndOfFile),
            Err(e) => Err(Error::Io),
        }
    }

    /// The window lets go of its first `by` bytes, and takes one byte from
    /// the source for each: it holds no more than before, or one byte.
    fn advance(&mut self, by: usize) -> (r: RbrepResult<()>)
        ensures
            r is Ok ==> final(self).held().len() <= old(self).held().len()
                || final(self).held().len() <= 1,
    {
        let mut done: usize = 0;
        proof {
            let all = self.past@ + self.buffer@;
            assert(all.take(all.len() as int) =~= all);
        }
        while done < by
            invariant
                self.sound(),
                old(self).grown(self),
                done <= by,
                self.pos == old(self).pos + done,
                old(self).pos + by <= usize::MAX,
                done > 0 ==> (self.eof && self.buffer@.len() == 0) || self.pos < (self.past@
                    + self.buffer@).len(),
                done == 0 ==> *self == *old(self),
                self.buffer@.len() <= old(self).buffer@.len() || self.buffer@.len() <= 1,
            decreases by - done,
        {
            let ghost mid = *self;
            match self.slide() {
                Ok(_) => {
                    proof {
                        old(self).lemma_grown_on(&mid, self);
                    }
                },
                Err(e) => {
                    proof {
                        old(self).lemma_grown_on(&mid, self);
                    }
                    return Err(e);
                },
            }
            done += 1;
        }
        Ok(())
    }

    fn pos(&self) -> (at: usize) {
        self.pos
    }

    fn eof(&self) -> (done: bool) {
        self.eof && self.buffer.len() == 0
    }
}

} // verus!
