//! The matcher: one attempt of a pattern at the start of the window, and the
//! scan that makes an attempt at every offset of a stream.
use super::{lemma_group_children, nodes_of, Expr, ExprBranch, ExprKind};
use crate::error::{Error, RbrepResult};
use crate::input::{ahead, fits, later, lemma_fits_earlier, lemma_later_on, MatchInput};
use crate::output::{ExprOutData, MatchOutput};
use crate::semantics::{
    all_of, attempt, first_of, greedy, hits, lemma_match_echoes, lemma_once_echoes, literal_at,
    marked, marked_all, match_at, once, required, sequence, unmarked, Hit,
};
use vstd::prelude::*;

verus! {

/// Whether `after` is the input `before` later on, with its window at the
/// same place.
pub open spec fn steady<IF: MatchInput>(before: &IF, after: &IF) -> bool {
    &&& after.inv()
    &&& later(before, after)
    &&& after.position() == before.position()
}

/// Whether an error of an attempt has a cause: the input does not know its
/// stream, or the stream reaches behind what a `usize` can tell.
pub open spec fn excused<IF: MatchInput>(input: &IF) -> bool {
    input.whole() is None || input.seen().len() > usize::MAX
}

/// Whether an attempt that ended with `r` did to `after` what `wanted` asks
/// for: the bytes of `wanted` stand behind those of `before`.
pub open spec fn appended(
    r: RbrepResult<usize>,
    before: Seq<ExprOutData>,
    after: Seq<ExprOutData>,
    wanted: Seq<ExprOutData>,
) -> bool {
    r matches Ok(n) ==> n == wanted.len() && after == before + wanted
}

/// An input is itself, no time later.
pub proof fn lemma_steady_itself<IF: MatchInput>(input: &IF)
    requires
        input.inv(),
    ensures
        steady(input, input),
{
    assert(input.seen().take(input.seen().len() as int) =~= input.seen());
}

/// Later on and again later on, at the same place, is later on at the same
/// place.
pub proof fn lemma_steady_on<IF: MatchInput>(first: &IF, mid: &IF, last: &IF)
    requires
        steady(first, mid),
        steady(mid, last),
    ensures
        steady(first, last),
{
    lemma_later_on(first, mid, last);
}

/// What receives the matches of a scan.
pub trait MatchSink {
    /// What has to hold of the sink between calls.
    spec fn inv(&self) -> bool;

    /// The matches that were handed over so far.
    spec fn received(&self) -> Seq<Hit>;

    /// Whether the sink asks for more.
    spec fn wants_more(&self) -> bool;

    /// Whether this is the sink `from` some matches later: what a sink is
    /// to keep from call to call.
    spec fn follows(&self, from: &Self) -> bool;

    /// A sink is itself, no match later.
    proof fn follows_itself(&self)
        ensures
            self.follows(self),
    ;

    /// Some matches later and again some matches later is some matches
    /// later.
    proof fn follows_on(&self, mid: &Self, from: &Self)
        requires
            self.follows(mid),
            mid.follows(from),
        ensures
            self.follows(from),
    ;

    /// Takes the match that starts at `pos`, and says whether the scan is
    /// to go on.
    fn accept(&mut self, pos: usize, data: &[ExprOutData]) -> (go_on: bool)
        requires
            old(self).inv(),
        ensures
            final(self).inv(),
            final(self).follows(old(self)),
            final(self).received() == old(self).received().push(
                Hit { offset: pos as nat, bytes: data@ },
            ),
            go_on == final(self).wants_more(),
    ;
}

/// A match as a scan hands it over: the offset at which it starts, and its
/// bytes.
pub struct Found {
    pub offset: usize,
    pub bytes: Vec<ExprOutData>,
}

/// What a match that was handed over stands for.
pub open spec fn hit_of(found: Found) -> Hit {
    Hit { offset: found.offset as nat, bytes: found.bytes@ }
}

/// A sink that keeps every match that it gets, and always asks for more.
pub struct MatchList {
    found: Vec<Found>,
}

impl MatchList {
    /// A sink that holds nothing yet.
    pub fn new() -> (list: Self)
        ensures
            list.received().len() == 0,
            list.wants_more(),
            list.inv(),
    {
        let list = MatchList { found: Vec::new() };
        assert(list.received() =~= Seq::empty());
        list
    }

    /// The matches that the sink has got, in the order in which they came.
    pub fn into_vec(self) -> (found: Vec<Found>)
        ensures
            found@.len() == self.received().len(),
            forall|i: int| 0 <= i < found@.len() ==> hit_of(#[trigger] found@[i]) == self.received()[i],
    {
        self.found
    }
}

impl MatchSink for MatchList {
    open spec fn inv(&self) -> bool {
        true
    }

    closed spec fn received(&self) -> Seq<Hit> {
        Seq::new(self.found@.len(), |i: int| hit_of(self.found@[i]))
    }

    open spec fn wants_more(&self) -> bool {
        true
    }

    open spec fn follows(&self, from: &Self) -> bool {
        true
    }

    proof fn follows_itself(&self) {
    }

    proof fn follows_on(&self, mid: &Self, from: &Self) {
    }

    fn accept(&mut self, pos: usize, data: &[ExprOutData]) -> (go_on: bool) {
        let bytes = vstd::slice::slice_to_vec(data);
        self.found.push(Found { offset: pos, bytes });
        assert(self.received() =~= old(self).received().push(
            Hit { offset: pos as nat, bytes: data@ },
        ));
        true
    }
}

/// Reads the byte at `offset`, or finds that the stream ends before it.
fn read_one<IF: MatchInput>(read: &mut IF, offset: usize) -> (r: RbrepResult<Option<u8>>)
    requires
        old(read).inv(),
    ensures
        steady(old(read), final(read)),
        forall|s: Seq<u8>| #[trigger]
            fits(s, final(read)) ==> match r {
                Ok(Some(byte)) => {
                    &&& offset < ahead(s, old(read).position()).len()
                    &&& byte == ahead(s, old(read).position())[offset as int]
                },
                Ok(None) => offset >= ahead(s, old(read).position()).len(),
                Err(_) => true,
            },
        r matches Ok(Some(_)) ==> old(read).position() + offset < final(read).seen().len(),
        r is Err ==> final(read).whole() is None,
{
    let ghost at = read.position();
    let r = read.read(offset);
    proof {
        let seen = read.seen();
        assert forall|s: Seq<u8>| #[trigger] fits(s, read) implies match r {
            Ok(byte) => offset < ahead(s, at).len() && byte == ahead(s, at)[offset as int],
            Err(Error::EndOfFile) => offset >= ahead(s, at).len(),
            Err(_) => true,
        } by {
            match r {
                Ok(byte) => {
                    assert(s.take(seen.len() as int)[at + offset] == seen[at + offset]);
                },
                _ => {},
            }
        }
    }
    match r {
        Ok(byte) => Ok(Some(byte)),
        Err(Error::EndOfFile) => Ok(None),
        Err(e) => Err(e),
    }
}

impl ExprKind {
    /// Adds the byte `found` to `res`, marked, if it is a `hit`.
    fn take_if<OF: MatchOutput>(found: Option<u8>, hit: bool, res: &mut OF) -> (r: RbrepResult<
        usize,
    >)
        requires
            hit ==> found is Some,
        ensures
            appended(
                r,
                old(res)@,
                final(res)@,
                if hit {
                    seq![marked(found->0)]
                } else {
                    Seq::empty()
                },
            ),
            r is Ok,
    {
        let ghost before = res@;
        match found {
            Some(first) => {
                if hit {
                    res.push(ExprOutData::new(first, true));
                    assert(res@ =~= before + seq![marked(first)]);
                    return Ok(1);
                }
            },
            None => {},
        }
        assert(res@ =~= before + Seq::empty());
        Ok(0)
    }

    /// One attempt of this kind at the offset at which `res` ends. The bytes
    /// of a match are added to `res`; an attempt that fails adds nothing.
    /// Returns the number of bytes that were added.
    ///
    /// Whatever the stream turns out to be behind what the input has taken
    /// from it, the attempt yields what the pattern yields on that stream.
    pub fn apply_match<IF, OF>(&self, read: &mut IF, res: &mut OF) -> (r: RbrepResult<usize>) where
        IF: MatchInput,
        OF: MatchOutput,

        requires
            old(read).inv(),
        ensures
            steady(old(read), final(read)),
            forall|s: Seq<u8>| #[trigger]
                fits(s, final(read)) ==> appended(
                    r,
                    old(res)@,
                    final(res)@,
                    once(self@, ahead(s, old(read).position()), old(res)@.len() as int),
                ),
            r is Err ==> excused(final(read)),
        decreases self, 0nat,
    {
        let offset = res.len();
        let ghost at = read.position();
        let ghost before = res@;
        match self {
            ExprKind::Byte { value } => {
                match read_one(read, offset) {
                    Err(e) => Err(e),
                    Ok(found) => Self::take_if(found, found == Some(*value), res),
                }
            },
            ExprKind::And { value } => {
                match read_one(read, offset) {
                    Err(e) => Err(e),
                    Ok(found) => {
                        let hit = match found {
                            Some(first) => first & *value != 0,
                            None => false,
                        };
                        Self::take_if(found, hit, res)
                    },
                }
            },
            ExprKind::Not { expr } => {
                // apply the matcher to the inner expression on a copy of the
                // output: only where it fails, the byte is a match
                match read_one(read, offset) {
                    Err(e) => Err(e),
                    Ok(None) => {
                        let r = Self::take_if(None, false, res);
                        r
                    },
                    Ok(Some(first)) => {
                        let ghost mid = *read;
                        let mut probe = res.clone();
                        proof {
                            res.clone_is_same(probe);
                        }
                        match expr.apply_match(read, &mut probe) {
                            Err(e) => {
                                proof {
                                    lemma_steady_on(old(read), &mid, read);
                                }
                                Err(e)
                            },
                            Ok(taken) => {
                                let r = Self::take_if(Some(first), taken == 0, res);
                                proof {
                                    lemma_steady_on(old(read), &mid, read);
                                    assert forall|s: Seq<u8>| #[trigger] fits(s, read) implies appended(
                                        r,
                                        before,
                                        res@,
                                        once(self@, ahead(s, at), offset as int),
                                    ) by {
                                        lemma_fits_earlier(s, &mid, read);
                                    }
                                }
                                r
                            },
                        }
                    },
                }
            },
            ExprKind::Any => {
                match read_one(read, offset) {
                    Err(e) => Err(e),
                    Ok(Some(first)) => {
                        res.push(ExprOutData::new(first, false));
                        assert(res@ =~= before + seq![unmarked(first)]);
                        Ok(1)
                    },
                    Ok(None) => {
                        assert(res@ =~= before + Seq::empty());
                        Ok(0)
                    },
                }
            },
            ExprKind::Group { nodes, and } => {
                proof {
                    lemma_group_children(*nodes, *and);
                }
                if *and {
                    Expr::match_all(nodes, read, res)
                } else {
                    Expr::match_any(nodes, read, res)
                }
            },
            ExprKind::String { value } => {
                // compare to the literal string: nothing is written before
                // all of it was found
                let bytes = value.as_str().as_bytes();
                assert(self@ == (crate::expr::NodeKind::ByteString { literal: bytes@ }));
                proof {
                    lemma_steady_itself(read);
                }
                let mut idx: usize = 0;
                while idx < bytes.len()
                    invariant
                        idx <= bytes.len(),
                        steady(old(read), read),
                        at == old(read).position(),
                        offset == before.len(),
                        res@ == before,
                        before == old(res)@,
                        self@ == (crate::expr::NodeKind::ByteString { literal: bytes@ }),
                        idx > 0 ==> at + offset + idx <= read.seen().len(),
                        forall|s: Seq<u8>| #[trigger]
                            fits(s, read) ==> forall|j: int|
                                0 <= j < idx ==> offset + j < ahead(s, at).len() && ahead(s, at)[offset
                                    + j] == bytes@[j],
                    decreases bytes.len() - idx,
                {
                    if idx > usize::MAX - offset {
                        return Err(Error::Unknown);
                    }
                    let ghost mid = *read;
                    let same = match read_one(read, offset + idx) {
                        Err(e) => {
                            proof {
                                lemma_steady_on(old(read), &mid, read);
                            }
                            return Err(e);
                        },
                        Ok(Some(byte)) => byte == bytes[idx],
                        Ok(None) => false,
                    };
                    proof {
                        lemma_steady_on(old(read), &mid, read);
                    }
                    if !same {
                        proof {
                            assert forall|s: Seq<u8>| #[trigger] fits(s, read) implies appended(
                                Ok::<usize, Error>(0),
                                before,
                                res@,
                                once(self@, ahead(s, at), offset as int),
                            ) by {
                                assert(!literal_at(ahead(s, at), offset as int, bytes@));
                                assert(res@ =~= before + Seq::empty());
                            }
                        }
                        return Ok(0);
                    }
                    proof {
                        assert forall|s: Seq<u8>| #[trigger] fits(s, read) implies forall|j: int|
                            0 <= j < idx + 1 ==> offset + j < ahead(s, at).len() && ahead(s, at)[offset
                                + j] == bytes@[j] by {
                            lemma_fits_earlier(s, &mid, read);
                        }
                    }
                    idx += 1;
                }
                let mut idx: usize = 0;
                while idx < bytes.len()
                    invariant
                        idx <= bytes.len(),
                        res@ == before + marked_all(bytes@).take(idx as int),
                    decreases bytes.len() - idx,
                {
                    res.push(ExprOutData::new(bytes[idx], true));
                    assert(res@ =~= before + marked_all(bytes@).take(idx + 1));
                    idx += 1;
                }
                proof {
                    assert(marked_all(bytes@).take(idx as int) =~= marked_all(bytes@));
                    assert forall|s: Seq<u8>| #[trigger] fits(s, read) implies appended(
                        Ok::<usize, Error>(bytes.len()),
                        before,
                        res@,
                        once(self@, ahead(s, at), offset as int),
                    ) by {
                        if bytes@.len() > 0 {
                            assert(literal_at(ahead(s, at), offset as int, bytes@));
                        } else {
                            assert(marked_all(bytes@) =~= Seq::empty());
                        }
                    }
                }
                Ok(bytes.len())
            },
            ExprKind::Range { from, to } => {
                match read_one(read, offset) {
                    Err(e) => Err(e),
                    Ok(found) => {
                        // the upper end of a range is not part of it
                        let hit = match found {
                            Some(first) => *from <= first && first < *to,
                            None => false,
                        };
                        Self::take_if(found, hit, res)
                    },
                }
            },
        }
    }
}

impl Expr {
    /// One attempt of this node, with its repetitions, at the offset at
    /// which `res` ends. The bytes of a match are added to `res`; a node
    /// that fails adds nothing. Returns the number of bytes that were added.
    ///
    /// Whatever the stream turns out to be behind what the input has taken
    /// from it, the attempt yields what the pattern yields on that stream.
    pub fn apply_match<IF, OF>(&self, i: &mut IF, res: &mut OF) -> (r: RbrepResult<usize>) where
        IF: MatchInput,
        OF: MatchOutput,

        requires
            old(i).inv(),
        ensures
            steady(old(i), final(i)),
            forall|s: Seq<u8>| #[trigger]
                fits(s, final(i)) ==> appended(
                    r,
                    old(res)@,
                    final(res)@,
                    attempt(self@, ahead(s, old(i).position()), old(res)@.len() as int),
                ),
            r is Err ==> excused(final(i)),
        decreases self, 1nat,
    {
        let ghost at = i.position();
        let ghost before = res@;
        let ghost off = before.len() as int;
        let ghost kind = self.kind@;
        let start = res.len();
        let mut work = res.clone();
        proof {
            res.clone_is_same(work);
            lemma_steady_itself(i);
        }
        let ghost mut first = Seq::<ExprOutData>::empty();
        assert(work@ =~= before + first);
        assert(first + Seq::<ExprOutData>::empty() =~= first);
        let mut done: u32 = 0;
        while done < self.mul
            invariant
                done <= self.mul,
                steady(old(i), i),
                at == old(i).position(),
                kind == self.kind@,
                off == before.len(),
                work@ == before + first,
                res@ == before,
                forall|s: Seq<u8>| #[trigger]
                    fits(s, i) ==> required(
                        kind,
                        ahead(s, at),
                        off,
                        self.mul as nat,
                        self.optional,
                    ) == match required(
                        kind,
                        ahead(s, at),
                        off + first.len(),
                        (self.mul - done) as nat,
                        self.optional,
                    ) {
                        Some(rest) => Some(first + rest),
                        None => None,
                    },
            decreases self.mul - done,
        {
            let ghost mid = *i;
            let ghost had = work@;
            let matched = match self.kind.apply_match(i, &mut work) {
                Ok(matched) => matched,
                Err(e) => {
                    proof {
                        lemma_steady_on(old(i), &mid, i);
                    }
                    return Err(e);
                },
            };
            let ghost head = work@.skip(had.len() as int);
            proof {
                lemma_steady_on(old(i), &mid, i);
                assert forall|s: Seq<u8>| #[trigger] fits(s, i) implies once(
                    kind,
                    ahead(s, at),
                    off + first.len(),
                ) == head by {
                    assert(work@ == had + once(kind, ahead(s, at), off + first.len()));
                    assert((had + once(kind, ahead(s, at), off + first.len())).skip(
                        had.len() as int,
                    ) =~= once(kind, ahead(s, at), off + first.len()));
                }
                lemma_some_fits(i);
                let any = choose|s: Seq<u8>| #[trigger] fits(s, i);
                assert(work@ == had + once(kind, ahead(any, at), off + first.len()));
                assert(work@ == had + head && matched == head.len());
            }
            if matched == 0 && !self.optional {
                proof {
                    assert forall|s: Seq<u8>| #[trigger] fits(s, i) implies appended(
                        Ok::<usize, Error>(0),
                        before,
                        res@,
                        attempt(self@, ahead(s, at), off),
                    ) by {
                        lemma_fits_earlier(s, &mid, i);
                        assert(once(kind, ahead(s, at), off + first.len()) == head);
                        assert(res@ =~= before + Seq::empty());
                    }
                }
                return Ok(0);
            }
            proof {
                assert forall|s: Seq<u8>| #[trigger] fits(s, i) implies required(
                    kind,
                    ahead(s, at),
                    off,
                    self.mul as nat,
                    self.optional,
                ) == match required(
                    kind,
                    ahead(s, at),
                    off + (first + head).len(),
                    (self.mul - (done + 1)) as nat,
                    self.optional,
                ) {
                    Some(rest) => Some((first + head) + rest),
                    None => None,
                } by {
                    lemma_fits_earlier(s, &mid, i);
                    assert(once(kind, ahead(s, at), off + first.len()) == head);
                    match required(
                        kind,
                        ahead(s, at),
                        off + first.len() + head.len(),
                        (self.mul - done - 1) as nat,
                        self.optional,
                    ) {
                        Some(tail) => {
                            assert(first + (head + tail) =~= (first + head) + tail);
                        },
                        None => {},
                    }
                }
                assert(work@ =~= before + (first + head));
                first = first + head;
            }
            done += 1;
        }
        assert(first + Seq::<ExprOutData>::empty() =~= first);
        let ghost mut more = Seq::<ExprOutData>::empty();
        let ghost counted = *i;
        assert(work@ =~= before + (first + more));
        proof {
            lemma_steady_itself(&counted);
            assert forall|s: Seq<u8>| #[trigger] fits(s, i) implies greedy(
                kind,
                ahead(s, at),
                off + first.len(),
            ) == more + greedy(kind, ahead(s, at), off + first.len() + more.len()) by {
                assert(more + greedy(kind, ahead(s, at), off + first.len()) =~= greedy(
                    kind,
                    ahead(s, at),
                    off + first.len(),
                ));
            }
        }
        // go on if the many flag is set
        if self.many {
            let mut size = work.len();
            loop
                invariant
                    steady(old(i), i),
                    later(&counted, i),
                    at == old(i).position(),
                    kind == self.kind@,
                    off == before.len(),
                    work@ == before + (first + more),
                    size == work@.len(),
                    res@ == before,
                    forall|s: Seq<u8>| #[trigger]
                        fits(s, i) ==> greedy(kind, ahead(s, at), off + first.len()) == more
                            + greedy(kind, ahead(s, at), off + first.len() + more.len()),
                ensures
                    steady(old(i), i),
                    later(&counted, i),
                    work@ == before + (first + more),
                    res@ == before,
                    forall|s: Seq<u8>| #[trigger]
                        fits(s, i) ==> greedy(kind, ahead(s, at), off + first.len()) == more,
                decreases usize::MAX - size,
            {
                let ghost mid = *i;
                let ghost had = work@;
                let ghost from = off + first.len() + more.len();
                let matched = match self.kind.apply_match(i, &mut work) {
                    Ok(matched) => matched,
                    Err(e) => {
                        proof {
                            lemma_steady_on(old(i), &mid, i);
                        }
                        return Err(e);
                    },
                };
                let ghost head = work@.skip(had.len() as int);
                proof {
                    lemma_steady_on(old(i), &mid, i);
                    lemma_later_on(&counted, &mid, i);
                    assert forall|s: Seq<u8>| #[trigger] fits(s, i) implies once(
                        kind,
                        ahead(s, at),
                        from,
                    ) == head by {
                        assert(work@ == had + once(kind, ahead(s, at), from));
                        assert((had + once(kind, ahead(s, at), from)).skip(had.len() as int)
                            =~= once(kind, ahead(s, at), from));
                    }
                    lemma_some_fits(i);
                    let any = choose|s: Seq<u8>| #[trigger] fits(s, i);
                    assert(work@ == had + once(kind, ahead(any, at), from));
                    assert(work@ == had + head && matched == head.len());
                }
                // no change?
                if matched == 0 {
                    proof {
                        assert forall|s: Seq<u8>| #[trigger] fits(s, i) implies greedy(
                            kind,
                            ahead(s, at),
                            off + first.len(),
                        ) == more by {
                            lemma_fits_earlier(s, &mid, i);
                            assert(once(kind, ahead(s, at), from) == head);
                            assert(more + Seq::<ExprOutData>::empty() =~= more);
                        }
                        assert(work@ =~= before + (first + more));
                    }
                    break ;
                }
                proof {
                    assert forall|s: Seq<u8>| #[trigger] fits(s, i) implies greedy(
                        kind,
                        ahead(s, at),
                        off + first.len(),
                    ) == (more + head) + greedy(
                        kind,
                        ahead(s, at),
                        off + first.len() + (more + head).len(),
                    ) by {
                        lemma_fits_earlier(s, &mid, i);
                        assert(once(kind, ahead(s, at), from) == head);
                        lemma_once_echoes(kind, ahead(s, at), from);
                        assert(more + (head + greedy(kind, ahead(s, at), from + head.len()))
                            =~= (more + head) + greedy(kind, ahead(s, at), from + head.len()));
                    }
                    assert(work@ =~= before + (first + (more + head)));
                    more = more + head;
                }
                size = work.len();
            }
        }
        proof {
            assert forall|s: Seq<u8>| #[trigger] fits(s, i) implies before + (first + more)
                == before + attempt(self@, ahead(s, at), off) by {
                lemma_fits_earlier(s, &counted, i);
                assert(required(kind, ahead(s, at), off + first.len(), 0, self.optional) == Some(
                    Seq::<ExprOutData>::empty(),
                ));
                assert(required(kind, ahead(s, at), off, self.mul as nat, self.optional) == Some(
                    first,
                ));
                if !self.many {
                    assert(first + more =~= first);
                }
            }
        }
        let n = work.len() - start;
        *res = work;
        Ok(n)
    }

    /// One attempt of a whole pattern at the start of the window: the bytes
    /// of the match, or no bytes where the pattern does not match there.
    ///
    /// Whatever the stream turns out to be behind what the input has taken
    /// from it, these are the bytes that the pattern yields on that stream.
    pub fn start_match<IF, OF>(expr: &ExprBranch, i: &mut IF) -> (r: RbrepResult<OF>) where
        IF: MatchInput,
        OF: MatchOutput,

        requires
            old(i).inv(),
        ensures
            steady(old(i), final(i)),
            forall|s: Seq<u8>| #[trigger]
                fits(s, final(i)) ==> (r matches Ok(out) ==> out@ == match_at(
                    nodes_of(expr@),
                    ahead(s, old(i).position()),
                )),
            r is Err ==> excused(final(i)),
    {
        let mut res = OF::default();
        proof {
            OF::default_is_empty(res);
            assert(res@ =~= Seq::empty());
        }
        let ghost at = i.position();
        match Self::match_all(expr, i, &mut res) {
            Ok(_) => {
                proof {
                    assert forall|s: Seq<u8>| #[trigger] fits(s, i) implies res@ == match_at(
                        nodes_of(expr@),
                        ahead(s, at),
                    ) by {
                        let wanted = match_at(nodes_of(expr@), ahead(s, at));
                        assert(Seq::<ExprOutData>::empty() + wanted =~= wanted);
                    }
                }
                Ok(res)
            },
            Err(e) => Err(e),
        }
    }

    /// The scan: one attempt of the pattern at every offset of the stream,
    /// front to back. Each match goes to `sink` with the offset at which it
    /// starts. The scan ends behind the last byte of the stream, or before
    /// that once `stop_after` matches were handed over or the sink asks for
    /// no more. Returns the number of matches that were handed over.
    ///
    /// Whatever the stream turns out to be behind what the input has taken
    /// from it, the matches that were handed over are the first matches of
    /// the pattern in that stream.
    pub fn for_each_match<IF, OF, SK>(
        expr: &ExprBranch,
        reader: &mut IF,
        sink: &mut SK,
        stop_after: Option<usize>,
    ) -> (r: RbrepResult<usize>) where IF: MatchInput, OF: MatchOutput, SK: MatchSink
        requires
            old(reader).inv(),
            old(sink).inv(),
        ensures
            final(reader).inv(),
            later(old(reader), final(reader)),
            final(sink).inv(),
            final(sink).follows(old(sink)),
            final(sink).received().len() >= old(sink).received().len(),
            stop_after matches Some(cap) ==> final(sink).received().len() - old(sink).received().len() <= cap,
            r matches Ok(n) ==> n == final(sink).received().len() - old(sink).received().len(),
            r matches Ok(n) ==> {
                ||| final(reader).finished()
                ||| final(reader).position() == usize::MAX
                ||| n == 0 && stop_after == Some(0usize) && final(reader).position() == old(reader).position()
                ||| n > 0 && final(reader).position() == final(sink).received().last().offset
            },
            forall|s: Seq<u8>| #[trigger]
                fits(s, final(reader)) ==> scanned(
                    hits(
                        nodes_of(expr@),
                        ahead(s, old(reader).position()),
                        old(reader).position(),
                    ),
                    old(sink).received(),
                    final(sink).received(),
                    r is Ok && stop_after != Some(
                        (final(sink).received().len() - old(sink).received().len()) as usize,
                    ) && final(sink).wants_more(),
                ),
            r is Err ==> excused(final(reader)),
    {
        let ghost branch = nodes_of(expr@);
        let ghost ahead_of = old(sink).received();
        let ghost start = reader.position();
        let ghost mut told = Seq::<Hit>::empty();
        let mut count: usize = 0;
        proof {
            assert(ahead_of + told =~= ahead_of);
            sink.follows_itself();
            lemma_steady_itself(reader);
            assert forall|s: Seq<u8>| #[trigger] fits(s, reader) implies hits(
                branch,
                ahead(s, start),
                start,
            ) == told + hits(branch, ahead(s, reader.position()), reader.position()) by {
                assert(told + hits(branch, ahead(s, start), start) =~= hits(
                    branch,
                    ahead(s, start),
                    start,
                ));
            }
        }
        loop
            invariant
                reader.inv(),
                later(old(reader), reader),
                sink.inv(),
                sink.follows(old(sink)),
                branch == nodes_of(expr@),
                start == old(reader).position(),
                ahead_of == old(sink).received(),
                sink.received() == ahead_of + told,
                count == told.len(),
                stop_after matches Some(cap) ==> count < cap || (cap == 0 && count == 0
                    && reader.position() == start),
                start <= reader.position(),
                count <= reader.position() - start,
                forall|s: Seq<u8>| #[trigger]
                    fits(s, reader) ==> hits(branch, ahead(s, start), start) == told + hits(
                        branch,
                        ahead(s, reader.position()),
                        reader.position(),
                    ),
            decreases usize::MAX - reader.position(),
        {
            proof {
                reader.finished_is_behind();
            }
            if reader.eof() {
                proof {
                    assert forall|s: Seq<u8>| #[trigger] fits(s, reader) implies scanned(
                        hits(branch, ahead(s, start), start),
                        ahead_of,
                        sink.received(),
                        true,
                    ) by {
                        assert(ahead(s, reader.position()).len() == 0);
                        lemma_scanned(
                            hits(branch, ahead(s, start), start),
                            told,
                            Seq::empty(),
                            ahead_of,
                            true,
                        );
                    }
                }
                return Ok(count);
            }
            match stop_after {
                Some(cap) => {
                    if count >= cap {
                        proof {
                            assert forall|s: Seq<u8>| #[trigger] fits(s, reader) implies scanned(
                                hits(branch, ahead(s, start), start),
                                ahead_of,
                                sink.received(),
                                false,
                            ) by {
                                lemma_scanned(
                                    hits(branch, ahead(s, start), start),
                                    told,
                                    hits(branch, ahead(s, reader.position()), reader.position()),
                                    ahead_of,
                                    false,
                                );
                            }
                        }
                        return Ok(count);
                    }
                },
                None => {},
            }
            let at = reader.pos();
            if at == usize::MAX {
                // no offset is left to go on to
                let ghost mid = *reader;
                let probe = read_one(reader, 0);
                proof {
                    lemma_later_on(old(reader), &mid, reader);
                    assert forall|s: Seq<u8>| #[trigger] fits(s, reader) implies scanned(
                        hits(branch, ahead(s, start), start),
                        ahead_of,
                        sink.received(),
                        probe matches Ok(None),
                    ) by {
                        lemma_fits_earlier(s, &mid, reader);
                        let rest = hits(branch, ahead(s, at as nat), at as nat);
                        if probe matches Ok(None) {
                            assert(ahead(s, at as nat).len() == 0);
                        }
                        lemma_scanned(
                            hits(branch, ahead(s, start), start),
                            told,
                            rest,
                            ahead_of,
                            probe matches Ok(None),
                        );
                    }
                }
                match probe {
                    Err(e) => {
                        return Err(e);
                    },
                    Ok(Some(_)) => {
                        return Err(Error::Unknown);
                    },
                    Ok(None) => {
                        return Ok(count);
                    },
                }
            }
            let ghost first = *reader;
            let res: OF = match Self::start_match(expr, reader) {
                Ok(res) => res,
                Err(e) => {
                    proof {
                        lemma_later_on(old(reader), &first, reader);
                        assert forall|s: Seq<u8>| #[trigger] fits(s, reader) implies scanned(
                            hits(branch, ahead(s, start), start),
                            ahead_of,
                            sink.received(),
                            false,
                        ) by {
                            lemma_fits_earlier(s, &first, reader);
                            lemma_scanned(
                                hits(branch, ahead(s, start), start),
                                told,
                                hits(branch, ahead(s, at as nat), at as nat),
                                ahead_of,
                                false,
                            );
                        }
                    }
                    return Err(e);
                },
            };
            let ghost second = *reader;
            let ghost found = res@;
            let ghost hit = Hit { offset: at as nat, bytes: found };
            let ghost was = told;
            proof {
                lemma_later_on(old(reader), &first, &second);
                // what the attempt found is what the pattern yields here
                assert forall|s: Seq<u8>| #[trigger] fits(s, &second) implies hits(
                    branch,
                    ahead(s, start),
                    start,
                ) == (if found.len() > 0 {
                    was.push(hit)
                } else {
                    was
                }) + hits(branch, ahead(s, (at + 1) as nat), (at + 1) as nat) by {
                    lemma_fits_earlier(s, &first, &second);
                    let here = ahead(s, at as nat);
                    let rest = hits(branch, ahead(s, (at + 1) as nat), (at + 1) as nat);
                    assert(found == match_at(branch, here));
                    lemma_match_echoes(branch, here);
                    if here.len() > 0 {
                        assert(here.drop_first() =~= ahead(s, (at + 1) as nat));
                    } else {
                        assert(ahead(s, (at + 1) as nat).len() == 0);
                    }
                    if found.len() > 0 {
                        assert(was + (seq![hit] + rest) =~= was.push(hit) + rest);
                    }
                }
            }
            if !res.is_empty() {
                let ghost earlier = *sink;
                let go_on = sink.accept(at, res.as_slice());
                proof {
                    sink.follows_on(&earlier, old(sink));
                    told = was.push(hit);
                    assert(sink.received() =~= ahead_of + told);
                }
                count += 1;
                let full = match stop_after {
                    Some(cap) => count >= cap,
                    None => false,
                };
                if !go_on || full {
                    proof {
                        assert(sink.received().last() == hit);
                        assert forall|s: Seq<u8>| #[trigger] fits(s, reader) implies scanned(
                            hits(branch, ahead(s, start), start),
                            ahead_of,
                            sink.received(),
                            false,
                        ) by {
                            lemma_scanned(
                                hits(branch, ahead(s, start), start),
                                told,
                                hits(branch, ahead(s, (at + 1) as nat), (at + 1) as nat),
                                ahead_of,
                                false,
                            );
                        }
                    }
                    return Ok(count);
                }
            }
            // no matter what, advance a single byte to check all possible
            // combinations
            match reader.advance(1) {
                Ok(_) => {
                    proof {
                        lemma_later_on(old(reader), &second, reader);
                        assert forall|s: Seq<u8>| #[trigger] fits(s, reader) implies hits(
                            branch,
                            ahead(s, start),
                            start,
                        ) == told + hits(branch, ahead(s, (at + 1) as nat), (at + 1) as nat) by {
                            lemma_fits_earlier(s, &second, reader);
                        }
                    }
                },
                Err(e) => {
                    proof {
                        lemma_later_on(old(reader), &second, reader);
                        assert forall|s: Seq<u8>| #[trigger] fits(s, reader) implies scanned(
                            hits(branch, ahead(s, start), start),
                            ahead_of,
                            sink.received(),
                            false,
                        ) by {
                            lemma_fits_earlier(s, &second, reader);
                            lemma_scanned(
                                hits(branch, ahead(s, start), start),
                                told,
                                hits(branch, ahead(s, (at + 1) as nat), (at + 1) as nat),
                                ahead_of,
                                false,
                            );
                        }
                    }
                    return Err(e);
                },
            }
        }
    }

    /// All of the nodes of `expr` in sequence, from the offset at which
    /// `res` ends: the bytes of all of them are added to `res`, or none.
    /// Returns the number of bytes that were added.
    pub fn match_all<IF, OF>(expr: &ExprBranch, i: &mut IF, res: &mut OF) -> (r: RbrepResult<
        usize,
    >) where IF: MatchInput, OF: MatchOutput
        requires
            old(i).inv(),
        ensures
            steady(old(i), final(i)),
            forall|s: Seq<u8>| #[trigger]
                fits(s, final(i)) ==> appended(
                    r,
                    old(res)@,
                    final(res)@,
                    sequence(nodes_of(expr@), ahead(s, old(i).position()), old(res)@.len() as int),
                ),
            r is Err ==> excused(final(i)),
        decreases expr, 0nat,
    {
        let ghost at = i.position();
        let ghost before = res@;
        let ghost off = before.len() as int;
        let ghost children = nodes_of(expr@);
        let start = res.len();
        let mut work = res.clone();
        proof {
            res.clone_is_same(work);
            lemma_steady_itself(i);
        }
        let ghost mut acc = Seq::<ExprOutData>::empty();
        assert(work@ =~= before + acc);
        proof {
            assert forall|s: Seq<u8>| #[trigger] fits(s, i) implies all_of(
                children,
                0,
                ahead(s, at),
                off,
            ) == match all_of(children, 0, ahead(s, at), off + acc.len()) {
                Some(rest) => Some(acc + rest),
                None => None,
            } by {
                match all_of(children, 0, ahead(s, at), off) {
                    Some(rest) => {
                        assert(acc + rest =~= rest);
                    },
                    None => {},
                }
            }
        }
        let mut k: usize = 0;
        while k < expr.len()
            invariant
                k <= expr.len(),
                steady(old(i), i),
                at == old(i).position(),
                children == nodes_of(expr@),
                off == before.len(),
                work@ == before + acc,
                res@ == before,
                forall|s: Seq<u8>| #[trigger]
                    fits(s, i) ==> all_of(children, 0, ahead(s, at), off) == match all_of(
                        children,
                        k as nat,
                        ahead(s, at),
                        off + acc.len(),
                    ) {
                        Some(rest) => Some(acc + rest),
                        None => None,
                    },
            decreases expr.len() - k,
        {
            let e = &expr[k];
            assert(children[k as int] == e@);
            let ghost mid = *i;
            let ghost had = work@;
            let matched = match e.apply_match(i, &mut work) {
                Ok(matched) => matched,
                Err(e) => {
                    proof {
                        lemma_steady_on(old(i), &mid, i);
                    }
                    return Err(e);
                },
            };
            let ghost head = work@.skip(had.len() as int);
            proof {
                lemma_steady_on(old(i), &mid, i);
                assert forall|s: Seq<u8>| #[trigger] fits(s, i) implies attempt(
                    e@,
                    ahead(s, at),
                    off + acc.len(),
                ) == head by {
                    let wanted = attempt(e@, ahead(s, at), off + acc.len());
                    assert(work@ == had + wanted);
                    assert((had + wanted).skip(had.len() as int) =~= wanted);
                }
                lemma_some_fits(i);
                let any = choose|s: Seq<u8>| #[trigger] fits(s, i);
                assert(work@ == had + attempt(e@, ahead(any, at), off + acc.len()));
                assert(work@ == had + head && matched == head.len());
            }
            // no match => return empty
            if matched == 0 && !e.optional {
                proof {
                    assert forall|s: Seq<u8>| #[trigger] fits(s, i) implies appended(
                        Ok::<usize, Error>(0),
                        before,
                        res@,
                        sequence(children, ahead(s, at), off),
                    ) by {
                        lemma_fits_earlier(s, &mid, i);
                        assert(attempt(e@, ahead(s, at), off + acc.len()) == head);
                        assert(res@ =~= before + Seq::empty());
                    }
                }
                return Ok(0);
            }
            proof {
                assert forall|s: Seq<u8>| #[trigger] fits(s, i) implies all_of(
                    children,
                    0,
                    ahead(s, at),
                    off,
                ) == match all_of(children, (k + 1) as nat, ahead(s, at), off + (acc + head).len()) {
                    Some(rest) => Some((acc + head) + rest),
                    None => None,
                } by {
                    lemma_fits_earlier(s, &mid, i);
                    assert(attempt(e@, ahead(s, at), off + acc.len()) == head);
                    match all_of(children, (k + 1) as nat, ahead(s, at), off + acc.len() + head.len()) {
                        Some(tail) => {
                            assert(acc + (head + tail) =~= (acc + head) + tail);
                        },
                        None => {},
                    }
                }
                assert(work@ =~= before + (acc + head));
                acc = acc + head;
            }
            k += 1;
        }
        // got to end without fail => match found!
        proof {
            assert(acc + Seq::<ExprOutData>::empty() =~= acc);
            assert forall|s: Seq<u8>| #[trigger] fits(s, i) implies sequence(
                children,
                ahead(s, at),
                off,
            ) == acc by {
            }
        }
        let n = work.len() - start;
        *res = work;
        Ok(n)
    }

    /// The first of the nodes of `expr` that matches at the offset at which
    /// `res` ends: its bytes are added to `res`. Returns the number of bytes
    /// that were added.
    pub fn match_any<IF, OF>(expr: &ExprBranch, i: &mut IF, res: &mut OF) -> (r: RbrepResult<
        usize,
    >) where IF: MatchInput, OF: MatchOutput
        requires
            old(i).inv(),
        ensures
            steady(old(i), final(i)),
            forall|s: Seq<u8>| #[trigger]
                fits(s, final(i)) ==> appended(
                    r,
                    old(res)@,
                    final(res)@,
                    first_of(
                        nodes_of(expr@),
                        0,
                        ahead(s, old(i).position()),
                        old(res)@.len() as int,
                    ),
                ),
            r is Err ==> excused(final(i)),
        decreases expr, 0nat,
    {
        let ghost at = i.position();
        let ghost before = res@;
        let ghost off = before.len() as int;
        let ghost children = nodes_of(expr@);
        proof {
            lemma_steady_itself(i);
        }
        let mut k: usize = 0;
        while k < expr.len()
            invariant
                k <= expr.len(),
                steady(old(i), i),
                at == old(i).position(),
                children == nodes_of(expr@),
                off == before.len(),
                res@ == before,
                before == old(res)@,
                forall|s: Seq<u8>| #[trigger]
                    fits(s, i) ==> first_of(children, 0, ahead(s, at), off) == first_of(
                        children,
                        k as nat,
                        ahead(s, at),
                        off,
                    ),
            decreases expr.len() - k,
        {
            let e = &expr[k];
            assert(children[k as int] == e@);
            let ghost mid = *i;
            let matched = match e.apply_match(i, res) {
                Ok(matched) => matched,
                Err(e) => {
                    proof {
                        lemma_steady_on(old(i), &mid, i);
                    }
                    return Err(e);
                },
            };
            proof {
                lemma_steady_on(old(i), &mid, i);
            }
            if matched != 0 {
                proof {
                    assert forall|s: Seq<u8>| #[trigger] fits(s, i) implies appended(
                        Ok::<usize, Error>(matched),
                        before,
                        res@,
                        first_of(children, 0, ahead(s, at), off),
                    ) by {
                        lemma_fits_earlier(s, &mid, i);
                        assert(first_of(children, k as nat, ahead(s, at), off) == attempt(
                            children[k as int],
                            ahead(s, at),
                            off,
                        ));
                    }
                }
                return Ok(matched);
            }
            proof {
                assert forall|s: Seq<u8>| #[trigger] fits(s, i) implies first_of(
                    children,
                    0,
                    ahead(s, at),
                    off,
                ) == first_of(children, (k + 1) as nat, ahead(s, at), off) && res@ == before by {
                    lemma_fits_earlier(s, &mid, i);
                    assert(res@ =~= before + attempt(e@, ahead(s, at), off));
                }
                lemma_some_fits(i);
                assert(res@ == before);
            }
            k += 1;
        }
        // got to end without success => no match found!
        assert(res@ =~= before + Seq::empty());
        Ok(0)
    }
}

/// Whether a scan that has handed over the matches from `before` to `after`
/// did so as the matches `all` of the stream ask for: it handed over the
/// first of them, in their order, and all of them if `to_the_end`.
pub open spec fn scanned(all: Seq<Hit>, before: Seq<Hit>, after: Seq<Hit>, to_the_end: bool)
    -> bool {
    let told = after.len() - before.len();
    &&& 0 <= told <= all.len()
    &&& after == before + all.take(told)
    &&& to_the_end ==> told == all.len()
}

/// A scan that has handed over `told`, where the matches of the stream are
/// `told` and then `rest`, did as the matches of the stream ask for.
pub proof fn lemma_scanned(
    all: Seq<Hit>,
    told: Seq<Hit>,
    rest: Seq<Hit>,
    before: Seq<Hit>,
    to_the_end: bool,
)
    requires
        all == told + rest,
        to_the_end ==> rest.len() == 0,
    ensures
        scanned(all, before, before + told, to_the_end),
{
    assert(all.take(told.len() as int) =~= told);
}

/// There is a stream that can be the stream of an input: the bytes that the
/// input has taken, if it does not know of another.
pub proof fn lemma_some_fits<IF: MatchInput>(input: &IF)
    requires
        input.inv(),
    ensures
        exists|s: Seq<u8>| #[trigger] fits(s, input),
{
    input.whole_is_seen();
    let s = match input.whole() {
        Some(all) => all,
        None => input.seen(),
    };
    assert(input.seen().take(input.seen().len() as int) =~= input.seen());
    assert(fits(s, input));
}

} // verus!
