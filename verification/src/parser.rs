use vstd::prelude::*;
use vstd::string::StrSliceExecFns;

verus! {

/// Whether `c` is white space: the characters with the Unicode property
/// White_Space.
pub open spec fn is_space(c: char) -> bool {
    ||| c == ' '
    ||| '\u{9}' <= c <= '\u{d}'
    ||| c == '\u{85}'
    ||| c == '\u{a0}'
    ||| c == '\u{1680}'
    ||| '\u{2000}' <= c <= '\u{200a}'
    ||| c == '\u{2028}'
    ||| c == '\u{2029}'
    ||| c == '\u{202f}'
    ||| c == '\u{205f}'
    ||| c == '\u{3000}'
}

/// Tells white space from the rest.
pub fn is_space_char(c: char) -> (b: bool)
    ensures
        b == is_space(c),
{
    c == ' ' || ('\u{9}' <= c && c <= '\u{d}') || c == '\u{85}' || c == '\u{a0}' || c == '\u{1680}'
        || ('\u{2000}' <= c && c <= '\u{200a}') || c == '\u{2028}' || c == '\u{2029}' || c
        == '\u{202f}' || c == '\u{205f}' || c == '\u{3000}'
}

/// The character at `pos`, or NUL when `pos` is outside the text.
pub open spec fn peek_at(s: Seq<char>, pos: int) -> char {
    if 0 <= pos < s.len() {
        s[pos]
    } else {
        '\0'
    }
}

/// The first position at or after `pos` that holds no white space; the end
/// of the text if only white space is left.
pub open spec fn skip_space(s: Seq<char>, pos: int) -> int
    decreases s.len() - pos,
{
    if 0 <= pos < s.len() && is_space(s[pos]) {
        skip_space(s, pos + 1)
    } else {
        pos
    }
}

/// The position after the character at `pos`; the cursor does not leave the
/// text, so at the end it stays.
pub open spec fn step(s: Seq<char>, pos: int) -> int {
    if 0 <= pos < s.len() {
        pos + 1
    } else {
        pos
    }
}

/// Whether `Parser::until` can get from `from` to `to`: it takes a character
/// the way `Parser::adv` does, each time `f` says yes to the one under the
/// cursor.
pub open spec fn walked<F: Fn(char) -> bool>(s: Seq<char>, from: int, to: int, f: F) -> bool
    decreases to - from,
{
    from == to || {
        let next = step(s, skip_space(s, from));
        &&& 0 <= from < s.len()
        &&& call_ensures(f, (s[from],), true)
        &&& from < next <= to
        &&& walked(s, next, to, f)
    }
}

/// Skipping white space never moves backwards and never leaves the text.
pub proof fn lemma_skip_space_bounds(s: Seq<char>, pos: int)
    ensures
        pos <= skip_space(s, pos),
        0 <= pos <= s.len() ==> skip_space(s, pos) <= s.len(),
        pos < 0 || pos >= s.len() ==> skip_space(s, pos) == pos,
        0 <= skip_space(s, pos) < s.len() ==> !is_space(s[skip_space(s, pos)]),
        forall|k: int| pos <= k < skip_space(s, pos) ==> 0 <= k < s.len() && is_space(s[k]),
    decreases s.len() - pos,
{
    if 0 <= pos < s.len() && is_space(s[pos]) {
        lemma_skip_space_bounds(s, pos + 1);
    }
}

/// A walk that `f` lets go one character further is a walk.
pub proof fn lemma_walked_extend<F: Fn(char) -> bool>(s: Seq<char>, from: int, to: int, f: F)
    requires
        walked(s, from, to, f),
        0 <= to < s.len(),
        call_ensures(f, (s[to],), true),
    ensures
        walked(s, from, step(s, skip_space(s, to)), f),
    decreases to - from,
{
    lemma_skip_space_bounds(s, to);
    if from == to {
        assert(walked(s, step(s, skip_space(s, to)), step(s, skip_space(s, to)), f));
    } else {
        lemma_walked_extend(s, step(s, skip_space(s, from)), to, f);
    }
}

/// A cursor over the characters of a pattern.
///
/// Positions count characters. The cursor reads NUL wherever there is no
/// character, and taking a character at the end of the text leaves the
/// cursor where it is.
pub struct Parser {
    pub src: String,
    pub pos: usize,
}

impl Parser {
    pub fn new(src: &str) -> (p: Self)
        ensures
            p.src@ == src@,
            p.pos == 0,
    {
        Self { src: src.to_owned(), pos: 0 }
    }

    /// Moves past white space.
    pub fn trim(&mut self)
        ensures
            final(self).src == old(self).src,
            final(self).pos == skip_space(old(self).src@, old(self).pos as int),
    {
        let n = self.src.as_str().unicode_len();
        while self.pos < n && is_space_char(self.src.as_str().get_char(self.pos))
            invariant
                n == self.src@.len(),
                self.src == old(self).src,
                skip_space(self.src@, self.pos as int) == skip_space(
                    old(self).src@,
                    old(self).pos as int,
                ),
            decreases n - self.pos,
        {
            self.pos += 1;
        }
    }

    /// The character under the cursor, NUL at the end.
    pub fn peek(&self) -> (c: char)
        ensures
            c == peek_at(self.src@, self.pos as int),
    {
        let s = self.src.as_str();
        if self.pos < s.unicode_len() {
            s.get_char(self.pos)
        } else {
            '\0'
        }
    }

    /// Moves past white space, then looks at the character under the cursor.
    pub fn peek_trim(&mut self) -> (c: char)
        ensures
            final(self).src == old(self).src,
            final(self).pos == skip_space(old(self).src@, old(self).pos as int),
            c == peek_at(old(self).src@, final(self).pos as int),
    {
        self.trim();
        self.peek()
    }

    /// Moves past white space, then takes `expected` if it is next.
    pub fn adv_if_trim(&mut self, expected: char) -> (taken: bool)
        ensures
            final(self).src == old(self).src,
            taken == (peek_at(old(self).src@, skip_space(old(self).src@, old(self).pos as int))
                == expected),
            taken ==> final(self).pos == step(
                old(self).src@,
                skip_space(old(self).src@, skip_space(old(self).src@, old(self).pos as int)),
            ),
            !taken ==> final(self).pos == skip_space(old(self).src@, old(self).pos as int),
    {
        self.trim();
        self.adv_if(expected)
    }

    /// Takes `expected` if it is under the cursor.
    pub fn adv_if(&mut self, expected: char) -> (taken: bool)
        ensures
            final(self).src == old(self).src,
            taken == (peek_at(old(self).src@, old(self).pos as int) == expected),
            taken ==> final(self).pos == step(
                old(self).src@,
                skip_space(old(self).src@, old(self).pos as int),
            ),
            !taken ==> final(self).pos == old(self).pos,
    {
        if self.peek() == expected {
            self.adv();
            true
        } else {
            false
        }
    }

    /// Same as `adv_if`.
    pub fn next_if(&mut self, expected: char) -> (taken: bool)
        ensures
            final(self).src == old(self).src,
            taken == (peek_at(old(self).src@, old(self).pos as int) == expected),
            taken ==> final(self).pos == step(
                old(self).src@,
                skip_space(old(self).src@, old(self).pos as int),
            ),
            !taken ==> final(self).pos == old(self).pos,
    {
        self.adv_if(expected)
    }

    /// Whether the cursor is at or behind the end of the text.
    pub fn is_end(&self) -> (b: bool)
        ensures
            b == (self.pos >= self.src@.len()),
    {
        self.pos >= self.src.as_str().unicode_len()
    }

    /// Moves past white space, then takes one character: NUL, and no move,
    /// if none is left.
    pub fn adv(&mut self) -> (c: char)
        ensures
            final(self).src == old(self).src,
            c == peek_at(old(self).src@, skip_space(old(self).src@, old(self).pos as int)),
            final(self).pos == step(
                old(self).src@,
                skip_space(old(self).src@, old(self).pos as int),
            ),
    {
        self.trim();
        let c = self.peek();
        if self.pos < self.src.as_str().unicode_len() {
            self.pos += 1;
        }
        c
    }

    /// Same as `adv`.
    pub fn next(&mut self) -> (c: char)
        ensures
            final(self).src == old(self).src,
            c == peek_at(old(self).src@, skip_space(old(self).src@, old(self).pos as int)),
            final(self).pos == step(
                old(self).src@,
                skip_space(old(self).src@, old(self).pos as int),
            ),
    {
        self.adv()
    }

    /// Takes characters for as long as `f` says yes to the one under the
    /// cursor, and returns the text that the cursor moved over.
    pub fn until<F: Fn(char) -> bool>(&mut self, f: F) -> (taken: &str)
        requires
            forall|c: char| call_requires(f, (c,)),
        ensures
            final(self).src == old(self).src,
            old(self).pos <= final(self).pos,
            walked(old(self).src@, old(self).pos as int, final(self).pos as int, f),
            final(self).pos >= old(self).src@.len() || call_ensures(
                f,
                (old(self).src@[final(self).pos as int],),
                false,
            ),
            old(self).pos <= old(self).src@.len() ==> final(self).pos <= old(self).src@.len()
                && taken@ == old(self).src@.subrange(old(self).pos as int, final(self).pos as int),
            old(self).pos > old(self).src@.len() ==> taken@.len() == 0,
    {
        let from = self.pos;
        let n = self.src.as_str().unicode_len();
        loop
            invariant
                n == self.src@.len(),
                self.src == old(self).src,
                from == old(self).pos,
                from <= self.pos,
                from <= n ==> self.pos <= n,
                forall|c: char| call_requires(f, (c,)),
                walked(self.src@, from as int, self.pos as int, f),
            ensures
                self.pos >= n || call_ensures(f, (self.src@[self.pos as int],), false),
            decreases n - self.pos,
        {
            if self.is_end() {
                break ;
            }
            let yes = f(self.peek());
            if !yes {
                break ;
            }
            proof {
                lemma_skip_space_bounds(self.src@, self.pos as int);
                lemma_walked_extend(self.src@, from as int, self.pos as int, f);
            }
            self.adv();
        }
        if from <= n {
            self.src.as_str().substring_char(from, self.pos)
        } else {
            proof {
                reveal_strlit("");
            }
            ""
        }
    }
}

} // verus!
