//! The compiler from the text of a pattern to its expression tree.
use super::{lemma_group_children, nodes_of, Expr, ExprBranch, ExprKind, Node, NodeKind};
use crate::error::{Error, RbrepResult};
use crate::grammar::{
    base, branch, byte_or_range, byte_string, byte_value, compile, decimal, digits_end,
    find_quote, group, hex_value, is_digit, items, lemma_base_bounds, lemma_branch_bounds,
    lemma_compile_well_formed, lemma_digits_end_bounds, lemma_find_quote_bounds,
    lemma_node_bounds, masked, negation, node, plain, repetition, well_formed, wildcard,
};
use crate::parser::{
    is_space, lemma_skip_space_bounds, peek_at, skip_space, step, walked, Parser,
};
use vstd::prelude::*;
use vstd::string::StrSliceExecFns;

verus! {

/// Whether a parsing step that ended with `r` and left the cursor at `end`
/// did what the grammar asks for.
pub open spec fn agrees(r: RbrepResult<Expr>, end: int, want: Result<(Node, int), int>) -> bool {
    match want {
        Ok((found, next)) => r matches Ok(e) && e@ == found && end == next,
        Err(at) => r matches Err(Error::BadSyntax(off)) && off == at,
    }
}

/// The value of a hexadecimal digit.
fn hex_digit(c: char) -> (v: Option<u8>)
    ensures
        v == hex_value(c),
        v matches Some(d) ==> d < 16,
{
    if '0' <= c && c <= '9' {
        Some(c as u8 - 48u8)
    } else if 'a' <= c && c <= 'f' {
        Some(c as u8 - 97u8 + 10)
    } else if 'A' <= c && c <= 'F' {
        Some(c as u8 - 65u8 + 10)
    } else {
        None
    }
}

/// Tells a decimal digit from the rest.
fn is_decimal_digit(c: char) -> (b: bool)
    ensures
        b == is_digit(c),
{
    '0' <= c && c <= '9'
}

/// The number that a longer run of digits writes is no smaller.
proof fn lemma_decimal_grows(digits: Seq<char>, upto: int)
    requires
        0 <= upto <= digits.len(),
        forall|i: int| 0 <= i < digits.len() ==> is_digit(digits[i]),
    ensures
        decimal(digits.take(upto)) <= decimal(digits),
    decreases digits.len() - upto,
{
    if upto < digits.len() {
        let longer = digits.take(upto + 1);
        assert(longer.drop_last() =~= digits.take(upto));
        assert(is_digit(longer.last()));
        lemma_decimal_grows(digits, upto + 1);
    } else {
        assert(digits.take(upto) =~= digits);
    }
}

/// The number that a run of decimal digits writes, where the run is not
/// empty and the number fits.
fn parse_count(digits: &str) -> (n: Option<u32>)
    requires
        forall|i: int| 0 <= i < digits@.len() ==> is_digit(digits@[i]),
    ensures
        n == if digits@.len() > 0 && decimal(digits@) <= u32::MAX {
            Some(decimal(digits@) as u32)
        } else {
            None
        },
{
    let len = digits.unicode_len();
    if len == 0 {
        return None;
    }
    let mut value: u64 = 0;
    let mut i: usize = 0;
    while i < len
        invariant
            i <= len,
            len == digits@.len(),
            value == decimal(digits@.take(i as int)),
            value <= u32::MAX,
            forall|k: int| 0 <= k < digits@.len() ==> is_digit(digits@[k]),
        decreases len - i,
    {
        let c = digits.get_char(i);
        let d: u64 = (c as u8 - 48u8) as u64;
        proof {
            let longer = digits@.take(i + 1);
            assert(longer.drop_last() =~= digits@.take(i as int));
            assert(longer.last() == c);
            lemma_decimal_grows(digits@, i + 1);
        }
        value = value * 10 + d;
        i += 1;
        if value > 0xffff_ffff {
            return None;
        }
    }
    proof {
        assert(digits@.take(len as int) =~= digits@);
    }
    Some(value as u32)
}

/// Where a test that accepts the decimal digits and nothing else was walked
/// over, the walk ends where the run of digits ends.
proof fn lemma_walked_digits<F: Fn(char) -> bool>(s: Seq<char>, from: int, to: int, f: F)
    requires
        0 <= from <= s.len(),
        forall|c: char, b: bool| call_ensures(f, (c,), b) ==> b == is_digit(c),
        walked(s, from, to, f),
        to >= s.len() || (0 <= to && call_ensures(f, (s[to],), false)),
    ensures
        to == digits_end(s, from),
        to <= s.len(),
        forall|k: int| from <= k < to ==> is_digit(s[k]),
    decreases to - from,
{
    if from == to {
    } else {
        assert(is_digit(s[from]));
        assert(!is_space(s[from]));
        lemma_walked_digits(s, from + 1, to, f);
    }
}

/// Where no quote lies between two positions, the search for one ends at
/// the same place from both.
proof fn lemma_find_quote_skip(s: Seq<char>, from: int, to: int)
    requires
        0 <= from <= to <= s.len(),
        forall|k: int| from <= k < to ==> s[k] != '"',
    ensures
        find_quote(s, from) == find_quote(s, to),
    decreases to - from,
{
    if from < to {
        lemma_find_quote_skip(s, from + 1, to);
    }
}

impl Expr {
    /// Compiles a pattern: its top-level nodes, or the syntax error with the
    /// offset of the first violation, which never lies behind the end of the
    /// pattern. No node of a compiled pattern has the count zero.
    pub fn tree_from(src: &str) -> (r: RbrepResult<ExprBranch>)
        ensures
            match compile(src@) {
                Ok(nodes) => r matches Ok(tree) && nodes_of(tree@) == nodes,
                Err(at) => r matches Err(Error::BadSyntax(off)) && off == at && off <= src@.len(),
            },
            r matches Ok(tree) ==> forall|i: int|
                0 <= i < tree@.len() ==> well_formed((#[trigger] tree@[i])@),
    {
        let mut parser = Parser::new(src);
        proof {
            lemma_branch_bounds(src@, 0, Seq::empty());
            lemma_compile_well_formed(src@);
        }
        let r = Self::tree_from_parser(&mut parser);
        proof {
            if r is Ok {
                let tree = r->Ok_0;
                assert forall|i: int| 0 <= i < tree@.len() implies well_formed(
                    (#[trigger] tree@[i])@,
                ) by {
                    assert(nodes_of(tree@)[i] == tree@[i]@);
                }
            }
        }
        r
    }

    /// Compiles what is left of a pattern behind the cursor.
    pub fn tree_from_parser(parser: &mut Parser) -> (r: RbrepResult<ExprBranch>)
        ensures
            final(parser).src == old(parser).src,
            match branch(old(parser).src@, old(parser).pos as int, Seq::empty()) {
                Ok(nodes) => r matches Ok(tree) && nodes_of(tree@) == nodes,
                Err(at) => r matches Err(Error::BadSyntax(off)) && off == at,
            },
    {
        let mut tree: ExprBranch = Vec::new();
        let ghost s = parser.src@;
        assert(nodes_of(tree@) =~= Seq::empty());
        if parser.is_end() {
            // nothing is left behind the cursor
            proof {
                lemma_skip_space_bounds(s, parser.pos as int);
            }
            return Ok(tree);
        }
        loop
            invariant
                parser.src == old(parser).src,
                s == parser.src@,
                parser.pos <= s.len(),
                branch(s, parser.pos as int, nodes_of(tree@)) == branch(
                    s,
                    old(parser).pos as int,
                    Seq::empty(),
                ),
            decreases s.len() - parser.pos,
        {
            let ghost before = parser.pos as int;
            let ghost acc = nodes_of(tree@);
            proof {
                lemma_skip_space_bounds(s, before);
            }
            parser.trim();
            if parser.is_end() {
                return Ok(tree);
            }
            proof {
                lemma_node_bounds(s, parser.pos as int);
            }
            match Self::parse(parser) {
                Ok(e) => {
                    tree.push(e);
                    assert(nodes_of(tree@) =~= acc.push(e@));
                },
                Err(e) => {
                    return Err(e);
                },
            }
        }
    }

    /// Reads `XX`: two hexadecimal digits.
    fn parse_byte_value(parser: &mut Parser) -> (r: RbrepResult<u8>)
        ensures
            final(parser).src == old(parser).src,
            match byte_value(old(parser).src@, old(parser).pos as int) {
                Ok((value, next)) => r == Ok::<u8, Error>(value) && final(parser).pos == next,
                Err(at) => r matches Err(Error::BadSyntax(off)) && off == at,
            },
    {
        let first = parser.adv();
        let second = parser.adv();
        match (hex_digit(first), hex_digit(second)) {
            (Some(high), Some(low)) => Ok(high * 16 + low),
            _ => Err(Error::BadSyntax(parser.pos)),
        }
    }

    /// Reads `XX` or `XX-YY`.
    fn parse_byte_or_range(parser: &mut Parser) -> (r: RbrepResult<Expr>)
        ensures
            final(parser).src == old(parser).src,
            agrees(
                r,
                final(parser).pos as int,
                byte_or_range(old(parser).src@, old(parser).pos as int),
            ),
    {
        let ghost s = parser.src@;
        let value = match Self::parse_byte_value(parser) {
            Ok(value) => value,
            Err(e) => {
                return Err(e);
            },
        };
        proof {
            lemma_skip_space_bounds(s, parser.pos as int);
            lemma_skip_space_bounds(s, skip_space(s, parser.pos as int));
        }
        if parser.adv_if_trim('-') {
            let value2 = match Self::parse_byte_value(parser) {
                Ok(value) => value,
                Err(e) => {
                    return Err(e);
                },
            };
            Ok(
                Expr::new(
                    ExprKind::Range {
                        from: if value <= value2 {
                            value
                        } else {
                            value2
                        },
                        to: if value <= value2 {
                            value2
                        } else {
                            value
                        },
                    },
                    1,
                ),
            )
        } else {
            Ok(Expr::new(ExprKind::Byte { value }, 1))
        }
    }

    /// Reads `??`.
    fn parse_any(parser: &mut Parser) -> (r: RbrepResult<Expr>)
        ensures
            final(parser).src == old(parser).src,
            agrees(r, final(parser).pos as int, wildcard(old(parser).src@, old(parser).pos as int)),
    {
        let ghost s = parser.src@;
        proof {
            let first = skip_space(s, parser.pos as int);
            lemma_skip_space_bounds(s, parser.pos as int);
            lemma_skip_space_bounds(s, first);
            lemma_skip_space_bounds(s, first + 1);
            lemma_skip_space_bounds(s, skip_space(s, first + 1));
        }
        if parser.adv_if_trim('?') && parser.adv_if_trim('?') {
            Ok(Expr::new(ExprKind::Any, 1))
        } else {
            Err(Error::BadSyntax(parser.pos))
        }
    }

    /// Reads the repetition suffix behind `expr`, if there is one.
    fn parse_mul(parser: &mut Parser, expr: Expr) -> (r: RbrepResult<Expr>)
        requires
            old(parser).pos <= old(parser).src@.len(),
        ensures
            final(parser).src == old(parser).src,
            agrees(
                r,
                final(parser).pos as int,
                repetition(old(parser).src@, old(parser).pos as int, expr@),
            ),
    {
        let ghost s = parser.src@;
        let ghost star = skip_space(s, parser.pos as int);
        proof {
            lemma_skip_space_bounds(s, parser.pos as int);
            lemma_skip_space_bounds(s, star);
        }
        let mut expr = expr;
        // if not a mul return
        if !parser.adv_if_trim('*') {
            return Ok(expr);
        }
        parser.trim();
        let ghost from = parser.pos as int;
        proof {
            lemma_skip_space_bounds(s, star + 1);
            lemma_digits_end_bounds(s, from);
        }
        // now, get the slice of numbers
        let num = parser.until(is_decimal_digit);
        proof {
            lemma_walked_digits(s, from, from + num@.len(), is_decimal_digit);
        }
        let count = parse_count(num);
        let ghost to = parser.pos as int;
        let num = match count {
            Some(num) => num,
            None => {
                return Err(Error::BadSyntax(parser.pos));
            },
        };
        if num == 0 {
            expr.optional = true;
            expr.mul = 1;
        } else {
            expr.mul = num;
        }
        proof {
            lemma_skip_space_bounds(s, to);
            let plus = skip_space(s, to);
            lemma_skip_space_bounds(s, plus);
            lemma_skip_space_bounds(s, plus + 1);
            lemma_skip_space_bounds(s, skip_space(s, plus + 1));
        }
        // if + follows mul set many flag
        if parser.adv_if_trim('+') {
            expr.many = true;
        }
        // ; is required after mul
        if !parser.adv_if_trim(';') {
            Err(Error::BadSyntax(parser.pos))
        } else {
            Ok(expr)
        }
    }

    /// Reads `( … )`.
    fn parse_group(parser: &mut Parser, and: bool) -> (r: RbrepResult<Expr>)
        requires
            old(parser).pos <= old(parser).src@.len(),
        ensures
            final(parser).src == old(parser).src,
            agrees(
                r,
                final(parser).pos as int,
                group(old(parser).src@, old(parser).pos as int, and),
            ),
        decreases old(parser).src@.len() - old(parser).pos, 0nat,
    {
        let ghost s = parser.src@;
        let ghost paren = skip_space(s, parser.pos as int);
        proof {
            lemma_skip_space_bounds(s, parser.pos as int);
            lemma_skip_space_bounds(s, paren);
        }
        if !parser.adv_if_trim('(') {
            return Err(Error::BadSyntax(parser.pos));
        }
        let mut nodes: Vec<Expr> = Vec::new();
        assert(nodes_of(nodes@) =~= Seq::empty());
        loop
            invariant
                parser.src == old(parser).src,
                s == parser.src@,
                paren < parser.pos <= s.len(),
                old(parser).pos <= paren,
                items(s, parser.pos as int, nodes_of(nodes@)) == items(s, paren + 1, Seq::empty()),
                group(s, old(parser).pos as int, and) == match items(s, paren + 1, Seq::empty()) {
                    Err(bad) => Err(bad),
                    Ok((children, next)) => Ok(
                        (plain(NodeKind::Group { children, conjunction: and }), next),
                    ),
                },
            decreases s.len() - parser.pos,
        {
            let ghost acc = nodes_of(nodes@);
            proof {
                lemma_skip_space_bounds(s, parser.pos as int);
                lemma_skip_space_bounds(s, skip_space(s, parser.pos as int));
            }
            if parser.adv_if_trim(')') {
                proof {
                    lemma_group_children(nodes, and);
                }
                return Ok(Expr::new(ExprKind::Group { nodes, and }, 1));
            }
            if parser.is_end() {
                return Err(Error::BadSyntax(parser.pos));
            }
            proof {
                lemma_node_bounds(s, parser.pos as int);
            }
            match Self::parse(parser) {
                Ok(e) => {
                    nodes.push(e);
                    assert(nodes_of(nodes@) =~= acc.push(e@));
                },
                Err(e) => {
                    return Err(e);
                },
            }
        }
    }

    /// Reads `"…"`.
    fn parse_string(parser: &mut Parser) -> (r: RbrepResult<Expr>)
        requires
            old(parser).pos <= old(parser).src@.len(),
        ensures
            final(parser).src == old(parser).src,
            agrees(
                r,
                final(parser).pos as int,
                byte_string(old(parser).src@, old(parser).pos as int),
            ),
    {
        let ghost s = parser.src@;
        let ghost quote = skip_space(s, parser.pos as int);
        proof {
            lemma_skip_space_bounds(s, parser.pos as int);
            lemma_skip_space_bounds(s, quote);
        }
        if !parser.adv_if_trim('"') {
            return Err(Error::BadSyntax(parser.pos));
        }
        let start = parser.pos;
        // a quote cannot stand inside a string: the first one ends it
        loop
            invariant
                parser.src == old(parser).src,
                s == parser.src@,
                start == quote + 1,
                start <= parser.pos <= s.len(),
                quote == skip_space(s, old(parser).pos as int),
                peek_at(s, quote) == '"',
                find_quote(s, parser.pos as int) == find_quote(s, quote + 1),
            decreases s.len() - parser.pos,
        {
            let ghost before = parser.pos as int;
            proof {
                lemma_skip_space_bounds(s, before);
                let at = skip_space(s, before);
                lemma_skip_space_bounds(s, at);
                lemma_find_quote_skip(s, before, at);
                lemma_find_quote_bounds(s, quote + 1);
            }
            if parser.adv_if_trim('"') {
                let end = parser.pos - 1;
                let string = parser.src.as_str().substring_char(start, end).to_owned();
                return Ok(Expr::new(ExprKind::String { value: string }, 1));
            }
            if parser.is_end() {
                return Err(Error::BadSyntax(parser.pos));
            }
            parser.adv();
        }
    }

    /// Reads `&XX` or `&( … )`.
    fn parse_and(parser: &mut Parser) -> (r: RbrepResult<Expr>)
        requires
            old(parser).pos <= old(parser).src@.len(),
        ensures
            final(parser).src == old(parser).src,
            agrees(r, final(parser).pos as int, masked(old(parser).src@, old(parser).pos as int)),
        decreases old(parser).src@.len() - old(parser).pos, 0nat,
    {
        let ghost s = parser.src@;
        let ghost amp = skip_space(s, parser.pos as int);
        proof {
            lemma_skip_space_bounds(s, parser.pos as int);
            lemma_skip_space_bounds(s, amp);
            lemma_skip_space_bounds(s, amp + 1);
            lemma_skip_space_bounds(s, skip_space(s, amp + 1));
        }
        if !parser.adv_if_trim('&') {
            return Err(Error::BadSyntax(parser.pos));
        }
        // is it an and group?
        if parser.peek_trim() == '(' {
            Self::parse_group(parser, true)
        } else {
            match Self::parse_byte_value(parser) {
                Ok(value) => Ok(Expr::new(ExprKind::And { value }, 1)),
                Err(e) => Err(e),
            }
        }
    }

    /// Reads `!` and the node that it negates.
    fn parse_not(parser: &mut Parser) -> (r: RbrepResult<Expr>)
        requires
            old(parser).pos <= old(parser).src@.len(),
        ensures
            final(parser).src == old(parser).src,
            agrees(
                r,
                final(parser).pos as int,
                negation(old(parser).src@, old(parser).pos as int),
            ),
        decreases old(parser).src@.len() - old(parser).pos, 0nat,
    {
        let ghost s = parser.src@;
        let ghost bang = skip_space(s, parser.pos as int);
        proof {
            lemma_skip_space_bounds(s, parser.pos as int);
            lemma_skip_space_bounds(s, bang);
        }
        if !parser.adv_if_trim('!') {
            return Err(Error::BadSyntax(parser.pos));
        }
        match Self::parse_base(parser) {
            Ok(inner) => Ok(Expr::new(ExprKind::Not { expr: Box::new(inner) }, 1)),
            Err(e) => Err(e),
        }
    }

    /// Reads one node without its repetition suffix.
    fn parse_base(parser: &mut Parser) -> (r: RbrepResult<Expr>)
        requires
            old(parser).pos <= old(parser).src@.len(),
        ensures
            final(parser).src == old(parser).src,
            agrees(r, final(parser).pos as int, base(old(parser).src@, old(parser).pos as int)),
        decreases old(parser).src@.len() - old(parser).pos, 1nat,
    {
        let ghost s = parser.src@;
        proof {
            lemma_skip_space_bounds(s, parser.pos as int);
        }
        let first = parser.peek_trim();
        if first == '?' {
            Self::parse_any(parser)
        } else if first == '(' {
            Self::parse_group(parser, false)
        } else if first == '"' {
            Self::parse_string(parser)
        } else if first == '&' {
            Self::parse_and(parser)
        } else if first == '!' {
            Self::parse_not(parser)
        } else if hex_digit(first).is_some() {
            Self::parse_byte_or_range(parser)
        } else {
            Err(Error::BadSyntax(parser.pos))
        }
    }

    /// Reads one node with its repetition suffix.
    fn parse(parser: &mut Parser) -> (r: RbrepResult<Expr>)
        requires
            old(parser).pos <= old(parser).src@.len(),
        ensures
            final(parser).src == old(parser).src,
            agrees(r, final(parser).pos as int, node(old(parser).src@, old(parser).pos as int)),
        decreases old(parser).src@.len() - old(parser).pos, 2nat,
    {
        proof {
            lemma_base_bounds(parser.src@, parser.pos as int);
        }
        let expr = match Self::parse_base(parser) {
            Ok(expr) => expr,
            Err(e) => {
                return Err(e);
            },
        };
        Self::parse_mul(parser, expr)
    }
}

} // verus!
