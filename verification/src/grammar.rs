//! The pattern language, as a function from the characters of a pattern to
//! the nodes that it denotes.
//!
//! Every function here reads the text `s` from a position and answers with
//! `Ok((value, next))`, where `next` is the position behind what was read, or
//! with `Err(at)`, where `at` is the offset of the violation.
use crate::expr::{Node, NodeKind};
use crate::parser::{lemma_skip_space_bounds, peek_at, skip_space, step};
use vstd::prelude::*;

verus! {

/// A node without repetition modifiers.
pub open spec fn plain(kind: NodeKind) -> Node {
    Node { kind, count: 1, many: false, optional: false }
}

/// The value of a hexadecimal digit, in either case.
pub open spec fn hex_value(c: char) -> Option<u8> {
    if '0' <= c <= '9' {
        Some((c as int - '0' as int) as u8)
    } else if 'a' <= c <= 'f' {
        Some((c as int - 'a' as int + 10) as u8)
    } else if 'A' <= c <= 'F' {
        Some((c as int - 'A' as int + 10) as u8)
    } else {
        None
    }
}

pub open spec fn is_hex(c: char) -> bool {
    hex_value(c) is Some
}

pub open spec fn is_digit(c: char) -> bool {
    '0' <= c <= '9'
}

/// The end of the run of decimal digits that starts at `pos`.
pub open spec fn digits_end(s: Seq<char>, pos: int) -> int
    decreases s.len() - pos,
{
    if 0 <= pos < s.len() && is_digit(s[pos]) {
        digits_end(s, pos + 1)
    } else {
        pos
    }
}

/// The number that a run of decimal digits writes.
pub open spec fn decimal(digits: Seq<char>) -> nat
    decreases digits.len(),
{
    if digits.len() == 0 {
        0
    } else {
        (decimal(digits.drop_last()) * 10 + (digits.last() as int - '0' as int)) as nat
    }
}

/// The first position at or after `from` that holds a double quote; the end
/// of the text if there is none.
pub open spec fn find_quote(s: Seq<char>, from: int) -> int
    decreases s.len() - from,
{
    if 0 <= from < s.len() && s[from] != '"' {
        find_quote(s, from + 1)
    } else {
        from
    }
}

/// `XX`: two hexadecimal digits, each after optional white space.
pub open spec fn byte_value(s: Seq<char>, pos: int) -> Result<(u8, int), int> {
    let first = skip_space(s, pos);
    let second = skip_space(s, step(s, first));
    let next = step(s, second);
    match (hex_value(peek_at(s, first)), hex_value(peek_at(s, second))) {
        (Some(high), Some(low)) => Ok(((high * 16 + low) as u8, next)),
        _ => Err(next),
    }
}

/// `XX` or `XX-YY`: a byte, or the range between the smaller and the larger
/// of two bytes.
pub open spec fn byte_or_range(s: Seq<char>, pos: int) -> Result<(Node, int), int> {
    match byte_value(s, pos) {
        Err(at) => Err(at),
        Ok((value, next)) => {
            let dash = skip_space(s, next);
            if peek_at(s, dash) == '-' {
                match byte_value(s, dash + 1) {
                    Err(at) => Err(at),
                    Ok((other, end)) => Ok(
                        (
                            plain(
                                NodeKind::Range {
                                    low: if value <= other {
                                        value
                                    } else {
                                        other
                                    },
                                    high: if value <= other {
                                        other
                                    } else {
                                        value
                                    },
                                },
                            ),
                            end,
                        ),
                    ),
                }
            } else {
                Ok((plain(NodeKind::ByteLiteral { value }), dash))
            }
        },
    }
}

/// `??`: the wildcard.
pub open spec fn wildcard(s: Seq<char>, pos: int) -> Result<(Node, int), int> {
    let first = skip_space(s, pos);
    let second = skip_space(s, first + 1);
    if peek_at(s, first) != '?' {
        Err(first)
    } else if peek_at(s, second) != '?' {
        Err(second)
    } else {
        Ok((plain(NodeKind::Wildcard), second + 1))
    }
}

/// `"…"`: the bytes of the text between the quotes, as UTF-8.
pub open spec fn byte_string(s: Seq<char>, pos: int) -> Result<(Node, int), int> {
    let quote = skip_space(s, pos);
    let close = find_quote(s, quote + 1);
    if peek_at(s, quote) != '"' {
        Err(quote)
    } else if close >= s.len() {
        Err(s.len() as int)
    } else {
        Ok(
            (
                plain(
                    NodeKind::ByteString {
                        literal: vstd::utf8::encode_utf8(s.subrange(quote + 1, close)),
                    },
                ),
                close + 1,
            ),
        )
    }
}

/// `node` with the count that `*N` asks for: `*0` makes the node optional.
pub open spec fn with_count(node: Node, n: nat) -> Node {
    if n == 0 {
        Node { count: 1, optional: true, ..node }
    } else {
        Node { count: n, ..node }
    }
}

/// The optional suffix `*N;` or `*N+;` behind a node.
pub open spec fn repetition(s: Seq<char>, pos: int, node: Node) -> Result<(Node, int), int> {
    let star = skip_space(s, pos);
    let from = skip_space(s, star + 1);
    let to = digits_end(s, from);
    let n = decimal(s.subrange(from, to));
    let plus = skip_space(s, to);
    let many = peek_at(s, plus) == '+';
    let semi = skip_space(
        s,
        if many {
            plus + 1
        } else {
            plus
        },
    );
    if peek_at(s, star) != '*' {
        Ok((node, star))
    } else if from == to || n > u32::MAX {
        Err(to)
    } else if peek_at(s, semi) != ';' {
        Err(semi)
    } else {
        Ok((Node { many: many || node.many, ..with_count(node, n) }, semi + 1))
    }
}

/// `( … )`: a group of nodes; a conjunction where `&` stands in front.
pub open spec fn group(s: Seq<char>, pos: int, conjunction: bool) -> Result<(Node, int), int>
    decreases s.len() - pos, 0nat,
{
    let paren = skip_space(s, pos);
    if peek_at(s, paren) != '(' {
        Err(paren)
    } else {
        proof {
            lemma_skip_space_bounds(s, pos);
        }
        match items(s, paren + 1, Seq::empty()) {
            Err(bad) => Err(bad),
            Ok((children, next)) => Ok((plain(NodeKind::Group { children, conjunction }), next)),
        }
    }
}

/// `&XX` or `&( … )`: a bit mask, or a conjunction.
pub open spec fn masked(s: Seq<char>, pos: int) -> Result<(Node, int), int>
    decreases s.len() - pos, 0nat,
{
    let amp = skip_space(s, pos);
    let inner = skip_space(s, amp + 1);
    if peek_at(s, amp) != '&' {
        Err(amp)
    } else if peek_at(s, inner) == '(' {
        proof {
            lemma_skip_space_bounds(s, pos);
            lemma_skip_space_bounds(s, amp + 1);
        }
        group(s, inner, true)
    } else {
        match byte_value(s, inner) {
            Err(bad) => Err(bad),
            Ok((mask, next)) => Ok((plain(NodeKind::BitmaskTest { mask }), next)),
        }
    }
}

/// `!` and one node without a suffix: a repetition suffix that follows
/// belongs to the negation, not to the node inside it.
pub open spec fn negation(s: Seq<char>, pos: int) -> Result<(Node, int), int>
    decreases s.len() - pos, 0nat,
{
    let bang = skip_space(s, pos);
    if peek_at(s, bang) != '!' {
        Err(bang)
    } else {
        proof {
            lemma_skip_space_bounds(s, pos);
        }
        match base(s, bang + 1) {
            Err(bad) => Err(bad),
            Ok((inner, next)) => Ok((plain(NodeKind::Negation { inner: Box::new(inner) }), next)),
        }
    }
}

/// A node without its repetition suffix: the first character that is no
/// white space tells which one.
pub open spec fn base(s: Seq<char>, pos: int) -> Result<(Node, int), int>
    decreases s.len() - pos, 1nat,
{
    let at = skip_space(s, pos);
    let c = peek_at(s, at);
    proof {
        lemma_skip_space_bounds(s, pos);
    }
    if c == '?' {
        wildcard(s, at)
    } else if c == '(' {
        group(s, at, false)
    } else if c == '"' {
        byte_string(s, at)
    } else if c == '&' {
        masked(s, at)
    } else if c == '!' {
        negation(s, at)
    } else if is_hex(c) {
        byte_or_range(s, at)
    } else {
        Err(at)
    }
}

/// A node with its repetition suffix, if it has one.
pub open spec fn node(s: Seq<char>, pos: int) -> Result<(Node, int), int>
    decreases s.len() - pos, 2nat,
{
    match base(s, pos) {
        Err(bad) => Err(bad),
        Ok((found, next)) => repetition(s, next, found),
    }
}

/// The nodes of a group up to its closing bracket, behind the nodes `acc`
/// that were read already.
pub open spec fn items(s: Seq<char>, pos: int, acc: Seq<Node>) -> Result<(Seq<Node>, int), int>
    decreases s.len() - pos, 3nat,
{
    let at = skip_space(s, pos);
    if peek_at(s, at) == ')' {
        Ok((acc, at + 1))
    } else if !(0 <= at < s.len()) {
        Err(at)
    } else {
        proof {
            lemma_skip_space_bounds(s, pos);
        }
        match node(s, at) {
            Err(bad) => Err(bad),
            Ok((found, next)) => if at < next <= s.len() {
                items(s, next, acc.push(found))
            } else {
                Err(at)
            },
        }
    }
}

/// The nodes of a whole pattern from `pos` on, behind the nodes `acc` that
/// were read already.
pub open spec fn branch(s: Seq<char>, pos: int, acc: Seq<Node>) -> Result<Seq<Node>, int>
    decreases s.len() - pos,
{
    let at = skip_space(s, pos);
    if !(0 <= at < s.len()) {
        Ok(acc)
    } else {
        proof {
            lemma_skip_space_bounds(s, pos);
        }
        match node(s, at) {
            Err(bad) => Err(bad),
            Ok((found, next)) => if at < next <= s.len() {
                branch(s, next, acc.push(found))
            } else {
                Err(at)
            },
        }
    }
}

/// What a pattern compiles to: its top-level nodes, or the offset of the
/// first violation.
pub open spec fn compile(s: Seq<char>) -> Result<Seq<Node>, int> {
    branch(s, 0, Seq::empty())
}

/// The run of digits that starts inside the text ends inside it.
pub proof fn lemma_digits_end_bounds(s: Seq<char>, pos: int)
    ensures
        pos <= digits_end(s, pos),
        0 <= pos <= s.len() ==> digits_end(s, pos) <= s.len(),
        forall|k: int| pos <= k < digits_end(s, pos) ==> 0 <= k < s.len() && is_digit(s[k]),
        0 <= digits_end(s, pos) < s.len() ==> !is_digit(s[digits_end(s, pos)]),
    decreases s.len() - pos,
{
    if 0 <= pos < s.len() && is_digit(s[pos]) {
        lemma_digits_end_bounds(s, pos + 1);
    }
}

/// The search for a quote that starts inside the text ends inside it, and
/// passes no quote.
pub proof fn lemma_find_quote_bounds(s: Seq<char>, from: int)
    ensures
        from <= find_quote(s, from),
        0 <= from <= s.len() ==> find_quote(s, from) <= s.len(),
        forall|k: int| from <= k < find_quote(s, from) ==> 0 <= k < s.len() && s[k] != '"',
        0 <= find_quote(s, from) < s.len() ==> s[find_quote(s, from)] == '"',
    decreases s.len() - from,
{
    if 0 <= from < s.len() && s[from] != '"' {
        lemma_find_quote_bounds(s, from + 1);
    }
}

/// Two hexadecimal digits end inside the text, and so does the violation
/// where there are none.
pub proof fn lemma_byte_value_bounds(s: Seq<char>, pos: int)
    requires
        0 <= pos <= s.len(),
    ensures
        match byte_value(s, pos) {
            Ok((_, next)) => pos < next <= s.len(),
            Err(at) => pos <= at <= s.len(),
        },
{
    let first = skip_space(s, pos);
    lemma_skip_space_bounds(s, pos);
    lemma_skip_space_bounds(s, step(s, first));
}

/// A wildcard takes at least one character and ends inside the text.
pub proof fn lemma_wildcard_bounds(s: Seq<char>, pos: int)
    requires
        0 <= pos <= s.len(),
    ensures
        match wildcard(s, pos) {
            Ok((_, next)) => pos < next <= s.len(),
            Err(at) => pos <= at <= s.len(),
        },
{
    let first = skip_space(s, pos);
    lemma_skip_space_bounds(s, pos);
    if first < s.len() {
        lemma_skip_space_bounds(s, first + 1);
    }
}

/// A string takes at least one character and ends inside the text.
pub proof fn lemma_byte_string_bounds(s: Seq<char>, pos: int)
    requires
        0 <= pos <= s.len(),
    ensures
        match byte_string(s, pos) {
            Ok((_, next)) => pos < next <= s.len(),
            Err(at) => pos <= at <= s.len(),
        },
{
    let quote = skip_space(s, pos);
    lemma_skip_space_bounds(s, pos);
    if quote < s.len() {
        lemma_find_quote_bounds(s, quote + 1);
    }
}

/// A byte or a range takes at least one character and ends inside the text.
pub proof fn lemma_byte_or_range_bounds(s: Seq<char>, pos: int)
    requires
        0 <= pos <= s.len(),
    ensures
        match byte_or_range(s, pos) {
            Ok((_, next)) => pos < next <= s.len(),
            Err(at) => pos <= at <= s.len(),
        },
{
    lemma_byte_value_bounds(s, pos);
    match byte_value(s, pos) {
        Ok((_, next)) => {
            let dash = skip_space(s, next);
            lemma_skip_space_bounds(s, next);
            if peek_at(s, dash) == '-' {
                lemma_byte_value_bounds(s, dash + 1);
            }
        },
        Err(_) => {},
    }
}

/// A group takes at least one character and ends inside the text.
pub proof fn lemma_group_bounds(s: Seq<char>, pos: int, conjunction: bool)
    requires
        0 <= pos <= s.len(),
    ensures
        match group(s, pos, conjunction) {
            Ok((_, next)) => pos < next <= s.len(),
            Err(at) => pos <= at <= s.len(),
        },
    decreases s.len() - pos, 0nat,
{
    let paren = skip_space(s, pos);
    lemma_skip_space_bounds(s, pos);
    if peek_at(s, paren) == '(' {
        lemma_items_bounds(s, paren + 1, Seq::empty());
    }
}

/// A bit mask or a conjunction takes at least one character and ends inside
/// the text.
pub proof fn lemma_masked_bounds(s: Seq<char>, pos: int)
    requires
        0 <= pos <= s.len(),
    ensures
        match masked(s, pos) {
            Ok((_, next)) => pos < next <= s.len(),
            Err(at) => pos <= at <= s.len(),
        },
    decreases s.len() - pos, 0nat,
{
    let amp = skip_space(s, pos);
    lemma_skip_space_bounds(s, pos);
    if peek_at(s, amp) == '&' {
        let inner = skip_space(s, amp + 1);
        lemma_skip_space_bounds(s, amp + 1);
        if peek_at(s, inner) == '(' {
            lemma_group_bounds(s, inner, true);
        } else {
            lemma_byte_value_bounds(s, inner);
        }
    }
}

/// A negation takes at least one character and ends inside the text.
pub proof fn lemma_negation_bounds(s: Seq<char>, pos: int)
    requires
        0 <= pos <= s.len(),
    ensures
        match negation(s, pos) {
            Ok((_, next)) => pos < next <= s.len(),
            Err(at) => pos <= at <= s.len(),
        },
    decreases s.len() - pos, 0nat,
{
    let bang = skip_space(s, pos);
    lemma_skip_space_bounds(s, pos);
    if peek_at(s, bang) == '!' {
        lemma_base_bounds(s, bang + 1);
    }
}

/// A node without its suffix takes at least one character and ends inside
/// the text; a violation lies inside the text or at its end.
pub proof fn lemma_base_bounds(s: Seq<char>, pos: int)
    requires
        0 <= pos <= s.len(),
    ensures
        match base(s, pos) {
            Ok((_, next)) => pos < next <= s.len(),
            Err(at) => pos <= at <= s.len(),
        },
    decreases s.len() - pos, 1nat,
{
    let at = skip_space(s, pos);
    let c = peek_at(s, at);
    lemma_skip_space_bounds(s, pos);
    if c == '?' {
        lemma_wildcard_bounds(s, at);
    } else if c == '(' {
        lemma_group_bounds(s, at, false);
    } else if c == '"' {
        lemma_byte_string_bounds(s, at);
    } else if c == '&' {
        lemma_masked_bounds(s, at);
    } else if c == '!' {
        lemma_negation_bounds(s, at);
    } else if is_hex(c) {
        lemma_byte_or_range_bounds(s, at);
    }
}

/// A repetition suffix ends inside the text, and so does a violation in it.
pub proof fn lemma_repetition_bounds(s: Seq<char>, pos: int, found: Node)
    requires
        0 <= pos <= s.len(),
    ensures
        match repetition(s, pos, found) {
            Ok((_, next)) => pos <= next <= s.len(),
            Err(at) => pos <= at <= s.len(),
        },
{
    let star = skip_space(s, pos);
    lemma_skip_space_bounds(s, pos);
    if peek_at(s, star) == '*' {
        let from = skip_space(s, star + 1);
        lemma_skip_space_bounds(s, star + 1);
        let to = digits_end(s, from);
        lemma_digits_end_bounds(s, from);
        let plus = skip_space(s, to);
        lemma_skip_space_bounds(s, to);
        lemma_skip_space_bounds(s, plus + 1);
        lemma_skip_space_bounds(s, plus);
    }
}

/// A node takes at least one character and ends inside the text; a
/// violation lies inside the text or at its end.
pub proof fn lemma_node_bounds(s: Seq<char>, pos: int)
    requires
        0 <= pos <= s.len(),
    ensures
        match node(s, pos) {
            Ok((_, next)) => pos < next <= s.len(),
            Err(at) => pos <= at <= s.len(),
        },
    decreases s.len() - pos, 2nat,
{
    lemma_base_bounds(s, pos);
    match base(s, pos) {
        Ok((found, next)) => {
            lemma_repetition_bounds(s, next, found);
        },
        Err(_) => {},
    }
}

/// The nodes of a group end inside the text, and so does a violation among
/// them.
pub proof fn lemma_items_bounds(s: Seq<char>, pos: int, acc: Seq<Node>)
    requires
        0 <= pos <= s.len(),
    ensures
        match items(s, pos, acc) {
            Ok((_, next)) => pos < next <= s.len(),
            Err(at) => pos <= at <= s.len(),
        },
    decreases s.len() - pos, 3nat,
{
    let at = skip_space(s, pos);
    lemma_skip_space_bounds(s, pos);
    if peek_at(s, at) == ')' {
    } else if !(0 <= at < s.len()) {
    } else {
        lemma_node_bounds(s, at);
        match node(s, at) {
            Ok((found, next)) => {
                lemma_items_bounds(s, next, acc.push(found));
            },
            Err(_) => {},
        }
    }
}

/// A violation in a pattern lies inside the text or at its end.
pub proof fn lemma_branch_bounds(s: Seq<char>, pos: int, acc: Seq<Node>)
    requires
        0 <= pos <= s.len(),
    ensures
        branch(s, pos, acc) matches Err(at) ==> pos <= at <= s.len(),
    decreases s.len() - pos,
{
    let at = skip_space(s, pos);
    lemma_skip_space_bounds(s, pos);
    if 0 <= at < s.len() {
        lemma_node_bounds(s, at);
        match node(s, at) {
            Ok((found, next)) => {
                lemma_branch_bounds(s, next, acc.push(found));
            },
            Err(_) => {},
        }
    }
}

/// Compiling is total, and the offset of a syntax error never lies behind
/// the end of the pattern.
pub proof fn lemma_compile_total(s: Seq<char>)
    ensures
        compile(s) matches Err(at) ==> 0 <= at <= s.len(),
{
    lemma_branch_bounds(s, 0, Seq::empty());
}

/// Whether a node, and every node inside it, has the modifiers that the
/// grammar gives: no count is zero, an optional node has the count one, and
/// a range runs from the smaller byte to the larger.
pub open spec fn well_formed(n: Node) -> bool
    decreases n,
{
    &&& n.count >= 1
    &&& n.optional ==> n.count == 1
    &&& match n.kind {
        NodeKind::Negation { inner } => well_formed(*inner),
        NodeKind::Group { children, conjunction } => forall|i: int|
            0 <= i < children.len() ==> well_formed(#[trigger] children[i]),
        NodeKind::Range { low, high } => low <= high,
        _ => true,
    }
}

/// A node without a suffix that the grammar gives is well formed, and has
/// no modifier.
pub proof fn lemma_base_well_formed(s: Seq<char>, pos: int)
    requires
        0 <= pos <= s.len(),
    ensures
        base(s, pos) matches Ok((found, _)) ==> well_formed(found) && found == plain(found.kind),
    decreases s.len() - pos, 1nat,
{
    let at = skip_space(s, pos);
    let c = peek_at(s, at);
    lemma_skip_space_bounds(s, pos);
    if c == '(' {
        lemma_group_well_formed(s, at, false);
    } else if c == '&' {
        let amp = skip_space(s, at);
        lemma_skip_space_bounds(s, at);
        let inner = skip_space(s, amp + 1);
        lemma_skip_space_bounds(s, amp + 1);
        if peek_at(s, inner) == '(' {
            lemma_group_well_formed(s, inner, true);
        }
    } else if c == '!' {
        let bang = skip_space(s, at);
        lemma_skip_space_bounds(s, at);
        lemma_base_well_formed(s, bang + 1);
    }
}

/// A group that the grammar gives is well formed.
pub proof fn lemma_group_well_formed(s: Seq<char>, pos: int, conjunction: bool)
    requires
        0 <= pos <= s.len(),
    ensures
        group(s, pos, conjunction) matches Ok((found, _)) ==> well_formed(found) && found == plain(
            found.kind,
        ),
    decreases s.len() - pos, 0nat,
{
    let paren = skip_space(s, pos);
    lemma_skip_space_bounds(s, pos);
    if peek_at(s, paren) == '(' {
        lemma_items_well_formed(s, paren + 1, Seq::empty());
    }
}

/// A node that the grammar gives is well formed.
pub proof fn lemma_node_well_formed(s: Seq<char>, pos: int)
    requires
        0 <= pos <= s.len(),
    ensures
        node(s, pos) matches Ok((found, _)) ==> well_formed(found),
    decreases s.len() - pos, 2nat,
{
    lemma_base_well_formed(s, pos);
}

/// The nodes of a group that the grammar gives are well formed.
pub proof fn lemma_items_well_formed(s: Seq<char>, pos: int, acc: Seq<Node>)
    requires
        0 <= pos <= s.len(),
        forall|i: int| 0 <= i < acc.len() ==> well_formed(#[trigger] acc[i]),
    ensures
        items(s, pos, acc) matches Ok((children, _)) ==> forall|i: int|
            0 <= i < children.len() ==> well_formed(#[trigger] children[i]),
    decreases s.len() - pos, 3nat,
{
    let at = skip_space(s, pos);
    lemma_skip_space_bounds(s, pos);
    if peek_at(s, at) == ')' {
    } else if !(0 <= at < s.len()) {
    } else {
        lemma_node_bounds(s, at);
        lemma_node_well_formed(s, at);
        match node(s, at) {
            Ok((found, next)) => {
                lemma_items_well_formed(s, next, acc.push(found));
            },
            Err(_) => {},
        }
    }
}

/// The nodes of a pattern that the grammar gives are well formed.
pub proof fn lemma_branch_well_formed(s: Seq<char>, pos: int, acc: Seq<Node>)
    requires
        0 <= pos <= s.len(),
        forall|i: int| 0 <= i < acc.len() ==> well_formed(#[trigger] acc[i]),
    ensures
        branch(s, pos, acc) matches Ok(nodes) ==> forall|i: int|
            0 <= i < nodes.len() ==> well_formed(#[trigger] nodes[i]),
    decreases s.len() - pos,
{
    let at = skip_space(s, pos);
    lemma_skip_space_bounds(s, pos);
    if 0 <= at < s.len() {
        lemma_node_bounds(s, at);
        lemma_node_well_formed(s, at);
        match node(s, at) {
            Ok((found, next)) => {
                lemma_branch_well_formed(s, next, acc.push(found));
            },
            Err(_) => {},
        }
    }
}

/// No node of a compiled pattern has the count zero: `*0;` makes a node
/// optional, with the count one.
pub proof fn lemma_compile_well_formed(s: Seq<char>)
    ensures
        compile(s) matches Ok(nodes) ==> forall|i: int|
            0 <= i < nodes.len() ==> well_formed(#[trigger] nodes[i]),
{
    lemma_branch_well_formed(s, 0, Seq::empty());
}

} // verus!
