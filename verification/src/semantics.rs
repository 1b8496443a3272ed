//! What it means for a pattern to match: the bytes that an attempt yields on
//! a stream `s` at an offset `off`.
//!
//! An attempt yields the bytes that it took, each with its mark. An attempt
//! that fails yields nothing, and so does one that takes no byte: the two
//! are told apart only by a node being optional.
use crate::expr::{Node, NodeKind};
use crate::output::ExprOutData;
use vstd::prelude::*;

verus! {

/// A byte that was held against a constraint.
pub open spec fn marked(value: u8) -> ExprOutData {
    ExprOutData { highlight: true, value }
}

/// A byte that a wildcard took.
pub open spec fn unmarked(value: u8) -> ExprOutData {
    ExprOutData { highlight: false, value }
}

/// The bytes of `literal`, all marked.
pub open spec fn marked_all(literal: Seq<u8>) -> Seq<ExprOutData> {
    Seq::new(literal.len(), |i: int| marked(literal[i]))
}

/// Whether the bytes of `literal` stand in `s` at `off`.
pub open spec fn literal_at(s: Seq<u8>, off: int, literal: Seq<u8>) -> bool {
    &&& 0 <= off
    &&& off + literal.len() <= s.len()
    &&& forall|i: int| 0 <= i < literal.len() ==> s[off + i] == literal[i]
}

/// One attempt of a kind, without repetition.
pub open spec fn once(kind: NodeKind, s: Seq<u8>, off: int) -> Seq<ExprOutData>
    decreases kind, 0nat, 0nat,
{
    match kind {
        NodeKind::ByteLiteral { value } => if 0 <= off < s.len() && s[off] == value {
            seq![marked(s[off])]
        } else {
            Seq::empty()
        },
        NodeKind::BitmaskTest { mask } => if 0 <= off < s.len() && s[off] & mask != 0 {
            seq![marked(s[off])]
        } else {
            Seq::empty()
        },
        NodeKind::Negation { inner } => if 0 <= off < s.len() && attempt(*inner, s, off).len()
            == 0 {
            seq![marked(s[off])]
        } else {
            Seq::empty()
        },
        NodeKind::Wildcard => if 0 <= off < s.len() {
            seq![unmarked(s[off])]
        } else {
            Seq::empty()
        },
        NodeKind::Group { children, conjunction } => if conjunction {
            sequence(children, s, off)
        } else {
            first_of(children, 0, s, off)
        },
        NodeKind::ByteString { literal } => if literal_at(s, off, literal) {
            marked_all(literal)
        } else {
            Seq::empty()
        },
        NodeKind::Range { low, high } => if 0 <= off < s.len() && low <= s[off] < high {
            seq![marked(s[off])]
        } else {
            Seq::empty()
        },
    }
}

/// The required repetitions of a kind: `count` attempts, each where the one
/// before it ended. A failed attempt of an optional node takes nothing; a
/// failed attempt of another node makes the whole fail (`None`).
pub open spec fn required(kind: NodeKind, s: Seq<u8>, off: int, count: nat, optional: bool)
    -> Option<Seq<ExprOutData>>
    decreases kind, 1nat, count,
{
    if count == 0 {
        Some(Seq::empty())
    } else {
        let head = once(kind, s, off);
        if head.len() == 0 && !optional {
            None
        } else {
            match required(kind, s, off + head.len(), (count - 1) as nat, optional) {
                Some(tail) => Some(head + tail),
                None => None,
            }
        }
    }
}

/// The greedy repetitions of a kind: attempts for as long as they succeed,
/// each where the one before it ended.
pub open spec fn greedy(kind: NodeKind, s: Seq<u8>, off: int) -> Seq<ExprOutData>
    decreases kind, 1nat, s.len() - off,
{
    let head = once(kind, s, off);
    if head.len() == 0 || off + head.len() > s.len() {
        Seq::empty()
    } else {
        head + greedy(kind, s, off + head.len())
    }
}

/// One attempt of a node: its required repetitions, and after them, for a
/// node with `many`, the greedy ones.
pub open spec fn attempt(node: Node, s: Seq<u8>, off: int) -> Seq<ExprOutData>
    decreases node, 0nat, 0nat,
{
    match required(node.kind, s, off, node.count, node.optional) {
        None => Seq::empty(),
        Some(first) => if node.many {
            first + greedy(node.kind, s, off + first.len())
        } else {
            first
        },
    }
}

/// Whether an attempt of `node` leaves the node satisfied: it took a byte,
/// or the node is optional.
pub open spec fn satisfied(node: Node, s: Seq<u8>, off: int) -> bool {
    attempt(node, s, off).len() > 0 || node.optional
}

/// The children of a conjunction from the one at `from` on, each where the
/// one before it ended; `None` where a child is left unsatisfied.
pub open spec fn all_of(children: Seq<Node>, from: nat, s: Seq<u8>, off: int) -> Option<
    Seq<ExprOutData>,
>
    decreases children, 0nat, children.len() - from,
{
    if from >= children.len() {
        Some(Seq::empty())
    } else {
        let head = attempt(children[from as int], s, off);
        if head.len() == 0 && !children[from as int].optional {
            None
        } else {
            match all_of(children, from + 1, s, off + head.len()) {
                Some(tail) => Some(head + tail),
                None => None,
            }
        }
    }
}

/// A conjunction: all children in sequence, or nothing.
pub open spec fn sequence(children: Seq<Node>, s: Seq<u8>, off: int) -> Seq<ExprOutData>
    decreases children, 1nat, 0nat,
{
    match all_of(children, 0, s, off) {
        Some(all) => all,
        None => Seq::empty(),
    }
}

/// A disjunction from the child at `from` on: the first child, in the order
/// in which they are written, whose attempt takes a byte.
pub open spec fn first_of(children: Seq<Node>, from: nat, s: Seq<u8>, off: int) -> Seq<
    ExprOutData,
>
    decreases children, 0nat, children.len() - from,
{
    if from >= children.len() {
        Seq::empty()
    } else {
        let head = attempt(children[from as int], s, off);
        if head.len() != 0 {
            head
        } else {
            first_of(children, from + 1, s, off)
        }
    }
}

/// An attempt of a whole pattern at the start of `s`.
pub open spec fn match_at(branch: Seq<Node>, s: Seq<u8>) -> Seq<ExprOutData> {
    sequence(branch, s, 0)
}

/// A match that a scan reports: the offset at which it starts, and its
/// bytes.
pub struct Hit {
    pub offset: nat,
    pub bytes: Seq<ExprOutData>,
}

/// The matches of a pattern in `s`, in the order of their offsets, where
/// the first byte of `s` has the offset `start`: one attempt at every byte.
pub open spec fn hits(branch: Seq<Node>, s: Seq<u8>, start: nat) -> Seq<Hit>
    decreases s.len(),
{
    if s.len() == 0 {
        Seq::empty()
    } else {
        let here = match_at(branch, s);
        let rest = hits(branch, s.drop_first(), start + 1);
        if here.len() > 0 {
            seq![Hit { offset: start, bytes: here }] + rest
        } else {
            rest
        }
    }
}

/// Whether `out` holds, byte for byte, what stands in `s` from `off` on. An
/// empty `out` does so anywhere.
pub open spec fn echoes(out: Seq<ExprOutData>, s: Seq<u8>, off: int) -> bool {
    out.len() == 0 || {
        &&& 0 <= off
        &&& off + out.len() <= s.len()
        &&& forall|i: int| 0 <= i < out.len() ==> (#[trigger] out[i]).value == s[off + i]
    }
}

/// What two attempts in a row yield holds what stands in the stream.
pub proof fn lemma_echoes_concat(head: Seq<ExprOutData>, tail: Seq<ExprOutData>, s: Seq<u8>, off: int)
    requires
        echoes(head, s, off),
        echoes(tail, s, off + head.len()),
        tail.len() > 0 ==> 0 <= off,
    ensures
        echoes(head + tail, s, off),
{
    let both = head + tail;
    if both.len() > 0 {
        assert forall|i: int| 0 <= i < both.len() implies (#[trigger] both[i]).value == s[off
            + i] by {
            if i < head.len() {
                assert(both[i] == head[i]);
            } else {
                assert(both[i] == tail[i - head.len()]);
            }
        }
    }
}

/// One attempt of a kind yields bytes of the stream, from the offset of the
/// attempt on, and none from behind the end of the stream.
pub proof fn lemma_once_echoes(kind: NodeKind, s: Seq<u8>, off: int)
    ensures
        echoes(once(kind, s, off), s, off),
    decreases kind, 0nat, 0nat,
{
    match kind {
        NodeKind::Negation { inner } => {},
        NodeKind::Group { children, conjunction } => {
            if conjunction {
                lemma_all_of_echoes(children, 0, s, off);
            } else {
                lemma_first_of_echoes(children, 0, s, off);
            }
        },
        _ => {},
    }
}

/// The required repetitions of a kind yield bytes of the stream.
pub proof fn lemma_required_echoes(
    kind: NodeKind,
    s: Seq<u8>,
    off: int,
    count: nat,
    optional: bool,
)
    ensures
        required(kind, s, off, count, optional) matches Some(out) ==> echoes(out, s, off),
    decreases kind, 1nat, count,
{
    if count > 0 {
        let head = once(kind, s, off);
        lemma_once_echoes(kind, s, off);
        lemma_required_echoes(kind, s, off + head.len(), (count - 1) as nat, optional);
        match required(kind, s, off + head.len(), (count - 1) as nat, optional) {
            Some(tail) => {
                if head.len() == 0 {
                    assert(head + tail =~= tail);
                } else {
                    lemma_echoes_concat(head, tail, s, off);
                }
            },
            None => {},
        }
    }
}

/// The greedy repetitions of a kind yield bytes of the stream.
pub proof fn lemma_greedy_echoes(kind: NodeKind, s: Seq<u8>, off: int)
    ensures
        echoes(greedy(kind, s, off), s, off),
    decreases kind, 1nat, s.len() - off,
{
    let head = once(kind, s, off);
    lemma_once_echoes(kind, s, off);
    if !(head.len() == 0 || off + head.len() > s.len()) {
        lemma_greedy_echoes(kind, s, off + head.len());
        lemma_echoes_concat(head, greedy(kind, s, off + head.len()), s, off);
    }
}

/// An attempt of a node yields bytes of the stream: the values that it
/// reports are those that stand at the offsets that it took.
pub proof fn lemma_attempt_echoes(node: Node, s: Seq<u8>, off: int)
    ensures
        echoes(attempt(node, s, off), s, off),
    decreases node, 0nat, 0nat,
{
    lemma_required_echoes(node.kind, s, off, node.count, node.optional);
    match required(node.kind, s, off, node.count, node.optional) {
        Some(first) => {
            if node.many {
                let more = greedy(node.kind, s, off + first.len());
                lemma_greedy_echoes(node.kind, s, off + first.len());
                if first.len() == 0 {
                    assert(first + more =~= more);
                } else {
                    lemma_echoes_concat(first, more, s, off);
                }
            }
        },
        None => {},
    }
}

/// The children of a conjunction yield bytes of the stream.
pub proof fn lemma_all_of_echoes(children: Seq<Node>, from: nat, s: Seq<u8>, off: int)
    ensures
        all_of(children, from, s, off) matches Some(out) ==> echoes(out, s, off),
    decreases children, 0nat, children.len() - from,
{
    if from < children.len() {
        let head = attempt(children[from as int], s, off);
        lemma_attempt_echoes(children[from as int], s, off);
        lemma_all_of_echoes(children, from + 1, s, off + head.len());
        match all_of(children, from + 1, s, off + head.len()) {
            Some(tail) => {
                if head.len() == 0 {
                    assert(head + tail =~= tail);
                } else {
                    lemma_echoes_concat(head, tail, s, off);
                }
            },
            None => {},
        }
    }
}

/// The first child of a disjunction that matches yields bytes of the stream.
pub proof fn lemma_first_of_echoes(children: Seq<Node>, from: nat, s: Seq<u8>, off: int)
    ensures
        echoes(first_of(children, from, s, off), s, off),
    decreases children, 0nat, children.len() - from,
{
    if from < children.len() {
        lemma_attempt_echoes(children[from as int], s, off);
        lemma_first_of_echoes(children, from + 1, s, off);
    }
}

/// A match of a whole pattern holds the first bytes of the stream, each with
/// its mark: it is never longer than the stream.
pub proof fn lemma_match_echoes(branch: Seq<Node>, s: Seq<u8>)
    ensures
        echoes(match_at(branch, s), s, 0),
        match_at(branch, s).len() <= s.len(),
{
    lemma_all_of_echoes(branch, 0, s, 0);
}

/// A disjunction yields what the first child that matches yields, and
/// nothing where no child matches.
pub proof fn lemma_first_of_finds(children: Seq<Node>, from: nat, s: Seq<u8>, off: int)
    ensures
        first_of(children, from, s, off).len() > 0 <==> exists|i: int|
            from <= i < children.len() && (#[trigger] attempt(children[i], s, off)).len() > 0,
        forall|i: int|
            from <= i < children.len() && (#[trigger] attempt(children[i], s, off)).len() > 0 && (
            forall|j: int| from <= j < i ==> (#[trigger] attempt(children[j], s, off)).len() == 0)
                ==> first_of(children, from, s, off) == attempt(children[i], s, off),
    decreases children.len() - from,
{
    if from < children.len() {
        lemma_first_of_finds(children, from + 1, s, off);
        let head = attempt(children[from as int], s, off);
        if head.len() == 0 {
            assert forall|i: int|
                from <= i < children.len() && (#[trigger] attempt(children[i], s, off)).len() > 0
                    && (forall|j: int|
                    from <= j < i ==> (#[trigger] attempt(children[j], s, off)).len() == 0)
                    implies first_of(children, from, s, off) == attempt(children[i], s, off) by {
                assert(i != from);
            }
        } else {
            assert forall|i: int|
                from <= i < children.len() && (#[trigger] attempt(children[i], s, off)).len() > 0
                    && (forall|j: int|
                    from <= j < i ==> (#[trigger] attempt(children[j], s, off)).len() == 0)
                    implies first_of(children, from, s, off) == attempt(children[i], s, off) by {
                if i != from {
                    assert(attempt(children[from as int], s, off).len() == 0);
                }
            }
        }
    }
}

/// The disjunction of `children`.
pub open spec fn any_of(children: Seq<Node>) -> NodeKind {
    NodeKind::Group { children, conjunction: false }
}

/// The conjunction of `children`.
pub open spec fn each_of(children: Seq<Node>) -> NodeKind {
    NodeKind::Group { children, conjunction: true }
}

/// Whether a disjunction matches does not depend on the order of its
/// alternatives: it matches where one of them does.
pub proof fn lemma_disjunction_any_order(
    children: Seq<Node>,
    i: int,
    j: int,
    s: Seq<u8>,
    off: int,
)
    requires
        0 <= i < children.len(),
        0 <= j < children.len(),
    ensures
        once(any_of(children), s, off).len() > 0 <==> once(
            any_of(children.update(i, children[j]).update(j, children[i])),
            s,
            off,
        ).len() > 0,
{
    let swapped = children.update(i, children[j]).update(j, children[i]);
    lemma_first_of_finds(children, 0, s, off);
    lemma_first_of_finds(swapped, 0, s, off);
    if first_of(children, 0, s, off).len() > 0 {
        let k = choose|k: int|
            0 <= k < children.len() && (#[trigger] attempt(children[k], s, off)).len() > 0;
        let to = if k == i {
            j
        } else if k == j {
            i
        } else {
            k
        };
        assert(swapped[to] == children[k]);
        assert(attempt(swapped[to], s, off).len() > 0);
    }
    if first_of(swapped, 0, s, off).len() > 0 {
        let k = choose|k: int|
            0 <= k < swapped.len() && (#[trigger] attempt(swapped[k], s, off)).len() > 0;
        let to = if k == i {
            j
        } else if k == j {
            i
        } else {
            k
        };
        assert(children[to] == swapped[k]);
        assert(attempt(children[to], s, off).len() > 0);
    }
}

/// Where two alternatives both match, the disjunction of the two matches in
/// either order, and yields what the alternative that is written first
/// yields: the order decides the bytes and their marks, not whether there is
/// a match.
pub proof fn lemma_disjunction_first_wins(a: Node, b: Node, s: Seq<u8>, off: int)
    requires
        attempt(a, s, off).len() > 0,
        attempt(b, s, off).len() > 0,
    ensures
        once(any_of(seq![a, b]), s, off) == attempt(a, s, off),
        once(any_of(seq![b, a]), s, off) == attempt(b, s, off),
{
    assert(seq![a, b][0] == a);
    assert(seq![b, a][0] == b);
}

/// A node that has to match once, with no modifier.
pub open spec fn plain_node(kind: NodeKind) -> Node {
    Node { kind, count: 1, many: false, optional: false }
}

/// A node that may match once or not at all: what `*0;` makes of a node.
pub open spec fn optional_node(kind: NodeKind) -> Node {
    Node { kind, count: 1, many: false, optional: true }
}

/// Where a kind fails, a node of it without a modifier fails, and a
/// conjunction fails with it. The optional node of the same kind is
/// satisfied, though it takes no byte, and a conjunction goes on behind it.
pub proof fn lemma_optional_is_no_failure(
    kind: NodeKind,
    rest: Seq<Node>,
    s: Seq<u8>,
    off: int,
)
    requires
        once(kind, s, off).len() == 0,
    ensures
        attempt(plain_node(kind), s, off).len() == 0,
        !satisfied(plain_node(kind), s, off),
        all_of(seq![plain_node(kind)] + rest, 0, s, off) is None,
        once(each_of(seq![plain_node(kind)] + rest), s, off).len() == 0,
        attempt(optional_node(kind), s, off).len() == 0,
        satisfied(optional_node(kind), s, off),
        all_of(seq![optional_node(kind)] + rest, 0, s, off) == all_of(rest, 0, s, off),
        once(each_of(seq![optional_node(kind)] + rest), s, off) == once(each_of(rest), s, off),
{
    let head = once(kind, s, off);
    assert(required(kind, s, off, 1, false) is None);
    assert(required(kind, s, off + head.len(), 0, true) == Some(Seq::<ExprOutData>::empty()));
    assert(head + Seq::<ExprOutData>::empty() =~= Seq::<ExprOutData>::empty());
    assert(required(kind, s, off, 1, true) == Some(Seq::<ExprOutData>::empty()));
    let hard = seq![plain_node(kind)] + rest;
    assert(hard[0] == plain_node(kind));
    let soft = seq![optional_node(kind)] + rest;
    assert(soft[0] == optional_node(kind));
    lemma_all_of_shift(seq![optional_node(kind)], rest, 0, s, off);
    let none = attempt(optional_node(kind), s, off);
    assert(none =~= Seq::<ExprOutData>::empty());
    assert(all_of(soft, 1, s, off + none.len()) == all_of(rest, 0, s, off));
    match all_of(rest, 0, s, off) {
        Some(tail) => {
            assert(none + tail =~= tail);
        },
        None => {},
    }
    assert(all_of(soft, 0, s, off) == all_of(rest, 0, s, off));
}

/// The children of a conjunction behind the first ones match as they do on
/// their own.
pub proof fn lemma_all_of_shift(
    front: Seq<Node>,
    rest: Seq<Node>,
    from: nat,
    s: Seq<u8>,
    off: int,
)
    ensures
        all_of(front + rest, front.len() + from, s, off) == all_of(rest, from, s, off),
    decreases rest.len() - from,
{
    let whole = front + rest;
    if from < rest.len() {
        assert(whole[(front.len() + from) as int] == rest[from as int]);
        let head = attempt(rest[from as int], s, off);
        lemma_all_of_shift(front, rest, from + 1, s, off + head.len());
    }
}

} // verus!
