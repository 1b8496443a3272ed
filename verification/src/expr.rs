use vstd::prelude::*;

pub mod compile;
pub mod matcher;

verus! {

/// What a node of a pattern matches, as a mathematical value.
pub enum NodeKind {
    /// One byte equal to `value`.
    ByteLiteral { value: u8 },
    /// One byte that has a bit in common with `mask`.
    BitmaskTest { mask: u8 },
    /// One byte at a position where `inner` does not match.
    Negation { inner: Box<Node> },
    /// Any one byte.
    Wildcard,
    /// All of `children` in sequence, or the first of them that matches.
    Group { children: Seq<Node>, conjunction: bool },
    /// The bytes of `literal`, one after the other.
    ByteString { literal: Seq<u8> },
    /// One byte from `low` up to, but not including, `high`.
    Range { low: u8, high: u8 },
}

/// A node of a pattern, as a mathematical value: what it matches, how many
/// times it has to match (`count`), whether it may go on matching after that
/// (`many`), and whether it may fail to match (`optional`).
pub struct Node {
    pub kind: NodeKind,
    pub count: nat,
    pub many: bool,
    pub optional: bool,
}

pub enum ExprKind {
    /// a single byte value
    Byte { value: u8 },
    /// a byte with a bit of the mask set
    And { value: u8 },
    /// a byte where the expression does not match
    Not { expr: Box<Expr> },
    /// any byte
    Any,
    /// a group: all of the nodes in sequence (`and`), or the first that matches
    Group { nodes: Vec<Expr>, and: bool },
    /// the bytes of a string
    String { value: String },
    /// a byte in the range `from..to`
    Range { from: u8, to: u8 },
}

pub struct Expr {
    kind: ExprKind,
    mul: u32,
    // match until no more matches are found
    many: bool,
    // this will not cause a failure, even if it does not match
    optional: bool,
}

/// A compiled pattern: its top-level nodes, which have to match in sequence.
pub type ExprBranch = Vec<Expr>;

/// What an expression stands for.
pub closed spec fn node_of(e: Expr) -> Node
    decreases e, 1nat,
{
    Node { kind: kind_of(e.kind), count: e.mul as nat, many: e.many, optional: e.optional }
}

/// What the kind of an expression stands for.
pub open spec fn kind_of(k: ExprKind) -> NodeKind
    decreases k, 0nat,
{
    match k {
        ExprKind::Byte { value } => NodeKind::ByteLiteral { value },
        ExprKind::And { value } => NodeKind::BitmaskTest { mask: value },
        ExprKind::Not { expr } => NodeKind::Negation { inner: Box::new(node_of(*expr)) },
        ExprKind::Any => NodeKind::Wildcard,
        ExprKind::Group { nodes, and } => NodeKind::Group {
            children: Seq::new(
                nodes@.len(),
                |i: int|
                    if 0 <= i < nodes@.len() {
                        node_of(nodes@[i])
                    } else {
                        arbitrary()
                    },
            ),
            conjunction: and,
        },
        ExprKind::String { value } => NodeKind::ByteString {
            literal: vstd::utf8::encode_utf8(value@),
        },
        ExprKind::Range { from, to } => NodeKind::Range { low: from, high: to },
    }
}

/// What a sequence of expressions stands for, node by node.
pub open spec fn nodes_of(exprs: Seq<Expr>) -> Seq<Node> {
    Seq::new(exprs.len(), |i: int| node_of(exprs[i]))
}

impl View for ExprKind {
    type V = NodeKind;

    open spec fn view(&self) -> NodeKind {
        kind_of(*self)
    }
}

impl View for Expr {
    type V = Node;

    open spec fn view(&self) -> Node {
        node_of(*self)
    }
}

/// The children of a group are what its expressions stand for.
pub proof fn lemma_group_children(nodes: Vec<Expr>, and: bool)
    ensures
        kind_of(ExprKind::Group { nodes, and }) == (NodeKind::Group {
            children: nodes_of(nodes@),
            conjunction: and,
        }),
{
    assert(kind_of(ExprKind::Group { nodes, and })->children =~= nodes_of(nodes@));
}

/// The greatest number of bytes that one match of `kind` can take, not
/// counting what `many` adds.
pub open spec fn kind_len(kind: NodeKind) -> nat
    decreases kind, 0nat,
{
    match kind {
        NodeKind::Group { children, conjunction } => if conjunction {
            sum_len(children, children.len())
        } else {
            max_len(children, children.len())
        },
        NodeKind::ByteString { literal } => literal.len(),
        _ => 1,
    }
}

/// The greatest number of bytes that the required repetitions of `node` can
/// take.
pub open spec fn node_len(node: Node) -> nat
    decreases node, 1nat,
{
    kind_len(node.kind) * node.count
}

/// The sum of the lengths of the first `upto` of `children`.
pub open spec fn sum_len(children: Seq<Node>, upto: nat) -> nat
    decreases children, upto,
{
    if 0 < upto <= children.len() {
        sum_len(children, (upto - 1) as nat) + node_len(children[upto - 1])
    } else {
        0
    }
}

/// The greatest of the lengths of the first `upto` of `children`.
pub open spec fn max_len(children: Seq<Node>, upto: nat) -> nat
    decreases children, upto,
{
    if 0 < upto <= children.len() {
        let before = max_len(children, (upto - 1) as nat);
        let last = node_len(children[upto - 1]);
        if before >= last {
            before
        } else {
            last
        }
    } else {
        0
    }
}

impl ExprKind {
    /// The greatest number of bytes that one match of this kind can take.
    pub fn len(&self) -> (n: usize)
        requires
            kind_len(self@) <= usize::MAX,
        ensures
            n == kind_len(self@),
        decreases self, 0nat,
    {
        match self {
            ExprKind::Group { nodes, and } => {
                proof {
                    lemma_group_children(*nodes, *and);
                }
                let ghost children = nodes_of(nodes@);
                let mut total: usize = 0;
                let mut i: usize = 0;
                while i < nodes.len()
                    invariant
                        i <= nodes.len(),
                        children == nodes_of(nodes@),
                        kind_len(self@) == if *and {
                            sum_len(children, children.len())
                        } else {
                            max_len(children, children.len())
                        },
                        kind_len(self@) <= usize::MAX,
                        *self == (ExprKind::Group { nodes: *nodes, and: *and }),
                        total == if *and {
                            sum_len(children, i as nat)
                        } else {
                            max_len(children, i as nat)
                        },
                    decreases nodes.len() - i,
                {
                    proof {
                        lemma_len_grows(children, (i + 1) as nat, children.len());
                    }
                    let one = nodes[i].len();
                    if *and {
                        total = total + one;
                    } else if one > total {
                        total = one;
                    }
                    i += 1;
                }
                total
            },
            ExprKind::String { value } => value.as_str().len(),
            _ => Expr::single_len(),
        }
    }

    pub fn is_empty(&self) -> (b: bool)
        requires
            kind_len(self@) <= usize::MAX,
        ensures
            b == (kind_len(self@) == 0),
    {
        self.len() == 0
    }
}

/// The lengths of the children add up, and the greatest only grows: what
/// holds for all children bounds what holds for the first of them.
pub proof fn lemma_len_grows(children: Seq<Node>, upto: nat, all: nat)
    requires
        upto <= all <= children.len(),
    ensures
        sum_len(children, upto) <= sum_len(children, all),
        max_len(children, upto) <= max_len(children, all),
        0 < upto ==> node_len(children[upto - 1]) <= sum_len(children, upto),
        0 < upto ==> node_len(children[upto - 1]) <= max_len(children, upto),
    decreases all - upto,
{
    if upto < all {
        lemma_len_grows(children, upto, (all - 1) as nat);
    }
}

impl Expr {
    /// A node of the given kind that has to match `mul` times.
    pub fn new(kind: ExprKind, mul: u32) -> (e: Self)
        ensures
            e@ == (Node { kind: kind@, count: mul as nat, many: false, optional: false }),
    {
        Self { kind, mul, many: false, optional: false }
    }

    /// The number of bytes that a node other than a string or a group takes.
    pub fn single_len() -> (n: usize)
        ensures
            n == 1,
    {
        1
    }

    /// The greatest number of bytes that the required repetitions of this
    /// node can take.
    pub fn len(&self) -> (n: usize)
        requires
            node_len(self@) <= usize::MAX,
        ensures
            n == node_len(self@),
        decreases self, 1nat,
    {
        proof {
            lemma_factor_fits(kind_len(self.kind@), self.mul as nat);
        }
        if self.mul == 0 {
            0
        } else {
            let one = self.kind.len();
            assert(one * self.mul == kind_len(self.kind@) * (self.mul as nat));
            one * (self.mul as usize)
        }
    }

    pub fn is_empty(&self) -> (b: bool)
        requires
            node_len(self@) <= usize::MAX,
        ensures
            b == (node_len(self@) == 0),
    {
        self.len() == 0
    }

    /// What this node matches.
    pub fn kind(&self) -> (kind: &ExprKind)
        ensures
            kind@ == self@.kind,
    {
        &self.kind
    }

    /// How many times this node has to match.
    pub fn mul(&self) -> (count: u32)
        ensures
            count == self@.count,
    {
        self.mul
    }

    /// Whether this node goes on matching for as long as it can.
    pub fn many(&self) -> (many: bool)
        ensures
            many == self@.many,
    {
        self.many
    }

    /// Whether this node may fail to match.
    pub fn optional(&self) -> (optional: bool)
        ensures
            optional == self@.optional,
    {
        self.optional
    }
}

/// A product that fits has a factor that fits, unless the other is zero.
pub proof fn lemma_factor_fits(a: nat, b: nat)
    ensures
        b > 0 ==> a <= a * b,
        b == 0 ==> a * b == 0,
{
    if b > 0 {
        assert(a <= a * b) by (nonlinear_arith)
            requires
                b >= 1,
                a >= 0,
        ;
    }
}

impl Expr {
    /// A copy of this expression.
    fn copy(&self) -> (copy: Expr)
        ensures
            copy@ == self@,
        decreases self, 1nat,
    {
        Expr { kind: self.kind.copy(), mul: self.mul, many: self.many, optional: self.optional }
    }
}

impl ExprKind {
    /// A copy of this kind.
    fn copy(&self) -> (copy: ExprKind)
        ensures
            copy@ == self@,
        decreases self, 0nat,
    {
        match self {
            ExprKind::Byte { value } => ExprKind::Byte { value: *value },
            ExprKind::And { value } => ExprKind::And { value: *value },
            ExprKind::Not { expr } => ExprKind::Not { expr: Box::new(expr.copy()) },
            ExprKind::Any => ExprKind::Any,
            ExprKind::Group { nodes, and } => {
                let mut copies: Vec<Expr> = Vec::new();
                let mut i: usize = 0;
                while i < nodes.len()
                    invariant
                        i <= nodes.len(),
                        copies@.len() == i,
                        *self == (ExprKind::Group { nodes: *nodes, and: *and }),
                        forall|j: int| 0 <= j < i ==> (#[trigger] copies@[j])@ == nodes@[j]@,
                    decreases nodes.len() - i,
                {
                    assert(self->nodes == *nodes);
                    let copy = nodes[i].copy();
                    copies.push(copy);
                    i += 1;
                }
                proof {
                    lemma_group_children(*nodes, *and);
                    lemma_group_children(copies, *and);
                    assert(nodes_of(copies@) =~= nodes_of(nodes@));
                }
                ExprKind::Group { nodes: copies, and: *and }
            },
            ExprKind::String { value } => ExprKind::String { value: value.clone() },
            ExprKind::Range { from, to } => ExprKind::Range { from: *from, to: *to },
        }
    }
}

impl Clone for Expr {
    fn clone(&self) -> (copy: Self)
        ensures
            copy@ == self@,
    {
        self.copy()
    }
}

impl Clone for ExprKind {
    fn clone(&self) -> (copy: Self)
        ensures
            copy@ == self@,
    {
        self.copy()
    }
}

} // verus!
