use vstd::prelude::*;

verus! {

/// One byte of a match, with a mark that tells whether it was held against
/// a constraint (`highlight`) or taken by a wildcard.
#[derive(Clone, Copy, Default, Debug, PartialEq, Eq, Structural)]
pub struct ExprOutData {
    pub highlight: bool,
    pub value: u8,
}

impl ExprOutData {
    pub fn new(value: u8, highlight: bool) -> (out: Self)
        ensures
            out.value == value,
            out.highlight == highlight,
    {
        Self { highlight, value }
    }
}

/// Where the matcher writes the bytes of a match.
pub trait MatchOutput: Clone + Default {
    /// The bytes written so far, in order.
    spec fn view(&self) -> Seq<ExprOutData>;

    /// An output that `default` makes holds nothing.
    proof fn default_is_empty(fresh: Self)
        requires
            call_ensures(Self::default, (), fresh),
        ensures
            fresh.view().len() == 0,
    ;

    /// A copy that `clone` makes holds what the output holds.
    proof fn clone_is_same(&self, copy: Self)
        requires
            call_ensures(Self::clone, (self,), copy),
        ensures
            copy.view() == self.view(),
    ;

    /// add new byte to output
    fn push(&mut self, out: ExprOutData)
        ensures
            final(self).view() == old(self).view().push(out),
    ;

    /// how many bytes were already written
    fn len(&self) -> (n: usize)
        ensures
            n == self.view().len(),
    ;

    fn is_empty(&self) -> (b: bool)
        ensures
            b == (self.view().len() == 0),
    ;

    fn as_slice(&self) -> (s: &[ExprOutData])
        ensures
            s@ == self.view(),
    ;
}

/// The bytes of a match, held in memory.
pub struct ExprOutput {
    data: Vec<ExprOutData>,
}

impl Default for ExprOutput {
    fn default() -> (out: Self)
        ensures
            out@.len() == 0,
    {
        ExprOutput { data: Vec::new() }
    }
}

impl Clone for ExprOutput {
    fn clone(&self) -> (copy: Self)
        ensures
            copy@ == self@,
    {
        ExprOutput { data: self.data.clone() }
    }
}

impl MatchOutput for ExprOutput {
    closed spec fn view(&self) -> Seq<ExprOutData> {
        self.data@
    }

    proof fn default_is_empty(fresh: Self) {
    }

    proof fn clone_is_same(&self, copy: Self) {
    }

    fn push(&mut self, out: ExprOutData) {
        self.data.push(out);
    }

    fn len(&self) -> (n: usize) {
        self.data.len()
    }

    fn as_slice(&self) -> (s: &[ExprOutData]) {
        self.data.as_slice()
    }

    fn is_empty(&self) -> (b: bool) {
        self.data.len() == 0
    }
}

} // verus!
