//! Names of the tensors that take part in a contraction.

use vstd::prelude::*;
use vstd::string::*;
use crate::text::{decimal, push_decimal};

verus! {

/// Which tensor a subscript belongs to.
#[derive(Debug, PartialEq, Eq, PartialOrd, Ord, Hash, Clone, Copy, Structural)]
pub enum Position {
    /// The tensor that the user passed as the N-th argument.
    Arg(usize),
    /// The tensor that the N-th issued intermediate identifier names.
    Out(usize),
}

impl Position {
    /// The identifier of the tensor: `arg` or `out`, then the number.
    pub open spec fn name(self) -> Seq<char> {
        match self {
            Position::Arg(n) => "arg"@ + decimal(n as nat),
            Position::Out(n) => "out"@ + decimal(n as nat),
        }
    }

    /// Appends the identifier of the tensor to `out`.
    pub fn push_name(&self, out: &mut String)
        ensures
            final(out)@ == old(out)@ + self.name(),
    {
        match self {
            Position::Arg(n) => {
                out.append("arg");
                push_decimal(out, *n);
            },
            Position::Out(n) => {
                out.append("out");
                push_decimal(out, *n);
            },
        }
    }

    /// The identifier of the tensor.
    pub fn to_string(&self) -> (text: String)
        ensures
            text@ == self.name(),
    {
        let mut out = String::new();
        self.push_name(&mut out);
        out
    }
}

/// A counter that issues the identifiers `out0`, `out1`, ... of
/// intermediate tensors.
#[derive(Debug, PartialEq, Eq)]
pub struct Namespace {
    last: usize,
}

impl Clone for Namespace {
    /// A counter of its own that stands where this one stands.
    fn clone(&self) -> (names: Self)
        ensures
            names == *self,
    {
        Namespace { last: self.last }
    }
}

impl Namespace {
    /// How many identifiers have been issued so far.
    pub closed spec fn issued(&self) -> nat {
        self.last as nat
    }

    /// A namespace that has issued nothing yet.
    pub fn init() -> (names: Self)
        ensures
            names.issued() == 0,
    {
        Namespace { last: 0 }
    }

    /// Issues the next identifier.
    pub fn new_ident(&mut self) -> (pos: Position)
        requires
            old(self).issued() < usize::MAX,
        ensures
            pos == Position::Out(old(self).issued() as usize),
            final(self).issued() == old(self).issued() + 1,
    {
        let pos = Position::Out(self.last);
        self.last = self.last + 1;
        pos
    }
}

} // verus!
