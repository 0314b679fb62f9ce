use vstd::prelude::*;

verus! {

/// The index of a rule.
#[derive(Clone, Copy, Debug, PartialEq, Eq, Structural, Hash)]
pub struct RIdx(pub u32);

/// The index of a production.
#[derive(Clone, Copy, Debug, PartialEq, Eq, Structural, Hash)]
pub struct PIdx(pub u32);

/// The index of a symbol position within a production.
#[derive(Clone, Copy, Debug, PartialEq, Eq, Structural, Hash)]
pub struct SIdx(pub u32);

/// The index of a token.
#[derive(Clone, Copy, Debug, PartialEq, Eq, Structural, Hash)]
pub struct TIdx(pub u32);

/// A symbol of a production: a reference to a rule or to a token.
#[derive(Clone, Copy, Debug, PartialEq, Eq, Structural, Hash)]
pub enum Symbol {
    Rule(RIdx),
    Token(TIdx),
}

impl From<RIdx> for usize {
    fn from(i: RIdx) -> (r: usize) {
        i.0 as usize
    }
}

impl vstd::std_specs::convert::FromSpecImpl<RIdx> for usize {
    open spec fn obeys_from_spec() -> bool {
        true
    }

    open spec fn from_spec(i: RIdx) -> usize {
        i.0 as usize
    }
}

impl From<PIdx> for usize {
    fn from(i: PIdx) -> (r: usize) {
        i.0 as usize
    }
}

impl vstd::std_specs::convert::FromSpecImpl<PIdx> for usize {
    open spec fn obeys_from_spec() -> bool {
        true
    }

    open spec fn from_spec(i: PIdx) -> usize {
        i.0 as usize
    }
}

impl From<SIdx> for usize {
    fn from(i: SIdx) -> (r: usize) {
        i.0 as usize
    }
}

impl vstd::std_specs::convert::FromSpecImpl<SIdx> for usize {
    open spec fn obeys_from_spec() -> bool {
        true
    }

    open spec fn from_spec(i: SIdx) -> usize {
        i.0 as usize
    }
}

impl From<TIdx> for usize {
    fn from(i: TIdx) -> (r: usize) {
        i.0 as usize
    }
}

impl vstd::std_specs::convert::FromSpecImpl<TIdx> for usize {
    open spec fn obeys_from_spec() -> bool {
        true
    }

    open spec fn from_spec(i: TIdx) -> usize {
        i.0 as usize
    }
}

} // verus!
