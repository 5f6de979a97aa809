//! Inline small vectors used by the IR (`smallvec::SmallVec`), each held in a
//! type of this crate, with their contents named as sequences.
use vstd::prelude::*;
use smallvec::SmallVec;
use crate::ir::{BlockId, VReg};

verus! {

/// The `(predecessor, value)` inputs of a `phi` instruction.
#[verifier::external_body]
#[derive(Debug)]
pub struct PhiInputs(SmallVec<[(BlockId, VReg); 2]>);

/// The values read by an instruction.
#[verifier::external_body]
#[derive(Debug)]
pub struct UseValues(SmallVec<[VReg; 4]>);

/// The values read by a terminator.
#[verifier::external_body]
#[derive(Debug)]
pub struct TermValues(SmallVec<[VReg; 2]>);

/// The successor blocks of a terminator.
#[verifier::external_body]
#[derive(Debug)]
pub struct Successors(SmallVec<[BlockId; 2]>);

/// What a `PhiInputs` holds, in order.
pub uninterp spec fn phi_input_items(p: PhiInputs) -> Seq<(BlockId, VReg)>;

/// What a `UseValues` holds, in order.
pub uninterp spec fn use_value_items(p: UseValues) -> Seq<VReg>;

/// What a `TermValues` holds, in order.
pub uninterp spec fn term_value_items(p: TermValues) -> Seq<VReg>;

/// What a `Successors` holds, in order.
pub uninterp spec fn successor_items(p: Successors) -> Seq<BlockId>;

impl PhiInputs {
    /// `SmallVec::from_vec`: the small vector holds the vector's items in order.
    #[verifier::external_body]
    fn wrap_vec(v: Vec<(BlockId, VReg)>) -> (r: PhiInputs)
        ensures
            phi_input_items(r) == v@,
    {
        PhiInputs(SmallVec::from_vec(v))
    }

    /// A small vector of the vector's items, in order.
    pub fn from_vec(v: Vec<(BlockId, VReg)>) -> (r: PhiInputs)
        ensures
            phi_input_items(r) == v@,
    {
        Self::wrap_vec(v)
    }

    /// `SmallVec::to_vec`: a vector of the items in order.
    #[verifier::external_body]
    fn items_vec(&self) -> (r: Vec<(BlockId, VReg)>)
        ensures
            r@ == phi_input_items(*self),
    {
        self.0.to_vec()
    }

    /// The items, in order.
    pub fn to_vec(&self) -> (r: Vec<(BlockId, VReg)>)
        ensures
            r@ == phi_input_items(*self),
    {
        self.items_vec()
    }
}

impl Clone for PhiInputs {
    /// `SmallVec::clone`: the copy holds the same items in the same order.
    #[verifier::external_body]
    fn clone(&self) -> (r: Self)
        ensures
            phi_input_items(r) == phi_input_items(*self),
    {
        PhiInputs(self.0.clone())
    }
}

impl UseValues {
    /// `SmallVec::from_vec`: the small vector holds the vector's items in order.
    #[verifier::external_body]
    fn wrap_vec(v: Vec<VReg>) -> (r: UseValues)
        ensures
            use_value_items(r) == v@,
    {
        UseValues(SmallVec::from_vec(v))
    }

    /// A small vector of the vector's items, in order.
    pub fn from_vec(v: Vec<VReg>) -> (r: UseValues)
        ensures
            use_value_items(r) == v@,
    {
        Self::wrap_vec(v)
    }

    /// `SmallVec::to_vec`: a vector of the items in order.
    #[verifier::external_body]
    fn items_vec(&self) -> (r: Vec<VReg>)
        ensures
            r@ == use_value_items(*self),
    {
        self.0.to_vec()
    }

    /// The items, in order.
    pub fn to_vec(&self) -> (r: Vec<VReg>)
        ensures
            r@ == use_value_items(*self),
    {
        self.items_vec()
    }
}

impl TermValues {
    /// `SmallVec::from_vec`: the small vector holds the vector's items in order.
    #[verifier::external_body]
    fn wrap_vec(v: Vec<VReg>) -> (r: TermValues)
        ensures
            term_value_items(r) == v@,
    {
        TermValues(SmallVec::from_vec(v))
    }

    /// A small vector of the vector's items, in order.
    pub fn from_vec(v: Vec<VReg>) -> (r: TermValues)
        ensures
            term_value_items(r) == v@,
    {
        Self::wrap_vec(v)
    }

    /// `SmallVec::to_vec`: a vector of the items in order.
    #[verifier::external_body]
    fn items_vec(&self) -> (r: Vec<VReg>)
        ensures
            r@ == term_value_items(*self),
    {
        self.0.to_vec()
    }

    /// The items, in order.
    pub fn to_vec(&self) -> (r: Vec<VReg>)
        ensures
            r@ == term_value_items(*self),
    {
        self.items_vec()
    }
}

impl Successors {
    /// `SmallVec::from_vec`: the small vector holds the vector's items in order.
    #[verifier::external_body]
    fn wrap_vec(v: Vec<BlockId>) -> (r: Successors)
        ensures
            successor_items(r) == v@,
    {
        Successors(SmallVec::from_vec(v))
    }

    /// A small vector of the vector's items, in order.
    pub fn from_vec(v: Vec<BlockId>) -> (r: Successors)
        ensures
            successor_items(r) == v@,
    {
        Self::wrap_vec(v)
    }

    /// `SmallVec::to_vec`: a vector of the items in order.
    #[verifier::external_body]
    fn items_vec(&self) -> (r: Vec<BlockId>)
        ensures
            r@ == successor_items(*self),
    {
        self.0.to_vec()
    }

    /// The items, in order.
    pub fn to_vec(&self) -> (r: Vec<BlockId>)
        ensures
            r@ == successor_items(*self),
    {
        self.items_vec()
    }
}

} // verus!
