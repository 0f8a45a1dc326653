use vstd::prelude::*;

verus! {

/// What a multicast payload carries.
#[derive(Clone, Copy, Debug, PartialEq, Eq, Structural)]
pub enum MulticastInfoType {
    Block,
    Miscellaneous,
}

} // verus!
