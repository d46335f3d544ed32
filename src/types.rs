use vstd::prelude::*;

verus! {

/// The type tag of a runtime value. Numbers and coordinates carry the power
/// of length of their unit: 0 is dimensionless, 1 is a length.
#[derive(Clone, Copy, Debug, PartialEq, Eq, Structural)]
pub enum ValType {
    Num(i32),
    Coord(i32),
    Color,
    Str,
    Frame,
}

} // verus!
