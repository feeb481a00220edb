use vstd::prelude::*;
use vstd::string::StringExecFns;

use crate::text::{decimal_spec, decimal_text, signed_decimal_spec, signed_text};

verus! {

/// A cell position: three unsigned coordinates.
#[derive(Clone, Copy, Debug, PartialEq, Eq, Structural, Hash)]
pub struct UVec3 {
    pub x: u32,
    pub y: u32,
    pub z: u32,
}

impl UVec3 {
    pub fn new(x: u32, y: u32, z: u32) -> (r: Self)
        ensures
            r == (UVec3 { x, y, z }),
    {
        UVec3 { x, y, z }
    }

    /// The debug notation of the position, such as `UVec3(1, 2, 0)`.
    pub fn debug_text(self) -> (r: String)
        ensures
            r@ == "UVec3("@ + decimal_spec(self.x as nat) + ", "@ + decimal_spec(self.y as nat) + ", "@
                + decimal_spec(self.z as nat) + ")"@,
    {
        let mut s = "UVec3(".to_owned();
        let x = decimal_text(self.x as u64);
        s.append(x.as_str());
        s.append(", ");
        let y = decimal_text(self.y as u64);
        s.append(y.as_str());
        s.append(", ");
        let z = decimal_text(self.z as u64);
        s.append(z.as_str());
        s.append(")");
        s
    }
}

/// A signed offset or coordinate triple.
#[derive(Clone, Copy, Debug, PartialEq, Eq, Structural, Hash)]
pub struct IVec3 {
    pub x: i32,
    pub y: i32,
    pub z: i32,
}

impl IVec3 {
    pub fn new(x: i32, y: i32, z: i32) -> (r: Self)
        ensures
            r == (IVec3 { x, y, z }),
    {
        IVec3 { x, y, z }
    }
}

/// A signed pair, used for overlap-window origins.
#[derive(Clone, Copy, Debug, PartialEq, Eq, Structural, Hash)]
pub struct IVec2 {
    pub x: i32,
    pub y: i32,
}

impl IVec2 {
    pub fn new(x: i32, y: i32) -> (r: Self)
        ensures
            r == (IVec2 { x, y }),
    {
        IVec2 { x, y }
    }

    /// The debug notation of the pair, such as `IVec2(-1, 2)`.
    pub fn debug_text(self) -> (r: String)
        ensures
            r@ == "IVec2("@ + signed_decimal_spec(self.x as int) + ", "@ + signed_decimal_spec(self.y as int) + ")"@,
    {
        let mut s = "IVec2(".to_owned();
        let x = signed_text(self.x);
        s.append(x.as_str());
        s.append(", ");
        let y = signed_text(self.y);
        s.append(y.as_str());
        s.append(")");
        s
    }
}

} // verus!
