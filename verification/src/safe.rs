//! Range-checked scalars of the wire format.
use vstd::prelude::*;

verus! {

/// Largest integer a browser can hold exactly.
pub const MAX_SAFE: u64 = 9_007_199_254_740_991;

/// A JSON integer that survives a browser round trip without precision loss.
#[derive(Debug, Clone, Copy, PartialEq, Eq, Structural)]
pub struct SafeInt(pub(crate) u64);

impl SafeInt {
    pub closed spec fn value(self) -> u64 {
        self.0
    }

    /// Accepts exactly the integers a browser holds exactly.
    pub fn try_new(n: u64) -> (r: Result<SafeInt, String>)
        ensures
            r is Ok <==> n <= MAX_SAFE,
            r matches Ok(v) ==> v.value() == n,
    {
        if n <= MAX_SAFE {
            Ok(SafeInt(n))
        } else {
            Err("integer exceeds JavaScript safe range".to_string())
        }
    }

    pub fn get(self) -> (r: u64)
        ensures
            r == self.value(),
    {
        self.0
    }
}

/// Schema version; only the current one is accepted.
#[derive(Debug, Clone, Copy, PartialEq, Eq, Structural)]
pub struct Version(pub(crate) u32);

pub const CURRENT_VERSION: u32 = 2;

impl Version {
    pub closed spec fn value(self) -> u32 {
        self.0
    }

    pub fn try_new(n: u32) -> (r: Result<Version, String>)
        ensures
            r is Ok <==> n == CURRENT_VERSION,
            r matches Ok(v) ==> v.value() == n,
    {
        if n == CURRENT_VERSION {
            Ok(Version(n))
        } else {
            Err("unsupported schema version".to_string())
        }
    }

    pub fn get(self) -> (r: u32)
        ensures
            r == self.value(),
    {
        self.0
    }
}

impl Default for Version {
    fn default() -> (r: Version)
        ensures
            r.value() == CURRENT_VERSION,
    {
        Version(CURRENT_VERSION)
    }
}

/// Control-group slot 0–9.
#[derive(Debug, Clone, Copy, PartialEq, Eq, Structural)]
pub struct GroupSlot(pub(crate) u8);

impl GroupSlot {
    pub closed spec fn value(self) -> u8 {
        self.0
    }

    pub fn try_new(n: u8) -> (r: Result<GroupSlot, String>)
        ensures
            r is Ok <==> n < 10,
            r matches Ok(v) ==> v.value() == n,
    {
        if n < 10 {
            Ok(GroupSlot(n))
        } else {
            Err("group slot must be 0-9".to_string())
        }
    }

    pub fn get(self) -> (r: u8)
        ensures
            r == self.value(),
    {
        self.0
    }
}

} // verus!
