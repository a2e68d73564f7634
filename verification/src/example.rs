//! The systems and resources of the example engine that drives the installer,
//! and the flag lookup of its loader.
use vstd::prelude::*;

verus! {

/// A resource private to `SomeSystem`.
pub struct SomeSystemData {
    pub num: i32,
}

impl SomeSystemData {
    pub fn new() -> (data: SomeSystemData)
        ensures
            data.num == 10,
    {
        SomeSystemData { num: 10 }
    }
}

/// A resource shared by the example systems.
pub struct SomeCommonData {
    pub oi: i32,
}

impl SomeCommonData {
    pub fn new() -> (data: SomeCommonData)
        ensures
            data.oi == 5,
    {
        SomeCommonData { oi: 5 }
    }
}

/// An example system that depends on `SomeOtherSystem`.
pub struct SomeSystem;

impl SomeSystem {
    pub fn new() -> (system: SomeSystem) {
        SomeSystem
    }
}

/// An example system that says goodbye with the shared counter and bumps it.
pub struct SomeOtherSystem;

impl SomeOtherSystem {
    pub fn new() -> (system: SomeOtherSystem) {
        SomeOtherSystem
    }

    /// One run over the shared data: returns the counter to say goodbye with,
    /// then increments it.
    pub fn farewell(&mut self, data: &mut SomeCommonData) -> (shown: i32)
        requires
            old(data).oi < i32::MAX,
        ensures
            shown == old(data).oi,
            final(data).oi == old(data).oi + 1,
    {
        let shown: i32 = data.oi;
        data.oi = data.oi + 1;
        shown
    }
}

/// An example system that is registered with no dependencies.
pub struct SomeThirdSystem;

impl SomeThirdSystem {
    pub fn new() -> (system: SomeThirdSystem) {
        SomeThirdSystem
    }
}

/// Loader flags. No flag is known yet, so every lookup finds nothing.
pub struct Flags;

impl Flags {
    pub fn get_flag<T>(name: &str) -> (flag: Option<T>)
        ensures
            flag is None,
    {
        None
    }
}

} // verus!
