//! The few build-driver settings the rest of the tooling computes with.
//! Everything that runs compilers or touches the filesystem stays in the
//! unverified tooling.

use vstd::prelude::*;

verus! {

/// The architectures the build can target.
#[derive(Clone, Copy, Debug, PartialEq, Eq, Structural)]
pub enum TargetArch {
    X8664,
    Riscv64,
}

/// The settings every build subcommand shares.
#[derive(Clone, Copy, Debug, PartialEq, Eq, Structural)]
pub struct XtaskArgs {
    pub target: TargetArch,
    pub release: bool,
}

impl XtaskArgs {
    /// The cargo profile the build uses.
    pub fn profile(&self) -> (r: &'static str)
        ensures
            self.release ==> r@ == "release"@,
            !self.release ==> r@ == "debug"@,
    {
        if self.release {
            "release"
        } else {
            "debug"
        }
    }
}

} // verus!
