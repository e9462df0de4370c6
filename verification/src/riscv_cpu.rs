//! RISC-V supervisor status register: decoding the fields of `sstatus`
//! that trap handling and context switching read.

use vstd::prelude::*;

verus! {

/// The privilege level a hart ran at before trapping into S-mode.
#[derive(Clone, Copy, Debug, PartialEq, Eq, Structural)]
pub enum PrivilegeLevel {
    Supervisor,
    User,
}

/// The summary state of an extension's registers, as `sstatus` reports it.
#[derive(Clone, Copy, Debug, PartialEq, Eq, Structural)]
pub enum ExtensionState {
    Off,
    Initial,
    Clean,
    Dirty,
}

/// Decode a two-bit extension-state field.
pub open spec fn spec_extension_state(f: u64) -> ExtensionState {
    if f == 0 {
        ExtensionState::Off
    } else if f == 1 {
        ExtensionState::Initial
    } else if f == 2 {
        ExtensionState::Clean
    } else {
        ExtensionState::Dirty
    }
}

/// The supervisor status register, as a raw value.
#[derive(Clone, Copy, Debug, PartialEq, Eq, Structural)]
pub struct Sstatus {
    pub bits: usize,
}

impl Sstatus {
    pub open spec fn spec_bits(self) -> u64 {
        self.bits as u64
    }

    /// The privilege level of the hart before the trap into S-mode: the
    /// SPP bit.
    pub fn previous_privilege_level(self) -> (r: PrivilegeLevel)
        ensures
            r == (if (self.spec_bits() >> 8) & 1 == 1 {
                PrivilegeLevel::Supervisor
            } else {
                PrivilegeLevel::User
            }),
    {
        if (self.bits as u64 >> 8) & 1 == 1 {
            PrivilegeLevel::Supervisor
        } else {
            PrivilegeLevel::User
        }
    }

    /// Whether any extension has dirty state that needs handling: the SD
    /// bit, which the hardware keeps as a summary of FS, VS and XS.
    pub fn dirty_state(self) -> (r: bool)
        ensures
            r <==> (self.spec_bits() >> 63) & 1 == 1,
    {
        (self.bits as u64 >> 63) & 1 == 1
    }

    /// The state of the vector extension: the VS field.
    pub fn vector_state(self) -> (r: ExtensionState)
        ensures
            r == spec_extension_state((self.spec_bits() >> 9) & 0x3),
    {
        let f = (self.bits as u64 >> 9) & 0x3;
        if f == 0 {
            ExtensionState::Off
        } else if f == 1 {
            ExtensionState::Initial
        } else if f == 2 {
            ExtensionState::Clean
        } else {
            ExtensionState::Dirty
        }
    }

    /// The state of the floating-point registers: the FS field.
    pub fn fpu_state(self) -> (r: ExtensionState)
        ensures
            r == spec_extension_state((self.spec_bits() >> 13) & 0x3),
    {
        let f = (self.bits as u64 >> 13) & 0x3;
        if f == 0 {
            ExtensionState::Off
        } else if f == 1 {
            ExtensionState::Initial
        } else if f == 2 {
            ExtensionState::Clean
        } else {
            ExtensionState::Dirty
        }
    }

    /// The state of the user-mode extensions: the XS field.
    pub fn extension_state(self) -> (r: ExtensionState)
        ensures
            r == spec_extension_state((self.spec_bits() >> 15) & 0x3),
    {
        let f = (self.bits as u64 >> 15) & 0x3;
        if f == 0 {
            ExtensionState::Off
        } else if f == 1 {
            ExtensionState::Initial
        } else if f == 2 {
            ExtensionState::Clean
        } else {
            ExtensionState::Dirty
        }
    }
}

} // verus!
