//! The panic subsystem's one published slot: the kernel executable image
//! registered for backtrace symbolication. The stack walk, the ELF reader
//! and the halt loop live in the unverified shell.

use vstd::prelude::*;

verus! {

/// Holds the kernel-file blob the boot protocol handed over, at most once.
pub struct ExecutableRegistry {
    file: Option<Vec<u8>>,
}

impl ExecutableRegistry {
    pub closed spec fn spec_file(&self) -> Option<Seq<u8>> {
        match self.file {
            Some(ref f) => Some(f@),
            None => None,
        }
    }

    /// An empty slot.
    pub fn new() -> (r: ExecutableRegistry)
        ensures
            r.spec_file() is None,
    {
        ExecutableRegistry { file: None }
    }

    pub fn is_registered(&self) -> (r: bool)
        ensures
            r <==> self.spec_file() is Some,
    {
        self.file.is_some()
    }

    /// A read-only view of the registered image.
    pub fn image(&self) -> (r: Option<&Vec<u8>>)
        ensures
            r matches Some(f) ==> self.spec_file() == Some(f@),
            r is None <==> self.spec_file() is None,
    {
        self.file.as_ref()
    }
}

/// Register the kernel's executable image for symbolication: the slot is
/// write-once, and a second registration is refused with the slot left
/// alone.
pub fn register_executable(registry: &mut ExecutableRegistry, file: Vec<u8>) -> (r: Result<
    (),
    (),
>)
    ensures
        old(registry).spec_file() is None ==> r is Ok && final(registry).spec_file() == Some(
            file@,
        ),
        old(registry).spec_file() is Some ==> r is Err && final(registry).spec_file() == old(
            registry,
        ).spec_file(),
{
    if registry.file.is_some() {
        return Err(());
    }
    registry.file = Some(file);
    Ok(())
}

} // verus!
