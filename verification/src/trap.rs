//! Machine-independent trap dispatch: the uniform view of a trap frame and
//! the single dispatcher every entry path funnels into.

use vstd::prelude::*;

verus! {

/// A trap cause number, as the common dispatcher sees it.
#[derive(Clone, Copy, Debug, PartialEq, Eq, Structural)]
pub struct Vector(pub usize);

impl Vector {
    /// Whether the vector is a CPU exception rather than an external
    /// interrupt: on this architecture, the first 32 vectors.
    pub fn is_exception(self) -> (r: bool)
        ensures
            r <==> self.0 < 32,
    {
        self.0 < 32
    }
}

/// A named CPU exception.
#[derive(Clone, Copy, Debug)]
pub struct Exception {
    pub vector: usize,
    pub name: &'static str,
}

/// The uniform view every architecture's trap frame provides to the common
/// dispatcher.
pub trait TrapFrameApi {
    /// Whether this frame records an exception.
    spec fn spec_is_exception(&self) -> bool;

    /// The exception this frame records, when it is one the architecture
    /// names.
    spec fn spec_exception(&self) -> Option<Exception>;

    fn is_exception(&self) -> (r: bool)
        ensures
            r == self.spec_is_exception(),
    ;

    fn exception(&self) -> (r: Option<Exception>)
        ensures
            r == self.spec_exception(),
    ;
}

/// What the dispatcher decides to do with a trap. The interrupt-handler
/// registry is future work; until it exists every non-exception trap is
/// reported unhandled and every named exception is fatal.
#[derive(Clone, Copy, Debug)]
pub enum TrapDisposition {
    /// Panic with the exception's name.
    Fatal(Exception),
    /// Route to the (future) interrupt-handler registry.
    Route,
}

/// Receive a trap frame and decide its fate: a frame naming an exception
/// escalates to a panic carrying that name; everything else is handed on
/// for routing. The unverified shell performs the decision.
pub fn dispatch<T: TrapFrameApi>(tf: &T) -> (r: TrapDisposition)
    ensures
        tf.spec_exception() matches Some(e) ==> r == TrapDisposition::Fatal(e),
        tf.spec_exception() is None ==> r == TrapDisposition::Route,
{
    match tf.exception() {
        Some(e) => TrapDisposition::Fatal(e),
        None => TrapDisposition::Route,
    }
}

/// Register a page-fault handler with the dispatcher. The registry is a
/// placeholder: nothing is recorded yet.
pub fn register_handler() {
}

} // verus!
