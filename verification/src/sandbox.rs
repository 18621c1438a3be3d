//! OS-level containment (Landlock and seccomp) for the process that runs a
//! tool: planned defense in depth on top of the capability layer, and not
//! yet implemented. Every build fails loud rather than report a containment
//! that is not there.

use vstd::prelude::*;

verus! {

/// Why containment was not installed.
#[derive(Debug, PartialEq, Eq, Structural)]
pub enum SandboxError {
    /// Containment is not compiled into this build.
    Disabled,
    /// Containment is compiled in but not yet implemented.
    NotImplemented,
}

impl SandboxError {
    /// The message that describes this error.
    pub fn message(&self) -> (r: String)
        ensures
            r@ == match self {
                SandboxError::Disabled => "linux containment is not enabled in this build"@,
                SandboxError::NotImplemented => "linux containment is enabled at build time but not yet implemented (stub)"@,
            },
    {
        match self {
            SandboxError::Disabled => "linux containment is not enabled in this build".to_owned(),
            SandboxError::NotImplemented => "linux containment is enabled at build time but not yet implemented (stub)".to_owned(),
        }
    }
}

/// Whether this build compiles the Linux containment code in.
pub const LINUX_CONTAINMENT: bool = false;

/// The outcome of installing containment in a build that does
/// (`compiled_in`) or does not compile the containment code in:
/// `NotImplemented` or `Disabled`, and never success.
pub fn containment_for_build(compiled_in: bool) -> (r: Result<(), SandboxError>)
    ensures
        compiled_in ==> r == Err::<(), SandboxError>(SandboxError::NotImplemented),
        !compiled_in ==> r == Err::<(), SandboxError>(SandboxError::Disabled),
{
    if compiled_in {
        Err(SandboxError::NotImplemented)
    } else {
        Err(SandboxError::Disabled)
    }
}

/// Installs OS-level containment for the current process. Not yet
/// implemented: it fails loud in every build and never reports success.
pub fn install_linux_containment() -> (r: Result<(), SandboxError>)
    ensures
        r is Err,
        r == Err::<(), SandboxError>(
            if LINUX_CONTAINMENT {
                SandboxError::NotImplemented
            } else {
                SandboxError::Disabled
            },
        ),
{
    containment_for_build(LINUX_CONTAINMENT)
}

} // verus!
