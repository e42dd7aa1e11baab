//! The toolchains that can be chosen by name.

use crate::error::Error;
use vstd::prelude::*;

verus! {

/// A toolchain.
#[derive(Copy, Clone, Debug, PartialEq, Eq, Structural)]
pub enum ToolchainKind {
    /// The compiler of the machine that runs the build.
    Host,
}

/// The toolchain that a name stands for: `host` is the only one.
pub open spec fn toolchain_named(name: Seq<char>) -> Option<ToolchainKind> {
    if name == "host"@ {
        Some(ToolchainKind::Host)
    } else {
        None
    }
}

/// The toolchain of the given name, set up with the given properties.
///
/// A name that stands for no toolchain gives none. The host toolchain
/// takes no properties: where any are given, even an empty set of them, it
/// is refused with `ToolchainProperties`.
pub fn create_toolchain(toolchain_name: &str, props: Option<Vec<(String, String)>>) -> (r: Result<
    Option<ToolchainKind>,
    Error,
>)
    ensures
        r == match toolchain_named(toolchain_name@) {
            None => Ok::<Option<ToolchainKind>, Error>(None),
            Some(kind) => if props is Some {
                Err::<Option<ToolchainKind>, Error>(Error::ToolchainProperties)
            } else {
                Ok::<Option<ToolchainKind>, Error>(Some(kind))
            },
        },
{
    if toolchain_name.to_owned() == "host".to_owned() {
        if props.is_some() {
            return Err(Error::ToolchainProperties);
        }
        return Ok(Some(ToolchainKind::Host));
    }
    Ok(None)
}

} // verus!
