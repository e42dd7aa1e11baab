//! What the sixteen type-specific bytes of a main header say, by kind of
//! container.

use crate::text::push_char;
use vstd::prelude::*;
use vstd::string::StringExecFns;

verus! {

/// A kind of container whose type-specific bytes can be put in words.
#[derive(Copy, Clone, Debug, PartialEq, Eq, Structural)]
pub enum TypeExtMap {
    /// A package, of type `P`.
    Package,
}

/// The name of the architecture that a code stands for.
pub open spec fn architecture_name(code: u8) -> Seq<char> {
    if code == 0 {
        "x86_64"@
    } else if code == 1 {
        "aarch64"@
    } else if code == 2 {
        "x86"@
    } else if code == 3 {
        "armv7hl"@
    } else if code == 4 {
        "Any"@
    } else {
        "Unknown"@
    }
}

/// The name of the platform that a code stands for.
pub open spec fn platform_name(code: u8) -> Seq<char> {
    if code == 0 {
        "Linux"@
    } else if code == 1 {
        "Mac"@
    } else if code == 2 {
        "Windows"@
    } else if code == 3 {
        "Android"@
    } else if code == 4 {
        "Any"@
    } else {
        "Unknown"@
    }
}

/// The lines that describe the type-specific bytes of a package: the
/// architecture, the platform and the two letters of the generator.
pub open spec fn package_lines(block: Seq<u8>) -> Seq<Seq<char>> {
    seq![
        "Architecture: "@ + architecture_name(block[0]),
        "Platform: "@ + platform_name(block[1]),
        "Generator: "@ + seq![block[2] as char, block[3] as char],
    ]
}

/// The kind of container that a type byte stands for, if its type-specific
/// bytes can be put in words.
pub fn get_type_ext_map(btype: u8) -> (map: Option<TypeExtMap>)
    ensures
        map == if btype == 0x50 {
            Some(TypeExtMap::Package)
        } else {
            None::<TypeExtMap>
        },
{
    match btype {
        0x50 => Some(TypeExtMap::Package),
        _ => None,
    }
}

/// Puts the type-specific bytes of a package in words.
pub fn bpxp_type_ext_map(block: &[u8; 16]) -> (lines: Vec<String>)
    ensures
        lines@.len() == 3,
        forall|i: int| 0 <= i < 3 ==> (#[trigger] lines@[i])@ == package_lines(block@)[i],
{
    let mut arch = "Architecture: ".to_owned();
    arch.append(
        match block[0] {
            0x0 => "x86_64",
            0x1 => "aarch64",
            0x2 => "x86",
            0x3 => "armv7hl",
            0x4 => "Any",
            _ => "Unknown",
        },
    );
    let mut platform = "Platform: ".to_owned();
    platform.append(
        match block[1] {
            0x0 => "Linux",
            0x1 => "Mac",
            0x2 => "Windows",
            0x3 => "Android",
            0x4 => "Any",
            _ => "Unknown",
        },
    );
    let mut generator = "Generator: ".to_owned();
    push_char(&mut generator, block[2] as char);
    push_char(&mut generator, block[3] as char);
    assert(generator@ =~= "Generator: "@ + seq![block@[2] as char, block@[3] as char]);
    let mut lines: Vec<String> = Vec::new();
    lines.push(arch);
    lines.push(platform);
    lines.push(generator);
    lines
}

impl TypeExtMap {
    /// Puts the type-specific bytes of a container of this kind in words.
    pub fn describe(&self, block: &[u8; 16]) -> (lines: Vec<String>)
        ensures
            lines@.len() == 3,
            forall|i: int| 0 <= i < 3 ==> (#[trigger] lines@[i])@ == package_lines(block@)[i],
    {
        match self {
            TypeExtMap::Package => bpxp_type_ext_map(block),
        }
    }
}

} // verus!
