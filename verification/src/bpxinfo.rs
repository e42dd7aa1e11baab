//! What a container says of itself, as text.

use crate::text::hex_digit;
use crate::text::hex_pair;
use crate::text::push_char;
use vstd::prelude::*;
use vstd::string::StringExecFns;

verus! {

/// A block of bytes in hexadecimal: two digits and a space for each byte,
/// and a line break before every sixteenth byte but the first.
pub open spec fn hex_text(block: Seq<u8>) -> Seq<char>
    decreases block.len(),
{
    if block.len() == 0 {
        Seq::empty()
    } else if block.len() > 1 && (block.len() - 1) % 16 == 0 {
        hex_text(block.drop_last()) + seq!['\n'] + hex_pair(block.last()) + seq![' ']
    } else {
        hex_text(block.drop_last()) + hex_pair(block.last()) + seq![' ']
    }
}

/// Writes a block of bytes in hexadecimal, sixteen bytes to the line.
pub fn hex_print(block: &[u8]) -> (text: String)
    ensures
        text@ == hex_text(block@),
{
    let mut text = String::new();
    let mut i: usize = 0;
    assert(block@.take(0) =~= Seq::<u8>::empty());
    while i < block.len()
        invariant
            i <= block@.len(),
            text@ == hex_text(block@.take(i as int)),
        decreases block@.len() - i,
    {
        let ghost before = text@;
        if i != 0 && i % 16 == 0 {
            push_char(&mut text, '\n');
        }
        let byte = block[i];
        push_char(&mut text, hex_digit((byte / 16) as u64));
        push_char(&mut text, hex_digit((byte % 16) as u64));
        push_char(&mut text, ' ');
        proof {
            let next = block@.take(i + 1);
            assert(next.drop_last() =~= block@.take(i as int));
            assert(next.last() == byte);
            assert(text@ =~= hex_text(next));
        }
        i += 1;
    }
    assert(block@.take(i as int) =~= block@);
    text
}

/// The names of the compression and check schemes that the flags of a
/// section name, with ` | ` between them. Flags that name no check scheme
/// get `CheckNone`.
pub open spec fn flags_names(flags: u8) -> Seq<Seq<char>> {
    (if flags & 0x1 == 0x1 {
        seq!["CompressZlib"@]
    } else {
        Seq::<Seq<char>>::empty()
    }) + (if flags & 0x2 == 0x2 {
        seq!["CompressXZ"@]
    } else {
        Seq::<Seq<char>>::empty()
    }) + (if flags & 0x4 == 0x4 {
        seq!["CheckCrc32"@]
    } else {
        Seq::<Seq<char>>::empty()
    }) + (if flags & 0x8 == 0x8 {
        seq!["CheckWeak"@]
    } else {
        Seq::<Seq<char>>::empty()
    }) + (if flags & 0x8 != 0x8 && flags & 0x4 != 0x4 {
        seq!["CheckNone"@]
    } else {
        Seq::<Seq<char>>::empty()
    })
}

/// The names joined by ` | `.
pub open spec fn joined(names: Seq<Seq<char>>) -> Seq<char>
    decreases names.len(),
{
    if names.len() == 0 {
        Seq::empty()
    } else if names.len() == 1 {
        names[0]
    } else {
        joined(names.drop_last()) + " | "@ + names.last()
    }
}

/// Appends a name to the text, behind ` | ` where the text holds names
/// already.
fn push_name(text: &mut String, name: &str, Ghost(names): Ghost<Seq<Seq<char>>>) -> (count: Ghost<
    Seq<Seq<char>>,
>)
    requires
        old(text)@ == joined(names),
        names.len() == 0 <==> old(text)@.len() == 0,
        name@.len() > 0,
    ensures
        final(text)@ == joined(count@),
        count@ == names.push(name@),
        final(text)@.len() > 0,
{
    let ghost after = names.push(name@);
    proof {
        assert(after.drop_last() =~= names);
    }
    if text.as_str().unicode_len() > 0 {
        text.append(" | ");
    }
    text.append(name);
    Ghost(after)
}

/// Names the schemes that the flags of a section stand for.
pub fn flags_text(flags: u8) -> (text: String)
    ensures
        text@ == joined(flags_names(flags)),
{
    let mut text = String::new();
    let ghost mut names = Seq::<Seq<char>>::empty();
    proof {
        reveal_strlit("CompressZlib");
        reveal_strlit("CompressXZ");
        reveal_strlit("CheckCrc32");
        reveal_strlit("CheckWeak");
        reveal_strlit("CheckNone");
    }
    if flags & 0x1 == 0x1 {
        let n = push_name(&mut text, "CompressZlib", Ghost(names));
        proof {
            names = n@;
        }
    }
    if flags & 0x2 == 0x2 {
        let n = push_name(&mut text, "CompressXZ", Ghost(names));
        proof {
            names = n@;
        }
    }
    if flags & 0x4 == 0x4 {
        let n = push_name(&mut text, "CheckCrc32", Ghost(names));
        proof {
            names = n@;
        }
    }
    if flags & 0x8 == 0x8 {
        let n = push_name(&mut text, "CheckWeak", Ghost(names));
        proof {
            names = n@;
        }
    }
    if flags & 0x8 != 0x8 && flags & 0x4 != 0x4 {
        let n = push_name(&mut text, "CheckNone", Ghost(names));
        proof {
            names = n@;
        }
    }
    assert(names =~= flags_names(flags));
    text
}

} // verus!
