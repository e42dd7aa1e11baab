//! Laying out structured data as text.

use crate::text::push_char;
use vstd::prelude::*;

verus! {

/// The indentation of a layer: one tab for each layer.
pub open spec fn layer_prefix(layer: nat) -> Seq<char> {
    Seq::new(layer, |i: int| '\t')
}

/// The indentation of a layer of nesting.
pub fn gen_layer_prefix(layer: usize) -> (res: String)
    ensures
        res@ == layer_prefix(layer as nat),
{
    let mut res = String::new();
    let mut i: usize = 0;
    assert(res@ =~= layer_prefix(0));
    while i < layer
        invariant
            i <= layer,
            res@ == layer_prefix(i as nat),
        decreases layer - i,
    {
        push_char(&mut res, '\t');
        i += 1;
        assert(res@ =~= layer_prefix(i as nat));
    }
    res
}

} // verus!
