use vstd::prelude::*;
use crate::matcher::{lemma_patch_ops_fit, lemma_patch_ops_replay, patch_ops};
use crate::ops::{all_in_range, replay, EditOpView};
use crate::wire::{all_fit, lemma_wire_format_injective, wire_format};

verus! {

/// A patch survives its wire format: whatever list of operations has the
/// wire format of the patch from `source` to `target` is that patch, stays
/// inside `source`, and replayed against `source` gives `target`.
///
/// Such a list is what decoding the encoded patch returns, and decoding it
/// cannot fail, since the patch itself is a list with that wire format.
pub proof fn lemma_patch_round_trip(source: Seq<u8>, target: Seq<u8>, decoded: Seq<EditOpView>)
    requires
        source.len() <= usize::MAX,
        target.len() <= usize::MAX,
        all_fit(decoded),
        wire_format(decoded) == wire_format(patch_ops(source, target)),
    ensures
        all_fit(patch_ops(source, target)),
        decoded == patch_ops(source, target),
        all_in_range(decoded, source),
        replay(decoded, source) == target,
{
    lemma_patch_ops_fit(source, target);
    lemma_wire_format_injective(decoded, patch_ops(source, target));
    lemma_patch_ops_replay(source, target);
}

/// Decoding what was encoded gives the operations back: a list with the
/// wire format of `ops` is `ops`.
pub proof fn lemma_wire_round_trip(ops: Seq<EditOpView>, decoded: Seq<EditOpView>)
    requires
        all_fit(ops),
        all_fit(decoded),
        wire_format(decoded) == wire_format(ops),
    ensures
        decoded == ops,
{
    lemma_wire_format_injective(decoded, ops);
}

} // verus!
