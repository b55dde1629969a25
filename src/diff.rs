//! Byte-level diffs between a file's baseline and its current content.

use vstd::prelude::*;

verus! {

/// The unified patch that turns `old` into `new`.
pub uninterp spec fn patch_of(old: Seq<u8>, new: Seq<u8>) -> Seq<u8>;

/// The diff stored with an event: empty for identical buffers (the sentinel
/// that reconciliation tests for), the unified patch otherwise.
pub open spec fn diff_spec(old: Seq<u8>, new: Seq<u8>) -> Seq<u8> {
    if old == new {
        Seq::empty()
    } else {
        patch_of(old, new)
    }
}

/// Relies on diffy::create_patch_bytes and diffy::Patch::to_bytes: the
/// rendered patch depends on the two buffers alone, and it always begins
/// with the `--- original` header line, so it is never empty.
#[verifier::external_body]
fn create_patch(old: &Vec<u8>, new: &Vec<u8>) -> (r: Vec<u8>)
    ensures
        r@ == patch_of(old@, new@),
        r@.len() > 0,
{
    diffy::create_patch_bytes(old.as_slice(), new.as_slice()).to_bytes()
}

/// The diff from `baseline` to `current`.
pub fn get_diff(baseline: &Vec<u8>, current: &Vec<u8>) -> (r: Vec<u8>)
    ensures
        r@ == diff_spec(baseline@, current@),
        r@.len() == 0 <==> baseline@ == current@,
{
    if crate::path::bytes_equal(baseline, current) {
        Vec::new()
    } else {
        create_patch(baseline, current)
    }
}

/// Identical buffers give the empty diff.
pub proof fn lemma_diff_of_identical(a: Seq<u8>)
    ensures
        diff_spec(a, a) == Seq::<u8>::empty(),
{
}

} // verus!
