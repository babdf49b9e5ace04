use vstd::prelude::*;

use crate::tree::TreeData;
use crate::tree::copy_tree;

verus! {

/// The two ends of one move: the entry at the source path, the entry at
/// the destination path, and whether both paths lie on the same storage
/// device.
pub struct MoveSpace {
    pub source: Option<TreeData>,
    pub dest: Option<TreeData>,
    pub same_device: bool,
}

/// The errno value for a rename that crosses storage devices.
pub open spec fn exdev_errno() -> i32 {
    18
}

/// Decide whether a failed rename crossed a storage device boundary, so
/// that the copy-then-delete fallback applies.  Takes the two facts an
/// operating-system error carries: whether its kind is the dedicated
/// cross-device kind, and its raw errno value, if any.
pub fn is_cross_device_error(kind_is_cross_device: bool, raw_os_error: Option<i32>) -> (r: bool)
    ensures
        r == (kind_is_cross_device || raw_os_error == Some(exdev_errno())),
{
    if kind_is_cross_device {
        return true;
    }
    match raw_os_error {
        Some(code) => code == 18,
        None => false,
    }
}

/// The copy-then-delete fallback for a move that cannot be a rename:
/// copies the full subtree to the destination, then removes the source.
/// Not atomic: its two effects are separate, and a crash between them
/// leaves both copies present.
pub fn copy_and_delete(sp: MoveSpace) -> (r: MoveSpace)
    requires
        sp.source is Some,
        sp.dest is None,
    ensures
        r.source is None,
        r.dest is Some,
        r.dest->0@ == sp.source->0@,
        r.same_device == sp.same_device,
{
    match sp.source {
        Some(data) => {
            let copied = copy_tree(&data);
            MoveSpace { source: None, dest: Some(copied), same_device: sp.same_device }
        },
        None => {
            proof {
                assert(false);
            }
            sp
        },
    }
}

/// The move primitive: relocate the entry at the source path to the
/// destination path, preserving the subtree byte for byte.  A move on
/// one device is a rename; across devices it falls back to copy then
/// delete.  Either way the destination ends up identical to the old
/// source and the source is gone.
pub fn move_path(sp: MoveSpace) -> (r: MoveSpace)
    requires
        sp.source is Some,
        sp.dest is None,
    ensures
        r.source is None,
        r.dest is Some,
        r.dest->0@ == sp.source->0@,
        r.same_device == sp.same_device,
{
    if sp.same_device {
        match sp.source {
            Some(data) => MoveSpace { source: None, dest: Some(data), same_device: sp.same_device },
            None => {
                proof {
                    assert(false);
                }
                sp
            },
        }
    } else {
        copy_and_delete(sp)
    }
}

} // verus!
