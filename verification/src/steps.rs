use vstd::prelude::*;

use crate::errors::CloakError;
use crate::status::LinkHealth;

verus! {

/// Decide one ingest from its two probes: the entry must exist at the
/// root and must not already have a storage copy.  `NotFound` when the
/// source is missing; `Conflict` when the name is already hidden.
pub fn ingest_decision(source_exists: bool, storage_copy_exists: bool) -> (r: Result<
    (),
    CloakError,
>)
    ensures
        r is Ok <==> source_exists && !storage_copy_exists,
        r == Err::<(), CloakError>(CloakError::NotFound) <==> !source_exists,
        r == Err::<(), CloakError>(CloakError::Conflict) <==> source_exists
            && storage_copy_exists,
{
    if !source_exists {
        Err(CloakError::NotFound)
    } else if storage_copy_exists {
        Err(CloakError::Conflict)
    } else {
        Ok(())
    }
}

/// Decide one egest from its two probes: the storage copy must exist
/// and nothing may occupy the root path, or a stale link or real
/// entry would be clobbered.
pub fn egest_decision(storage_copy_exists: bool, root_occupied: bool) -> (r: Result<
    (),
    CloakError,
>)
    ensures
        r is Ok <==> storage_copy_exists && !root_occupied,
        r == Err::<(), CloakError>(CloakError::NotFound) <==> !storage_copy_exists,
        r == Err::<(), CloakError>(CloakError::Conflict) <==> storage_copy_exists
            && root_occupied,
{
    if !storage_copy_exists {
        Err(CloakError::NotFound)
    } else if root_occupied {
        Err(CloakError::Conflict)
    } else {
        Ok(())
    }
}

/// Decide one link creation: nothing at all may stand at the root
/// path (even a dangling link blocks it), and the storage copy must
/// already exist to be pointed at.
pub fn create_link_decision(root_occupied: bool, storage_copy_exists: bool) -> (r: Result<
    (),
    CloakError,
>)
    ensures
        r is Ok <==> !root_occupied && storage_copy_exists,
        r == Err::<(), CloakError>(CloakError::Conflict) <==> root_occupied,
        r == Err::<(), CloakError>(CloakError::NotFound) <==> !root_occupied
            && !storage_copy_exists,
{
    if root_occupied {
        Err(CloakError::Conflict)
    } else if !storage_copy_exists {
        Err(CloakError::NotFound)
    } else {
        Ok(())
    }
}

/// Decide one link removal: the path must exist and must be a genuine
/// link; a real file or directory is refused so user data is never
/// deleted in its place.
pub fn remove_link_decision(path_exists: bool, is_link: bool) -> (r: Result<(), CloakError>)
    ensures
        r is Ok <==> path_exists && is_link,
        r == Err::<(), CloakError>(CloakError::NotFound) <==> !path_exists,
        r == Err::<(), CloakError>(CloakError::TypeMismatch) <==> path_exists && !is_link,
{
    if !path_exists {
        Err(CloakError::NotFound)
    } else if !is_link {
        Err(CloakError::TypeMismatch)
    } else {
        Ok(())
    }
}

/// What a failed link creation calls for on the platform whose
/// directory links need a separate privilege.
#[derive(Clone, Copy, Debug, PartialEq, Eq, Structural)]
pub enum LinkFallback {
    /// Create a directory junction in place of the symlink, and warn
    /// the operator that the fallback was used.
    Junction,
    /// Surface the creation error unchanged.
    Surface,
}

/// Decide how to recover when creating the ghost link failed: a
/// directory link refused for want of the link privilege falls back
/// to a junction; a plain file link has no such fallback, and any
/// other failure is surfaced unchanged.
pub fn link_fallback_decision(is_dir: bool, permission_denied: bool) -> (r: LinkFallback)
    ensures
        r == LinkFallback::Junction <==> is_dir && permission_denied,
        r == LinkFallback::Surface <==> !(is_dir && permission_denied),
{
    if is_dir && permission_denied {
        LinkFallback::Junction
    } else {
        LinkFallback::Surface
    }
}

/// Classify one name from its two probes, as the status verb reports
/// it: a storage copy with a link is healthy, without one broken; a
/// link without a storage copy is orphaned; nothing to report
/// otherwise.
pub fn classify_entry(storage_copy_exists: bool, root_is_link: bool) -> (r: Option<LinkHealth>)
    ensures
        storage_copy_exists && root_is_link ==> r == Some(LinkHealth::Linked),
        storage_copy_exists && !root_is_link ==> r == Some(LinkHealth::Broken),
        !storage_copy_exists && root_is_link ==> r == Some(LinkHealth::Orphaned),
        !storage_copy_exists && !root_is_link ==> r is None,
{
    if storage_copy_exists {
        if root_is_link {
            Some(LinkHealth::Linked)
        } else {
            Some(LinkHealth::Broken)
        }
    } else if root_is_link {
        Some(LinkHealth::Orphaned)
    } else {
        None
    }
}

} // verus!
