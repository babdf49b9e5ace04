use vstd::prelude::*;

use crate::errors::CloakError;
use crate::model::ProjectModel;
use crate::model::RootSlot;
use crate::model::RootV;
use crate::model::Slot;
use crate::model::SlotV;
use crate::model::StoredCopy;
use crate::model::entry_at;
use crate::model::find_slot;
use crate::model::lemma_entry_at_absent;
use crate::model::lemma_entry_at_index;
use crate::model::lemma_entry_at_push;
use crate::model::lemma_entry_at_update;
use crate::model::root_resolves;
use crate::model::wf;
use crate::mover::MoveSpace;
use crate::mover::move_path;
use crate::tree::FileV;
use crate::tree::TreeData;

verus! {

/// The content of a real root entry.
pub open spec fn real_data(r: RootV) -> Seq<FileV> {
    match r {
        RootV::Real { data, .. } => data,
        _ => Seq::empty(),
    }
}

/// The hidden attribute of a real root entry.
pub open spec fn real_hidden(r: RootV) -> bool {
    match r {
        RootV::Real { hidden, .. } => hidden,
        _ => false,
    }
}

/// The content of the storage copy.
pub open spec fn stored_data(s: SlotV) -> Seq<FileV> {
    match s.stored {
        Some((d, _)) => d,
        None => Seq::empty(),
    }
}

/// The hidden attribute carried by the storage copy.
pub open spec fn stored_hidden(s: SlotV) -> bool {
    match s.stored {
        Some((_, h)) => h,
        None => false,
    }
}

/// The root node with its hidden attribute set to `h`.
pub open spec fn root_with_hidden(r: RootV, h: bool) -> RootV {
    match r {
        RootV::Empty => RootV::Empty,
        RootV::Real { data, .. } => RootV::Real { data, hidden: h },
        RootV::StorageLink { .. } => RootV::StorageLink { hidden: h },
    }
}

/// Effect of a successful ingest: the real root entry moves wholesale
/// into storage, attributes and all, and the root path becomes empty.
pub open spec fn ingest_transition(s: SlotV) -> SlotV {
    SlotV { root: RootV::Empty, stored: Some((real_data(s.root), real_hidden(s.root))) }
}

/// Effect of a successful egest: the storage copy moves back to the
/// root path and the storage slot empties.
pub open spec fn egest_transition(s: SlotV) -> SlotV {
    SlotV { root: RootV::Real { data: stored_data(s), hidden: stored_hidden(s) }, stored: None }
}

/// Effect of creating the ghost link: a fresh, unhidden link appears
/// at the root path; storage is untouched.
pub open spec fn link_transition(s: SlotV) -> SlotV {
    SlotV { root: RootV::StorageLink { hidden: false }, stored: s.stored }
}

/// Effect of removing the ghost link: the root path empties; storage
/// is untouched.
pub open spec fn unlink_transition(s: SlotV) -> SlotV {
    SlotV { root: RootV::Empty, stored: s.stored }
}

/// Effect of setting or clearing the hidden attribute on the root
/// path.  Where the platform has no such attribute this is a no-op.
pub open spec fn set_hidden_transition(s: SlotV, attrs_supported: bool, h: bool) -> SlotV {
    if !attrs_supported {
        s
    } else {
        SlotV { root: root_with_hidden(s.root, h), stored: s.stored }
    }
}

/// Idempotently mark the storage root directory as present.
pub fn ensure_storage_dir(m: &mut ProjectModel)
    ensures
        final(m).storage_root,
        final(m).attrs_supported == old(m).attrs_supported,
        final(m).cross_device == old(m).cross_device,
        final(m).slots == old(m).slots,
{
    m.storage_root = true;
}

/// Move the entry at the root path into storage.  Fails with
/// `NotFound` when the root path does not resolve, and with `Conflict`
/// when a storage copy already lies under this name (the entry is
/// already hidden); on failure nothing changes.  On success the entry,
/// hidden attribute included, stands in storage and the root path is
/// empty; the storage root is created first if need be.
pub fn ingest(m: &mut ProjectModel, name: &String) -> (r: Result<(), CloakError>)
    requires
        wf(*old(m)),
    ensures
        wf(*final(m)),
        final(m).attrs_supported == old(m).attrs_supported,
        final(m).cross_device == old(m).cross_device,
        ({
            let s = entry_at(*old(m), name@);
            match r {
                Ok(()) => {
                    &&& root_resolves(s) && s.stored is None
                    &&& final(m).storage_root
                    &&& entry_at(*final(m), name@) == ingest_transition(s)
                    &&& forall|n: Seq<char>|
                        n != name@ ==> #[trigger] entry_at(*final(m), n) == entry_at(*old(m), n)
                },
                Err(CloakError::NotFound) => !root_resolves(s) && *final(m) == *old(m),
                Err(CloakError::Conflict) => root_resolves(s) && s.stored is Some && *final(m)
                    == *old(m),
                Err(_) => false,
            }
        }),
{
    let idx_opt = find_slot(&m.slots, name);
    let i = match idx_opt {
        None => {
            proof {
                lemma_entry_at_absent(*m, name@);
            }
            return Err(CloakError::NotFound);
        },
        Some(i) => i,
    };
    proof {
        lemma_entry_at_index(*m, i as int);
    }
    let resolves = match &m.slots[i].root {
        RootSlot::Real { .. } => true,
        RootSlot::StorageLink { .. } => m.slots[i].stored.is_some(),
        RootSlot::Empty => false,
    };
    if !resolves {
        return Err(CloakError::NotFound);
    }
    if m.slots[i].stored.is_some() {
        return Err(CloakError::Conflict);
    }
    m.storage_root = true;
    let ghost pre = *m;
    proof {
        assert(wf(pre));
        assert(forall|n: Seq<char>| entry_at(pre, n) == entry_at(*old(m), n));
    }
    let cross = m.cross_device;
    let slot = m.slots.remove(i);
    match slot.root {
        RootSlot::Real { data, hidden } => {
            let sp = move_path(MoveSpace { source: Some(data), dest: None, same_device: !cross });
            let moved = match sp.dest {
                Some(d) => d,
                None => {
                    proof {
                        assert(false);
                    }
                    TreeData { files: Vec::new() }
                },
            };
            let new_slot = Slot {
                name: slot.name,
                root: RootSlot::Empty,
                stored: Some(StoredCopy { data: moved, hidden }),
            };
            m.slots.insert(i, new_slot);
            proof {
                assert(m.slots@ =~= pre.slots@.update(i as int, new_slot));
                lemma_entry_at_update(pre, *m, i as int);
                assert(entry_at(*final(m), name@) == ingest_transition(
                    entry_at(*old(m), name@),
                ));
            }
            Ok(())
        },
        _ => {
            proof {
                assert(false);
            }
            Err(CloakError::NotFound)
        },
    }
}

/// Move the storage copy back to the root path.  Fails with `NotFound`
/// when no storage copy lies under this name, and with `Conflict` when
/// anything still stands at the root path (a leftover link, or a real
/// entry); on failure nothing changes.  On success the entry stands at
/// the root again and storage no longer holds it.
pub fn egest(m: &mut ProjectModel, name: &String) -> (r: Result<(), CloakError>)
    requires
        wf(*old(m)),
    ensures
        wf(*final(m)),
        final(m).attrs_supported == old(m).attrs_supported,
        final(m).cross_device == old(m).cross_device,
        final(m).storage_root == old(m).storage_root,
        ({
            let s = entry_at(*old(m), name@);
            match r {
                Ok(()) => {
                    &&& s.stored is Some && s.root is Empty
                    &&& entry_at(*final(m), name@) == egest_transition(s)
                    &&& forall|n: Seq<char>|
                        n != name@ ==> #[trigger] entry_at(*final(m), n) == entry_at(*old(m), n)
                },
                Err(CloakError::NotFound) => s.stored is None && *final(m) == *old(m),
                Err(CloakError::Conflict) => s.stored is Some && !(s.root is Empty) && *final(m)
                    == *old(m),
                Err(_) => false,
            }
        }),
{
    let idx_opt = find_slot(&m.slots, name);
    let i = match idx_opt {
        None => {
            proof {
                lemma_entry_at_absent(*m, name@);
            }
            return Err(CloakError::NotFound);
        },
        Some(i) => i,
    };
    proof {
        lemma_entry_at_index(*m, i as int);
    }
    if m.slots[i].stored.is_none() {
        return Err(CloakError::NotFound);
    }
    let vacant_root = match &m.slots[i].root {
        RootSlot::Empty => true,
        _ => false,
    };
    if !vacant_root {
        return Err(CloakError::Conflict);
    }
    let ghost pre = *m;
    let cross = m.cross_device;
    let slot = m.slots.remove(i);
    match slot.stored {
        Some(copy) => {
            let sp = move_path(
                MoveSpace { source: Some(copy.data), dest: None, same_device: !cross },
            );
            let moved = match sp.dest {
                Some(d) => d,
                None => {
                    proof {
                        assert(false);
                    }
                    TreeData { files: Vec::new() }
                },
            };
            let new_slot = Slot {
                name: slot.name,
                root: RootSlot::Real { data: moved, hidden: copy.hidden },
                stored: None,
            };
            m.slots.insert(i, new_slot);
            proof {
                assert(m.slots@ =~= pre.slots@.update(i as int, new_slot));
                lemma_entry_at_update(pre, *m, i as int);
                assert(entry_at(*final(m), name@) == egest_transition(entry_at(*old(m), name@)));
            }
            Ok(())
        },
        None => {
            proof {
                assert(false);
            }
            Err(CloakError::NotFound)
        },
    }
}

/// Create the ghost link at the root path, pointing at the storage
/// copy.  Fails with `Conflict` when anything at all stands at the
/// root path (even a dangling link blocks creation), and with
/// `NotFound` when the storage copy is missing; on failure nothing
/// changes.  The fresh link carries no hidden attribute yet.
pub fn create_ghost_link(m: &mut ProjectModel, name: &String) -> (r: Result<(), CloakError>)
    requires
        wf(*old(m)),
    ensures
        wf(*final(m)),
        final(m).attrs_supported == old(m).attrs_supported,
        final(m).cross_device == old(m).cross_device,
        final(m).storage_root == old(m).storage_root,
        ({
            let s = entry_at(*old(m), name@);
            match r {
                Ok(()) => {
                    &&& s.root is Empty && s.stored is Some
                    &&& entry_at(*final(m), name@) == link_transition(s)
                    &&& forall|n: Seq<char>|
                        n != name@ ==> #[trigger] entry_at(*final(m), n) == entry_at(*old(m), n)
                },
                Err(CloakError::Conflict) => !(s.root is Empty) && *final(m) == *old(m),
                Err(CloakError::NotFound) => s.root is Empty && s.stored is None && *final(m)
                    == *old(m),
                Err(_) => false,
            }
        }),
{
    let idx_opt = find_slot(&m.slots, name);
    let i = match idx_opt {
        None => {
            proof {
                lemma_entry_at_absent(*m, name@);
            }
            return Err(CloakError::NotFound);
        },
        Some(i) => i,
    };
    proof {
        lemma_entry_at_index(*m, i as int);
    }
    let vacant_root = match &m.slots[i].root {
        RootSlot::Empty => true,
        _ => false,
    };
    if !vacant_root {
        return Err(CloakError::Conflict);
    }
    if m.slots[i].stored.is_none() {
        return Err(CloakError::NotFound);
    }
    let ghost pre = *m;
    let slot = m.slots.remove(i);
    let new_slot = Slot {
        name: slot.name,
        root: RootSlot::StorageLink { hidden: false },
        stored: slot.stored,
    };
    m.slots.insert(i, new_slot);
    proof {
        assert(m.slots@ =~= pre.slots@.update(i as int, new_slot));
        lemma_entry_at_update(pre, *m, i as int);
    }
    Ok(())
}

/// Remove the ghost link at the root path.  Fails with `NotFound` when
/// nothing stands there, and refuses with `TypeMismatch` when the path
/// is a real file or directory rather than a link, so that user data
/// is never deleted; on failure nothing changes.  Storage is untouched
/// either way.
pub fn remove_ghost_link(m: &mut ProjectModel, name: &String) -> (r: Result<(), CloakError>)
    requires
        wf(*old(m)),
    ensures
        wf(*final(m)),
        final(m).attrs_supported == old(m).attrs_supported,
        final(m).cross_device == old(m).cross_device,
        final(m).storage_root == old(m).storage_root,
        ({
            let s = entry_at(*old(m), name@);
            match r {
                Ok(()) => {
                    &&& s.root is StorageLink
                    &&& entry_at(*final(m), name@) == unlink_transition(s)
                    &&& forall|n: Seq<char>|
                        n != name@ ==> #[trigger] entry_at(*final(m), n) == entry_at(*old(m), n)
                },
                Err(CloakError::NotFound) => s.root is Empty && *final(m) == *old(m),
                Err(CloakError::TypeMismatch) => s.root is Real && *final(m) == *old(m),
                Err(_) => false,
            }
        }),
{
    let idx_opt = find_slot(&m.slots, name);
    let i = match idx_opt {
        None => {
            proof {
                lemma_entry_at_absent(*m, name@);
            }
            return Err(CloakError::NotFound);
        },
        Some(i) => i,
    };
    proof {
        lemma_entry_at_index(*m, i as int);
    }
    match &m.slots[i].root {
        RootSlot::Empty => {
            return Err(CloakError::NotFound);
        },
        RootSlot::Real { .. } => {
            return Err(CloakError::TypeMismatch);
        },
        RootSlot::StorageLink { .. } => {},
    }
    let ghost pre = *m;
    let slot = m.slots.remove(i);
    let new_slot = Slot { name: slot.name, root: RootSlot::Empty, stored: slot.stored };
    m.slots.insert(i, new_slot);
    proof {
        assert(m.slots@ =~= pre.slots@.update(i as int, new_slot));
        lemma_entry_at_update(pre, *m, i as int);
    }
    Ok(())
}

/// Set or clear the OS hidden attribute on whatever stands at the root
/// path, operating on the entry itself, never through a link.  Where
/// the platform has no hidden attribute this is a documented no-op.
/// Where it has one, probing an empty root path fails with `NotFound`;
/// on failure nothing changes.
pub fn set_hidden(m: &mut ProjectModel, name: &String, hidden: bool) -> (r: Result<
    (),
    CloakError,
>)
    requires
        wf(*old(m)),
    ensures
        wf(*final(m)),
        final(m).attrs_supported == old(m).attrs_supported,
        final(m).cross_device == old(m).cross_device,
        final(m).storage_root == old(m).storage_root,
        ({
            let s = entry_at(*old(m), name@);
            match r {
                Ok(()) => {
                    &&& !old(m).attrs_supported || !(s.root is Empty)
                    &&& entry_at(*final(m), name@) == set_hidden_transition(
                        s,
                        old(m).attrs_supported,
                        hidden,
                    )
                    &&& forall|n: Seq<char>|
                        n != name@ ==> #[trigger] entry_at(*final(m), n) == entry_at(*old(m), n)
                },
                Err(CloakError::NotFound) => old(m).attrs_supported && s.root is Empty && *final(m)
                    == *old(m),
                Err(_) => false,
            }
        }),
{
    if !m.attrs_supported {
        return Ok(());
    }
    let idx_opt = find_slot(&m.slots, name);
    let i = match idx_opt {
        None => {
            proof {
                lemma_entry_at_absent(*m, name@);
            }
            return Err(CloakError::NotFound);
        },
        Some(i) => i,
    };
    proof {
        lemma_entry_at_index(*m, i as int);
    }
    let vacant_root = match &m.slots[i].root {
        RootSlot::Empty => true,
        _ => false,
    };
    if vacant_root {
        return Err(CloakError::NotFound);
    }
    let ghost pre = *m;
    let slot = m.slots.remove(i);
    match slot.root {
        RootSlot::Empty => {
            proof {
                assert(false);
            }
            m.slots.insert(i, slot);
            Err(CloakError::NotFound)
        },
        RootSlot::Real { data, .. } => {
            let new_slot = Slot {
                name: slot.name,
                root: RootSlot::Real { data, hidden },
                stored: slot.stored,
            };
            m.slots.insert(i, new_slot);
            proof {
                assert(m.slots@ =~= pre.slots@.update(i as int, new_slot));
                lemma_entry_at_update(pre, *m, i as int);
            }
            Ok(())
        },
        RootSlot::StorageLink { .. } => {
            let new_slot = Slot {
                name: slot.name,
                root: RootSlot::StorageLink { hidden },
                stored: slot.stored,
            };
            m.slots.insert(i, new_slot);
            proof {
                assert(m.slots@ =~= pre.slots@.update(i as int, new_slot));
                lemma_entry_at_update(pre, *m, i as int);
            }
            Ok(())
        },
    }
}

/// Apply the hidden attribute to the root path, so the entry vanishes
/// from casual listings.
pub fn hide_path(m: &mut ProjectModel, name: &String) -> (r: Result<(), CloakError>)
    requires
        wf(*old(m)),
    ensures
        wf(*final(m)),
        final(m).attrs_supported == old(m).attrs_supported,
        final(m).cross_device == old(m).cross_device,
        final(m).storage_root == old(m).storage_root,
        ({
            let s = entry_at(*old(m), name@);
            match r {
                Ok(()) => {
                    &&& !old(m).attrs_supported || !(s.root is Empty)
                    &&& entry_at(*final(m), name@) == set_hidden_transition(
                        s,
                        old(m).attrs_supported,
                        true,
                    )
                    &&& forall|n: Seq<char>|
                        n != name@ ==> #[trigger] entry_at(*final(m), n) == entry_at(*old(m), n)
                },
                Err(CloakError::NotFound) => old(m).attrs_supported && s.root is Empty && *final(m)
                    == *old(m),
                Err(_) => false,
            }
        }),
{
    set_hidden(m, name, true)
}

/// Clear the hidden attribute from the root path.
pub fn unhide_path(m: &mut ProjectModel, name: &String) -> (r: Result<(), CloakError>)
    requires
        wf(*old(m)),
    ensures
        wf(*final(m)),
        final(m).attrs_supported == old(m).attrs_supported,
        final(m).cross_device == old(m).cross_device,
        final(m).storage_root == old(m).storage_root,
        ({
            let s = entry_at(*old(m), name@);
            match r {
                Ok(()) => {
                    &&& !old(m).attrs_supported || !(s.root is Empty)
                    &&& entry_at(*final(m), name@) == set_hidden_transition(
                        s,
                        old(m).attrs_supported,
                        false,
                    )
                    &&& forall|n: Seq<char>|
                        n != name@ ==> #[trigger] entry_at(*final(m), n) == entry_at(*old(m), n)
                },
                Err(CloakError::NotFound) => old(m).attrs_supported && s.root is Empty && *final(m)
                    == *old(m),
                Err(_) => false,
            }
        }),
{
    set_hidden(m, name, false)
}

/// A real entry appears at the root path under `name`: the way a model
/// of a project root is populated.  Fails with `Conflict` when the
/// root path is already occupied.
pub fn place_real_entry(m: &mut ProjectModel, name: &String, data: TreeData) -> (r: Result<
    (),
    CloakError,
>)
    requires
        wf(*old(m)),
    ensures
        wf(*final(m)),
        final(m).attrs_supported == old(m).attrs_supported,
        final(m).cross_device == old(m).cross_device,
        final(m).storage_root == old(m).storage_root,
        ({
            let s = entry_at(*old(m), name@);
            match r {
                Ok(()) => {
                    &&& s.root is Empty
                    &&& entry_at(*final(m), name@) == (SlotV {
                        root: RootV::Real { data: data@, hidden: false },
                        stored: s.stored,
                    })
                    &&& forall|n: Seq<char>|
                        n != name@ ==> #[trigger] entry_at(*final(m), n) == entry_at(*old(m), n)
                },
                Err(CloakError::Conflict) => !(s.root is Empty) && *final(m) == *old(m),
                Err(_) => false,
            }
        }),
{
    let idx_opt = find_slot(&m.slots, name);
    let i = match idx_opt {
        None => {
            proof {
                lemma_entry_at_absent(*m, name@);
            }
            let ghost pre = *m;
            let new_slot = Slot {
                name: name.clone(),
                root: RootSlot::Real { data, hidden: false },
                stored: None,
            };
            m.slots.push(new_slot);
            proof {
                lemma_entry_at_push(pre, *m, new_slot);
            }
            return Ok(());
        },
        Some(i) => i,
    };
    proof {
        lemma_entry_at_index(*m, i as int);
    }
    let vacant_root = match &m.slots[i].root {
        RootSlot::Empty => true,
        _ => false,
    };
    if !vacant_root {
        return Err(CloakError::Conflict);
    }
    let ghost pre = *m;
    let slot = m.slots.remove(i);
    let new_slot = Slot {
        name: slot.name,
        root: RootSlot::Real { data, hidden: false },
        stored: slot.stored,
    };
    m.slots.insert(i, new_slot);
    proof {
        assert(m.slots@ =~= pre.slots@.update(i as int, new_slot));
        lemma_entry_at_update(pre, *m, i as int);
    }
    Ok(())
}

/// The storage copy under `name` disappears without the engine's
/// doing: the way an external deletion of storage is modelled.  Fails
/// with `NotFound` when no copy lies there.
pub fn drop_stored(m: &mut ProjectModel, name: &String) -> (r: Result<(), CloakError>)
    requires
        wf(*old(m)),
    ensures
        wf(*final(m)),
        final(m).attrs_supported == old(m).attrs_supported,
        final(m).cross_device == old(m).cross_device,
        final(m).storage_root == old(m).storage_root,
        ({
            let s = entry_at(*old(m), name@);
            match r {
                Ok(()) => {
                    &&& s.stored is Some
                    &&& entry_at(*final(m), name@) == (SlotV { root: s.root, stored: None })
                    &&& forall|n: Seq<char>|
                        n != name@ ==> #[trigger] entry_at(*final(m), n) == entry_at(*old(m), n)
                },
                Err(CloakError::NotFound) => s.stored is None && *final(m) == *old(m),
                Err(_) => false,
            }
        }),
{
    let idx_opt = find_slot(&m.slots, name);
    let i = match idx_opt {
        None => {
            proof {
                lemma_entry_at_absent(*m, name@);
            }
            return Err(CloakError::NotFound);
        },
        Some(i) => i,
    };
    proof {
        lemma_entry_at_index(*m, i as int);
    }
    if m.slots[i].stored.is_none() {
        return Err(CloakError::NotFound);
    }
    let ghost pre = *m;
    let slot = m.slots.remove(i);
    let new_slot = Slot { name: slot.name, root: slot.root, stored: None };
    m.slots.insert(i, new_slot);
    proof {
        assert(m.slots@ =~= pre.slots@.update(i as int, new_slot));
        lemma_entry_at_update(pre, *m, i as int);
    }
    Ok(())
}

} // verus!
