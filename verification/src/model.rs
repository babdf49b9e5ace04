use vstd::prelude::*;

use crate::tree::FileV;
use crate::tree::TreeData;

verus! {

/// What stands at the project root under a managed name.
pub enum RootSlot {
    /// Nothing at all, not even a dangling link.
    Empty,
    /// A real file or directory with the given content.  `hidden` is
    /// the OS hidden attribute on it.
    Real { data: TreeData, hidden: bool },
    /// A symbolic link (or junction) whose target is the storage path
    /// for this name.  `hidden` is the attribute on the link itself,
    /// not on its target.
    StorageLink { hidden: bool },
}

/// The storage copy of a managed entry: the real content, keyed under
/// the entry's name inside the storage root.
pub struct StoredCopy {
    pub data: TreeData,
    pub hidden: bool,
}

/// One top-level name of the project root, with everything the engine
/// tracks about it: what stands at the root path and what lies in
/// storage.
pub struct Slot {
    pub name: String,
    pub root: RootSlot,
    pub stored: Option<StoredCopy>,
}

/// Mathematical state of a root path.
pub enum RootV {
    Empty,
    Real { data: Seq<FileV>, hidden: bool },
    StorageLink { hidden: bool },
}

/// Mathematical state of one name: its root path and its storage copy.
pub struct SlotV {
    pub root: RootV,
    pub stored: Option<(Seq<FileV>, bool)>,
}

pub open spec fn root_view(r: RootSlot) -> RootV {
    match r {
        RootSlot::Empty => RootV::Empty,
        RootSlot::Real { data, hidden } => RootV::Real { data: data@, hidden },
        RootSlot::StorageLink { hidden } => RootV::StorageLink { hidden },
    }
}

pub open spec fn slot_view(s: Slot) -> SlotV {
    SlotV {
        root: root_view(s.root),
        stored: match s.stored {
            Some(c) => Some((c.data@, c.hidden)),
            None => None,
        },
    }
}

/// A name under which nothing stands anywhere.
pub open spec fn vacant() -> SlotV {
    SlotV { root: RootV::Empty, stored: None }
}

/// Whether the root path exists when probed through links: a real
/// entry always does; a link to storage resolves exactly when the
/// storage copy exists; an empty slot does not.
pub open spec fn root_resolves(s: SlotV) -> bool {
    match s.root {
        RootV::Real { .. } => true,
        RootV::StorageLink { .. } => s.stored is Some,
        RootV::Empty => false,
    }
}

/// The slice of the filesystem that the engine touches: the storage
/// area and the project root's top-level entries.
pub struct ProjectModel {
    /// The storage root directory exists.
    pub storage_root: bool,
    /// The platform has an OS-level hidden attribute.  Where it has
    /// none, hiding is a no-op and dotfile naming does the work.
    pub attrs_supported: bool,
    /// The storage area lies on another storage device than the
    /// project root, so moves into and out of it cannot be renames.
    pub cross_device: bool,
    /// The names the engine tracks, each at most once.
    pub slots: Vec<Slot>,
}

/// Names are distinct, and a storage copy can only lie inside an
/// existing storage root.
pub open spec fn wf(m: ProjectModel) -> bool {
    &&& forall|i: int, j: int|
        0 <= i < j < m.slots@.len() ==> #[trigger] m.slots@[i].name@ != #[trigger] m.slots@[j].name@
    &&& (forall|i: int|
        0 <= i < m.slots@.len() && #[trigger] m.slots@[i].stored is Some ==> m.storage_root)
}

pub open spec fn has_entry(slots: Seq<Slot>, n: Seq<char>) -> bool {
    exists|i: int| 0 <= i < slots.len() && #[trigger] slots[i].name@ == n
}

pub open spec fn index_of_name(slots: Seq<Slot>, n: Seq<char>) -> int {
    choose|i: int| 0 <= i < slots.len() && #[trigger] slots[i].name@ == n
}

/// The state of one name in the model; a name without a slot is vacant.
pub open spec fn entry_at(m: ProjectModel, n: Seq<char>) -> SlotV {
    if has_entry(m.slots@, n) {
        slot_view(m.slots@[index_of_name(m.slots@, n)])
    } else {
        vacant()
    }
}

/// A slot's own view is the state of its name.
pub proof fn lemma_entry_at_index(m: ProjectModel, i: int)
    requires
        wf(m),
        0 <= i < m.slots@.len(),
    ensures
        entry_at(m, m.slots@[i].name@) == slot_view(m.slots@[i]),
{
    let n = m.slots@[i].name@;
    assert(has_entry(m.slots@, n));
    let j = index_of_name(m.slots@, n);
    assert(0 <= j < m.slots@.len() && m.slots@[j].name@ == n);
    if i < j {
        assert(m.slots@[i].name@ != m.slots@[j].name@);
    } else if j < i {
        assert(m.slots@[j].name@ != m.slots@[i].name@);
    }
}

/// A name without a slot is vacant.
pub proof fn lemma_entry_at_absent(m: ProjectModel, n: Seq<char>)
    requires
        !has_entry(m.slots@, n),
    ensures
        entry_at(m, n) == vacant(),
{
}

/// Replacing one slot with another of the same name changes that
/// name's state alone.
pub proof fn lemma_entry_at_update(m1: ProjectModel, m2: ProjectModel, i: int)
    requires
        wf(m1),
        0 <= i < m1.slots@.len(),
        m2.slots@.len() == m1.slots@.len(),
        m2.slots@[i].name@ == m1.slots@[i].name@,
        forall|k: int| 0 <= k < m1.slots@.len() && k != i ==> m2.slots@[k] == m1.slots@[k],
        forall|k: int|
            0 <= k < m2.slots@.len() && #[trigger] m2.slots@[k].stored is Some
                ==> m2.storage_root,
    ensures
        wf(m2),
        entry_at(m2, m1.slots@[i].name@) == slot_view(m2.slots@[i]),
        forall|n: Seq<char>|
            n != m1.slots@[i].name@ ==> #[trigger] entry_at(m2, n) == entry_at(m1, n),
{
    assert(forall|k: int|
        0 <= k < m1.slots@.len() ==> #[trigger] m2.slots@[k].name@ == m1.slots@[k].name@);
    assert(wf(m2));
    lemma_entry_at_index(m2, i);
    assert forall|n: Seq<char>|
        n != m1.slots@[i].name@ implies #[trigger] entry_at(m2, n) == entry_at(m1, n) by {
        if has_entry(m1.slots@, n) {
            let j = index_of_name(m1.slots@, n);
            assert(0 <= j < m1.slots@.len() && m1.slots@[j].name@ == n);
            assert(j != i);
            assert(m2.slots@[j].name@ == n);
            assert(has_entry(m2.slots@, n));
            let j2 = index_of_name(m2.slots@, n);
            assert(0 <= j2 < m2.slots@.len() && m2.slots@[j2].name@ == n);
            if j2 < j {
                assert(m2.slots@[j2].name@ != m2.slots@[j].name@);
            } else if j < j2 {
                assert(m2.slots@[j].name@ != m2.slots@[j2].name@);
            }
            assert(m2.slots@[j2] == m1.slots@[j]);
        } else {
            assert(!has_entry(m2.slots@, n)) by {
                if has_entry(m2.slots@, n) {
                    let j2 = index_of_name(m2.slots@, n);
                    assert(0 <= j2 < m2.slots@.len() && m2.slots@[j2].name@ == n);
                    assert(m1.slots@[j2].name@ == n);
                    assert(has_entry(m1.slots@, n));
                }
            }
        }
    }
}

/// Adding a slot under a fresh name changes that name's state alone.
pub proof fn lemma_entry_at_push(m1: ProjectModel, m2: ProjectModel, s: Slot)
    requires
        wf(m1),
        !has_entry(m1.slots@, s.name@),
        m2.slots@ == m1.slots@.push(s),
        s.stored is Some ==> m2.storage_root,
        m1.storage_root ==> m2.storage_root,
    ensures
        wf(m2),
        entry_at(m2, s.name@) == slot_view(s),
        forall|n: Seq<char>| n != s.name@ ==> #[trigger] entry_at(m2, n) == entry_at(m1, n),
{
    let len1 = m1.slots@.len() as int;
    assert(forall|k: int| 0 <= k < len1 ==> m2.slots@[k] == m1.slots@[k]);
    assert(m2.slots@[len1] == s);
    assert(wf(m2)) by {
        assert forall|i: int, j: int|
            0 <= i < j < m2.slots@.len() implies #[trigger] m2.slots@[i].name@
            != #[trigger] m2.slots@[j].name@ by {
            if j < len1 {
            } else {
                assert(m2.slots@[j] == s);
                if m1.slots@[i].name@ == s.name@ {
                    assert(has_entry(m1.slots@, s.name@));
                }
            }
        }
        assert forall|i: int|
            0 <= i < m2.slots@.len() && #[trigger] m2.slots@[i].stored is Some
            implies m2.storage_root by {
            if i < len1 {
                assert(m1.slots@[i].stored is Some);
            }
        }
    }
    lemma_entry_at_index(m2, len1);
    assert forall|n: Seq<char>|
        n != s.name@ implies #[trigger] entry_at(m2, n) == entry_at(m1, n) by {
        if has_entry(m1.slots@, n) {
            let j = index_of_name(m1.slots@, n);
            assert(0 <= j < len1 && m1.slots@[j].name@ == n);
            assert(m2.slots@[j].name@ == n);
            assert(has_entry(m2.slots@, n));
            let j2 = index_of_name(m2.slots@, n);
            assert(0 <= j2 < m2.slots@.len() && m2.slots@[j2].name@ == n);
            assert(j2 != len1);
            if j2 < j {
                assert(m2.slots@[j2].name@ != m2.slots@[j].name@);
            } else if j < j2 {
                assert(m2.slots@[j].name@ != m2.slots@[j2].name@);
            }
            assert(m2.slots@[j2] == m1.slots@[j]);
        } else {
            assert(!has_entry(m2.slots@, n)) by {
                if has_entry(m2.slots@, n) {
                    let j2 = index_of_name(m2.slots@, n);
                    assert(0 <= j2 < m2.slots@.len() && m2.slots@[j2].name@ == n);
                    assert(j2 != len1);
                    assert(m1.slots@[j2].name@ == n);
                    assert(has_entry(m1.slots@, n));
                }
            }
        }
    }
}

/// Find the slot that carries `name`, if any.
pub fn find_slot(slots: &Vec<Slot>, name: &String) -> (r: Option<usize>)
    ensures
        match r {
            Some(i) => i < slots@.len() && slots@[i as int].name@ == name@,
            None => !has_entry(slots@, name@),
        },
{
    let mut i: usize = 0;
    while i < slots.len()
        invariant
            i <= slots@.len(),
            forall|k: int| 0 <= k < i ==> #[trigger] slots@[k].name@ != name@,
        decreases slots@.len() - i,
    {
        if slots[i].name == *name {
            return Some(i);
        }
        i += 1;
    }
    None
}

} // verus!
