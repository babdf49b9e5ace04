use vstd::prelude::*;

use crate::model::ProjectModel;
use crate::model::RootSlot;
use crate::model::Slot;
use crate::model::SlotV;
use crate::model::entry_at;
use crate::model::has_entry;
use crate::model::index_of_name;
use crate::model::lemma_entry_at_index;
use crate::model::slot_view;
use crate::model::wf;

verus! {

/// Health of one managed name, recomputed on every status query.
#[derive(Clone, Copy, Debug, PartialEq, Eq, Structural)]
pub enum LinkHealth {
    /// The storage copy exists and a link stands at the root path.
    Linked,
    /// The storage copy exists but no link stands at the root path.
    Broken,
    /// A link stands at the root path but its storage copy is gone.
    Orphaned,
}

/// One line of a status report.
pub struct StatusEntry {
    pub name: String,
    pub health: LinkHealth,
}

impl View for StatusEntry {
    type V = (Seq<char>, LinkHealth);

    open spec fn view(&self) -> (Seq<char>, LinkHealth) {
        (self.name@, self.health)
    }
}

/// The classification of one name, or `None` when there is nothing to
/// report: no storage copy and no link.
pub open spec fn health_of(s: SlotV) -> Option<LinkHealth> {
    if s.stored is Some {
        if s.root is StorageLink {
            Some(LinkHealth::Linked)
        } else {
            Some(LinkHealth::Broken)
        }
    } else if s.root is StorageLink {
        Some(LinkHealth::Orphaned)
    } else {
        None
    }
}

/// The classification of one name in a model.
pub open spec fn health_at(m: ProjectModel, n: Seq<char>) -> Option<LinkHealth> {
    health_of(entry_at(m, n))
}

/// The status report over a sequence of slots, in slot order: one pair
/// per name that has something to report.
pub open spec fn report_spec(slots: Seq<Slot>) -> Seq<(Seq<char>, LinkHealth)>
    decreases slots.len(),
{
    if slots.len() == 0 {
        Seq::empty()
    } else {
        let prefix = report_spec(slots.drop_last());
        match health_of(slot_view(slots.last())) {
            Some(h) => prefix.push((slots.last().name@, h)),
            None => prefix,
        }
    }
}

/// Status reconciliation: probe every tracked name and classify it.
/// Purely observational; the model is not changed.
pub fn status(m: &ProjectModel) -> (r: Vec<StatusEntry>)
    ensures
        r@.map_values(|e: StatusEntry| e@) == report_spec(m.slots@),
{
    let mut r: Vec<StatusEntry> = Vec::new();
    let mut i: usize = 0;
    while i < m.slots.len()
        invariant
            i <= m.slots@.len(),
            r@.map_values(|e: StatusEntry| e@) == report_spec(m.slots@.take(i as int)),
        decreases m.slots@.len() - i,
    {
        let ghost prev = r@.map_values(|e: StatusEntry| e@);
        let has_stored = m.slots[i].stored.is_some();
        let is_link = match &m.slots[i].root {
            RootSlot::StorageLink { .. } => true,
            _ => false,
        };
        let health_opt: Option<LinkHealth> = if has_stored {
            if is_link {
                Some(LinkHealth::Linked)
            } else {
                Some(LinkHealth::Broken)
            }
        } else if is_link {
            Some(LinkHealth::Orphaned)
        } else {
            None
        };
        match health_opt {
            Some(h) => {
                r.push(StatusEntry { name: m.slots[i].name.clone(), health: h });
            },
            None => {},
        }
        proof {
            let taken = m.slots@.take(i + 1);
            assert(taken.drop_last() =~= m.slots@.take(i as int));
            assert(taken.last() == m.slots@[i as int]);
            assert(health_opt == health_of(slot_view(m.slots@[i as int])));
            match health_opt {
                Some(h) => {
                    assert(r@.map_values(|e: StatusEntry| e@) =~= prev.push(
                        (m.slots@[i as int].name@, h),
                    ));
                },
                None => {},
            }
        }
        i += 1;
    }
    proof {
        assert(m.slots@.take(m.slots@.len() as int) =~= m.slots@);
    }
    r
}

/// Every slot with something to report appears in the report under its
/// own name and health.
pub proof fn lemma_report_contains(slots: Seq<Slot>, i: int)
    requires
        0 <= i < slots.len(),
        health_of(slot_view(slots[i])) is Some,
    ensures
        report_spec(slots).contains((slots[i].name@, health_of(slot_view(slots[i]))->0)),
    decreases slots.len(),
{
    let pair = (slots[i].name@, health_of(slot_view(slots[i]))->0);
    if i == slots.len() - 1 {
        let prefix = report_spec(slots.drop_last());
        assert(slots.last() == slots[i]);
        assert(report_spec(slots) == prefix.push(pair));
        assert(report_spec(slots)[prefix.len() as int] == pair);
    } else {
        lemma_report_contains(slots.drop_last(), i);
        let prefix = report_spec(slots.drop_last());
        let j = choose|j: int| 0 <= j < prefix.len() && prefix[j] == pair;
        match health_of(slot_view(slots.last())) {
            Some(h) => {
                assert(report_spec(slots) == prefix.push((slots.last().name@, h)));
                assert(report_spec(slots)[j] == pair);
            },
            None => {
                assert(report_spec(slots) == prefix);
            },
        }
    }
}

/// The report invents nothing: every line of it is the name and
/// health of some tracked slot whose state calls for a report.
pub proof fn lemma_report_sound(slots: Seq<Slot>, k: int)
    requires
        0 <= k < report_spec(slots).len(),
    ensures
        exists|i: int|
            {
                &&& 0 <= i < slots.len()
                &&& health_of(slot_view(#[trigger] slots[i])) is Some
                &&& report_spec(slots)[k] == (
                    slots[i].name@,
                    health_of(slot_view(slots[i]))->0,
                )
            },
    decreases slots.len(),
{
    let prefix = report_spec(slots.drop_last());
    let last = slots.last();
    match health_of(slot_view(last)) {
        Some(h) => {
            assert(report_spec(slots) == prefix.push((last.name@, h)));
            if k < prefix.len() {
                lemma_report_sound(slots.drop_last(), k);
                let i0 = choose|i: int|
                    {
                        &&& 0 <= i < slots.drop_last().len()
                        &&& health_of(slot_view(#[trigger] slots.drop_last()[i])) is Some
                        &&& report_spec(slots.drop_last())[k] == (
                            slots.drop_last()[i].name@,
                            health_of(slot_view(slots.drop_last()[i]))->0,
                        )
                    };
                assert(slots.drop_last()[i0] == slots[i0]);
                assert(report_spec(slots)[k] == prefix[k]);
                assert(health_of(slot_view(slots[i0])) is Some && report_spec(slots)[k] == (
                    slots[i0].name@,
                    health_of(slot_view(slots[i0]))->0,
                ));
            } else {
                let i0 = slots.len() - 1;
                assert(slots[i0] == last);
                assert(report_spec(slots)[k] == (last.name@, h));
                assert(health_of(slot_view(slots[i0])) is Some && report_spec(slots)[k] == (
                    slots[i0].name@,
                    health_of(slot_view(slots[i0]))->0,
                ));
            }
        },
        None => {
            assert(report_spec(slots) == prefix);
            lemma_report_sound(slots.drop_last(), k);
            let i0 = choose|i: int|
                {
                    &&& 0 <= i < slots.drop_last().len()
                    &&& health_of(slot_view(#[trigger] slots.drop_last()[i])) is Some
                    &&& report_spec(slots.drop_last())[k] == (
                        slots.drop_last()[i].name@,
                        health_of(slot_view(slots.drop_last()[i]))->0,
                    )
                };
            assert(slots.drop_last()[i0] == slots[i0]);
            assert(health_of(slot_view(slots[i0])) is Some && report_spec(slots)[k] == (
                slots[i0].name@,
                health_of(slot_view(slots[i0]))->0,
            ));
        },
    }
}

/// What the status verb reports about a name follows from that name's
/// state alone: any tracked name whose state calls for a report is in
/// the report, under exactly the health its state gives.
pub proof fn lemma_status_complete(m: ProjectModel, n: Seq<char>)
    requires
        wf(m),
        has_entry(m.slots@, n),
        health_at(m, n) is Some,
    ensures
        report_spec(m.slots@).contains((n, health_at(m, n)->0)),
{
    let i = index_of_name(m.slots@, n);
    assert(0 <= i < m.slots@.len() && m.slots@[i].name@ == n);
    lemma_entry_at_index(m, i);
    lemma_report_contains(m.slots@, i);
}

} // verus!
