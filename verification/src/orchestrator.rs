use vstd::prelude::*;

use crate::engine::create_ghost_link;
use crate::engine::egest;
use crate::engine::egest_transition;
use crate::engine::ensure_storage_dir;
use crate::engine::hide_path;
use crate::engine::ingest;
use crate::engine::ingest_transition;
use crate::engine::link_transition;
use crate::engine::remove_ghost_link;
use crate::engine::set_hidden_transition;
use crate::engine::unhide_path;
use crate::engine::unlink_transition;
use crate::errors::BatchFailure;
use crate::errors::CloakError;
use crate::errors::Step;
use crate::errors::StepFailure;
use crate::model::ProjectModel;
use crate::model::RootV;
use crate::model::SlotV;
use crate::model::entry_at;
use crate::model::root_resolves;
use crate::model::wf;
use crate::status::LinkHealth;
use crate::status::health_of;
use crate::validate::name_error;
use crate::validate::valid_name;
use crate::validate::validate_target;

verus! {

/// The state of a name after a completed hide: ingest, then link, then
/// the hidden attribute.
pub open spec fn hide_chain(s: SlotV, attrs_supported: bool) -> SlotV {
    set_hidden_transition(link_transition(ingest_transition(s)), attrs_supported, true)
}

/// The state of a name after a completed restore: the hidden attribute
/// cleared, then the link removed, then the entry egested.
pub open spec fn unhide_chain(s: SlotV, attrs_supported: bool) -> SlotV {
    egest_transition(unlink_transition(set_hidden_transition(s, attrs_supported, false)))
}

/// Hide one target: validate the name, auto-initialize storage if
/// need be, then ingest, link and hide, strictly in that order, so
/// that each step's precondition is the previous step's postcondition.
/// On the first failing step the operation stops and reports that
/// step; nothing is rolled back.  Succeeds exactly on a valid name
/// whose root path resolves to a real entry not yet in storage; only
/// validation and ingest can fail.  A conflict (the name is already
/// hidden) mutates nothing at all.
pub fn hide_target(m: &mut ProjectModel, name: &String) -> (r: Result<(), StepFailure>)
    requires
        wf(*old(m)),
    ensures
        wf(*final(m)),
        final(m).attrs_supported == old(m).attrs_supported,
        final(m).cross_device == old(m).cross_device,
        ({
            let s = entry_at(*old(m), name@);
            match r {
                Ok(()) => {
                    &&& valid_name(name@) && root_resolves(s) && s.stored is None
                    &&& final(m).storage_root
                    &&& entry_at(*final(m), name@) == hide_chain(s, old(m).attrs_supported)
                    &&& forall|n: Seq<char>|
                        n != name@ ==> #[trigger] entry_at(*final(m), n) == entry_at(*old(m), n)
                },
                Err(f) => {
                    &&& (f.step == Step::Validate || f.step == Step::Ingest)
                    &&& f.step == Step::Validate ==> !valid_name(name@) && f.error
                        == CloakError::Validation(name_error(name@)->0) && *final(m) == *old(m)
                    &&& f.step == Step::Ingest ==> {
                        &&& valid_name(name@)
                        &&& final(m).slots == old(m).slots
                        &&& final(m).storage_root
                        &&& (f.error == CloakError::NotFound || f.error == CloakError::Conflict)
                        &&& (f.error == CloakError::NotFound <==> !root_resolves(s))
                        &&& (f.error == CloakError::Conflict <==> root_resolves(s) && s.stored
                            is Some)
                    }
                    &&& f.error == CloakError::Conflict ==> *final(m) == *old(m)
                },
            }
        }),
{
    match validate_target(name.as_str()) {
        Err(e) => {
            return Err(StepFailure { step: Step::Validate, error: CloakError::Validation(e) });
        },
        Ok(()) => {},
    }
    if !m.storage_root {
        ensure_storage_dir(m);
    }
    let ghost m1 = *m;
    proof {
        assert(forall|n: Seq<char>| #[trigger] entry_at(m1, n) == entry_at(*old(m), n));
    }
    match ingest(m, name) {
        Err(e) => {
            return Err(StepFailure { step: Step::Ingest, error: e });
        },
        Ok(()) => {},
    }
    let ghost m2 = *m;
    match create_ghost_link(m, name) {
        Err(e) => {
            proof {
                assert(false);
            }
            return Err(StepFailure { step: Step::Link, error: e });
        },
        Ok(()) => {},
    }
    let ghost m3 = *m;
    match hide_path(m, name) {
        Err(e) => {
            proof {
                assert(false);
            }
            return Err(StepFailure { step: Step::Hide, error: e });
        },
        Ok(()) => {},
    }
    Ok(())
}

/// Restore one target: clear the hidden attribute, remove the ghost
/// link, then egest the storage copy, strictly in that order, so the
/// content is reachable through at least one path at every instant.
/// On the first failing step the operation stops and reports that
/// step; nothing is rolled back.  Succeeds exactly when a link stands
/// at the root and the storage copy exists.  When the root path holds
/// a real entry instead of a link, the removal step refuses with a
/// type mismatch and the storage copy is left untouched.
pub fn unhide_target(m: &mut ProjectModel, name: &String) -> (r: Result<(), StepFailure>)
    requires
        wf(*old(m)),
    ensures
        wf(*final(m)),
        final(m).attrs_supported == old(m).attrs_supported,
        final(m).cross_device == old(m).cross_device,
        final(m).storage_root == old(m).storage_root,
        ({
            let s = entry_at(*old(m), name@);
            let attrs = old(m).attrs_supported;
            match r {
                Ok(()) => {
                    &&& s.root is StorageLink && s.stored is Some
                    &&& entry_at(*final(m), name@) == unhide_chain(s, attrs)
                    &&& forall|n: Seq<char>|
                        n != name@ ==> #[trigger] entry_at(*final(m), n) == entry_at(*old(m), n)
                },
                Err(f) => {
                    &&& f.step == Step::Unhide ==> attrs && s.root is Empty && f.error
                        == CloakError::NotFound && *final(m) == *old(m)
                    &&& f.step == Step::Unlink ==> {
                        &&& entry_at(*final(m), name@) == set_hidden_transition(s, attrs, false)
                        &&& forall|n: Seq<char>|
                            n != name@ ==> #[trigger] entry_at(*final(m), n) == entry_at(
                                *old(m),
                                n,
                            )
                        &&& (f.error == CloakError::NotFound || f.error
                            == CloakError::TypeMismatch)
                        &&& (f.error == CloakError::NotFound <==> !attrs && s.root is Empty)
                        &&& (f.error == CloakError::TypeMismatch <==> s.root is Real)
                    }
                    &&& f.step == Step::Egest ==> {
                        &&& s.root is StorageLink && s.stored is None && f.error
                            == CloakError::NotFound
                        &&& entry_at(*final(m), name@) == unlink_transition(
                            set_hidden_transition(s, attrs, false),
                        )
                        &&& forall|n: Seq<char>|
                            n != name@ ==> #[trigger] entry_at(*final(m), n) == entry_at(
                                *old(m),
                                n,
                            )
                    }
                    &&& (f.step == Step::Unhide || f.step == Step::Unlink || f.step == Step::Egest)
                    &&& f.error == CloakError::TypeMismatch ==> entry_at(*final(m), name@).stored
                        == s.stored
                },
            }
        }),
{
    match unhide_path(m, name) {
        Err(e) => {
            return Err(StepFailure { step: Step::Unhide, error: e });
        },
        Ok(()) => {},
    }
    let ghost m1 = *m;
    match remove_ghost_link(m, name) {
        Err(e) => {
            return Err(StepFailure { step: Step::Unlink, error: e });
        },
        Ok(()) => {},
    }
    let ghost m2 = *m;
    match egest(m, name) {
        Err(e) => {
            proof {
                assert(entry_at(m2, name@).root is Empty);
            }
            return Err(StepFailure { step: Step::Egest, error: e });
        },
        Ok(()) => {},
    }
    Ok(())
}

/// Whether `n` names one of the first `k` targets of a batch.
pub open spec fn among_first(names: Seq<String>, k: int, n: Seq<char>) -> bool {
    exists|j: int| 0 <= j < k && #[trigger] names[j]@ == n
}

/// The batch's targets all differ, so each owns its own slot.
pub open spec fn distinct_names(names: Seq<String>) -> bool {
    forall|i: int, j: int|
        0 <= i < j < names.len() ==> #[trigger] names[i]@ != #[trigger] names[j]@
}

/// Hide a whole batch of targets.  Every name is validated before any
/// side effect, so one bad name aborts the batch with nothing
/// changed.  Then the targets are processed strictly in order, each
/// completing its whole step sequence before the next begins; the
/// first failure stops the batch and names the failing target, with
/// the targets before it fully migrated and those after it untouched.
pub fn hide_batch(m: &mut ProjectModel, names: &Vec<String>) -> (r: Result<(), BatchFailure>)
    requires
        wf(*old(m)),
    ensures
        wf(*final(m)),
        final(m).attrs_supported == old(m).attrs_supported,
        final(m).cross_device == old(m).cross_device,
        ({
            let attrs = old(m).attrs_supported;
            match r {
                Ok(()) => {
                    &&& forall|j: int| 0 <= j < names@.len() ==> valid_name(#[trigger] names@[j]@)
                    &&& names@.len() > 0 ==> final(m).storage_root
                    &&& distinct_names(names@)
                    &&& forall|n: Seq<char>|
                        !among_first(names@, names@.len() as int, n) ==> #[trigger] entry_at(
                            *final(m),
                            n,
                        ) == entry_at(*old(m), n)
                    &&& forall|j: int|
                        0 <= j < names@.len() ==> #[trigger] entry_at(*final(m), names@[j]@)
                            == hide_chain(entry_at(*old(m), names@[j]@), attrs)
                },
                Err(b) => {
                    &&& b.index < names@.len()
                    &&& (b.failure.step == Step::Validate || b.failure.step == Step::Ingest)
                    &&& b.failure.step == Step::Validate ==> {
                        &&& !valid_name(names@[b.index as int]@)
                        &&& forall|j: int| 0 <= j < b.index ==> valid_name(#[trigger] names@[j]@)
                        &&& b.failure.error == CloakError::Validation(
                            name_error(names@[b.index as int]@)->0,
                        )
                        &&& *final(m) == *old(m)
                    }
                    &&& b.failure.step == Step::Ingest ==> {
                        let nk = names@[b.index as int]@;
                        let s_k = if among_first(names@, b.index as int, nk) {
                            hide_chain(entry_at(*old(m), nk), attrs)
                        } else {
                            entry_at(*old(m), nk)
                        };
                        &&& forall|j: int|
                            0 <= j < names@.len() ==> valid_name(#[trigger] names@[j]@)
                        &&& final(m).storage_root
                        &&& forall|i: int, j: int|
                            0 <= i < j < b.index ==> #[trigger] names@[i]@ != #[trigger] names@[j]@
                        &&& forall|n: Seq<char>|
                            !among_first(names@, b.index as int, n) ==> #[trigger] entry_at(
                                *final(m),
                                n,
                            ) == entry_at(*old(m), n)
                        &&& forall|j: int|
                            0 <= j < b.index ==> #[trigger] entry_at(*final(m), names@[j]@)
                                == hide_chain(entry_at(*old(m), names@[j]@), attrs)
                        &&& (b.failure.error == CloakError::NotFound || b.failure.error
                            == CloakError::Conflict)
                        &&& (b.failure.error == CloakError::NotFound <==> !root_resolves(s_k))
                        &&& (b.failure.error == CloakError::Conflict <==> root_resolves(s_k)
                            && s_k.stored is Some)
                    }
                },
            }
        }),
{
    let total = names.len();
    let mut k: usize = 0;
    while k < total
        invariant
            k <= names@.len(),
            total == names@.len(),
            *m == *old(m),
            wf(*old(m)),
            forall|j: int| 0 <= j < k ==> valid_name(#[trigger] names@[j]@),
        decreases names@.len() - k,
    {
        match validate_target(names[k].as_str()) {
            Err(e) => {
                return Err(
                    BatchFailure {
                        index: k,
                        failure: StepFailure {
                            step: Step::Validate,
                            error: CloakError::Validation(e),
                        },
                    },
                );
            },
            Ok(()) => {},
        }
        k += 1;
    }
    let mut k: usize = 0;
    while k < total
        invariant
            k <= names@.len(),
            total == names@.len(),
            wf(*m),
            m.attrs_supported == old(m).attrs_supported,
            m.cross_device == old(m).cross_device,
            forall|j: int| 0 <= j < names@.len() ==> valid_name(#[trigger] names@[j]@),
            k > 0 ==> m.storage_root,
            forall|i: int, j: int|
                0 <= i < j < k ==> #[trigger] names@[i]@ != #[trigger] names@[j]@,
            forall|n: Seq<char>|
                !among_first(names@, k as int, n) ==> #[trigger] entry_at(*m, n) == entry_at(
                    *old(m),
                    n,
                ),
            forall|j: int|
                0 <= j < k ==> #[trigger] entry_at(*m, names@[j]@) == hide_chain(
                    entry_at(*old(m), names@[j]@),
                    old(m).attrs_supported,
                ),
        decreases names@.len() - k,
    {
        let ghost m_pre = *m;
        match hide_target(m, &names[k]) {
            Ok(()) => {
                proof {
                    let nk = names@[k as int]@;
                    assert(!among_first(names@, k as int, nk)) by {
                        if among_first(names@, k as int, nk) {
                            let j = choose|j: int| 0 <= j < k && #[trigger] names@[j]@ == nk;
                            // a name already hidden would have a storage
                            // copy, so its ingest could not have succeeded
                            assert(entry_at(m_pre, nk) == hide_chain(
                                entry_at(*old(m), names@[j]@),
                                old(m).attrs_supported,
                            ));
                            assert(entry_at(m_pre, nk).stored is Some);
                        }
                    }
                    assert(entry_at(m_pre, nk) == entry_at(*old(m), nk));
                    assert forall|i: int, j: int|
                        0 <= i < j < k + 1 implies #[trigger] names@[i]@ != #[trigger] names@[j]@
                        by {
                        if j == k {
                            assert(0 <= i < k && names@[i]@ == names@[i]@);
                        }
                    }
                    assert forall|n: Seq<char>|
                        !among_first(names@, k + 1, n) implies #[trigger] entry_at(*m, n)
                        == entry_at(*old(m), n) by {
                        assert(nk != n);
                        assert(!among_first(names@, k as int, n)) by {
                            if among_first(names@, k as int, n) {
                                let j = choose|j: int|
                                    0 <= j < k && #[trigger] names@[j]@ == n;
                                assert(0 <= j < k + 1 && names@[j]@ == n);
                            }
                        }
                        assert(entry_at(m_pre, n) == entry_at(*old(m), n));
                    }
                    assert forall|j: int|
                        0 <= j < k + 1 implies #[trigger] entry_at(*m, names@[j]@) == hide_chain(
                        entry_at(*old(m), names@[j]@),
                        old(m).attrs_supported,
                    ) by {
                        if j < k {
                            assert(names@[j]@ != nk);
                            assert(entry_at(*m, names@[j]@) == entry_at(m_pre, names@[j]@));
                        }
                    }
                }
            },
            Err(f) => {
                proof {
                    assert(valid_name(names@[k as int]@));
                    assert(f.step == Step::Ingest);
                    assert(forall|n: Seq<char>| #[trigger] entry_at(*m, n) == entry_at(m_pre, n));
                    let nk = names@[k as int]@;
                    if among_first(names@, k as int, nk) {
                        let j = choose|j: int| 0 <= j < k && #[trigger] names@[j]@ == nk;
                        assert(entry_at(m_pre, nk) == hide_chain(
                            entry_at(*old(m), names@[j]@),
                            old(m).attrs_supported,
                        ));
                    } else {
                        assert(entry_at(m_pre, nk) == entry_at(*old(m), nk));
                    }
                }
                return Err(BatchFailure { index: k, failure: f });
            },
        }
        k += 1;
    }
    proof {
        assert(distinct_names(names@));
    }
    Ok(())
}

/// Restore a whole batch of targets, strictly in order, each
/// completing its whole step sequence before the next begins.  The
/// first failure stops the batch and names the failing target and
/// step: targets before it are fully restored, targets after it are
/// untouched, and the failing target itself stands exactly as far as
/// its last completed step left it.
pub fn unhide_batch(m: &mut ProjectModel, names: &Vec<String>) -> (r: Result<(), BatchFailure>)
    requires
        wf(*old(m)),
    ensures
        wf(*final(m)),
        final(m).attrs_supported == old(m).attrs_supported,
        final(m).cross_device == old(m).cross_device,
        final(m).storage_root == old(m).storage_root,
        ({
            let attrs = old(m).attrs_supported;
            match r {
                Ok(()) => {
                    &&& distinct_names(names@)
                    &&& forall|n: Seq<char>|
                        !among_first(names@, names@.len() as int, n) ==> #[trigger] entry_at(
                            *final(m),
                            n,
                        ) == entry_at(*old(m), n)
                    &&& forall|j: int|
                        0 <= j < names@.len() ==> #[trigger] entry_at(*final(m), names@[j]@)
                            == unhide_chain(entry_at(*old(m), names@[j]@), attrs)
                },
                Err(b) => {
                    let nk = names@[b.index as int]@;
                    let s_k = if among_first(names@, b.index as int, nk) {
                        unhide_chain(entry_at(*old(m), nk), attrs)
                    } else {
                        entry_at(*old(m), nk)
                    };
                    &&& b.index < names@.len()
                    &&& (b.failure.step == Step::Unhide || b.failure.step == Step::Unlink
                        || b.failure.step == Step::Egest)
                    &&& forall|i: int, j: int|
                        0 <= i < j < b.index ==> #[trigger] names@[i]@ != #[trigger] names@[j]@
                    &&& forall|n: Seq<char>|
                        !among_first(names@, b.index + 1, n) ==> #[trigger] entry_at(
                            *final(m),
                            n,
                        ) == entry_at(*old(m), n)
                    &&& forall|j: int|
                        0 <= j < b.index && #[trigger] names@[j]@ != nk ==> entry_at(
                            *final(m),
                            names@[j]@,
                        ) == unhide_chain(entry_at(*old(m), names@[j]@), attrs)
                    &&& b.failure.step == Step::Unhide ==> attrs && s_k.root is Empty
                        && b.failure.error == CloakError::NotFound && entry_at(*final(m), nk)
                        == s_k
                    &&& b.failure.step == Step::Unlink ==> {
                        &&& entry_at(*final(m), nk) == set_hidden_transition(s_k, attrs, false)
                        &&& (b.failure.error == CloakError::NotFound || b.failure.error
                            == CloakError::TypeMismatch)
                        &&& (b.failure.error == CloakError::NotFound <==> !attrs && s_k.root
                            is Empty)
                        &&& (b.failure.error == CloakError::TypeMismatch <==> s_k.root is Real)
                    }
                    &&& b.failure.step == Step::Egest ==> {
                        &&& s_k.root is StorageLink && s_k.stored is None && b.failure.error
                            == CloakError::NotFound
                        &&& entry_at(*final(m), nk) == unlink_transition(
                            set_hidden_transition(s_k, attrs, false),
                        )
                    }
                },
            }
        }),
{
    let total = names.len();
    let mut k: usize = 0;
    while k < total
        invariant
            k <= names@.len(),
            total == names@.len(),
            wf(*m),
            m.attrs_supported == old(m).attrs_supported,
            m.cross_device == old(m).cross_device,
            m.storage_root == old(m).storage_root,
            forall|i: int, j: int|
                0 <= i < j < k ==> #[trigger] names@[i]@ != #[trigger] names@[j]@,
            forall|n: Seq<char>|
                !among_first(names@, k as int, n) ==> #[trigger] entry_at(*m, n) == entry_at(
                    *old(m),
                    n,
                ),
            forall|j: int|
                0 <= j < k ==> #[trigger] entry_at(*m, names@[j]@) == unhide_chain(
                    entry_at(*old(m), names@[j]@),
                    old(m).attrs_supported,
                ),
        decreases names@.len() - k,
    {
        let ghost m_pre = *m;
        match unhide_target(m, &names[k]) {
            Ok(()) => {
                proof {
                    let nk = names@[k as int]@;
                    assert(!among_first(names@, k as int, nk)) by {
                        if among_first(names@, k as int, nk) {
                            let j = choose|j: int| 0 <= j < k && #[trigger] names@[j]@ == nk;
                            // a name already restored stands as a real
                            // entry, not a link, so its removal step
                            // could not have succeeded
                            assert(entry_at(m_pre, nk) == unhide_chain(
                                entry_at(*old(m), names@[j]@),
                                old(m).attrs_supported,
                            ));
                            assert(entry_at(m_pre, nk).root is Real);
                        }
                    }
                    assert(entry_at(m_pre, nk) == entry_at(*old(m), nk));
                    assert forall|i: int, j: int|
                        0 <= i < j < k + 1 implies #[trigger] names@[i]@ != #[trigger] names@[j]@
                        by {
                        if j == k {
                            assert(0 <= i < k && names@[i]@ == names@[i]@);
                        }
                    }
                    assert forall|n: Seq<char>|
                        !among_first(names@, k + 1, n) implies #[trigger] entry_at(*m, n)
                        == entry_at(*old(m), n) by {
                        assert(nk != n);
                        assert(!among_first(names@, k as int, n)) by {
                            if among_first(names@, k as int, n) {
                                let j = choose|j: int|
                                    0 <= j < k && #[trigger] names@[j]@ == n;
                                assert(0 <= j < k + 1 && names@[j]@ == n);
                            }
                        }
                        assert(entry_at(m_pre, n) == entry_at(*old(m), n));
                    }
                    assert forall|j: int|
                        0 <= j < k + 1 implies #[trigger] entry_at(*m, names@[j]@)
                        == unhide_chain(
                        entry_at(*old(m), names@[j]@),
                        old(m).attrs_supported,
                    ) by {
                        if j < k {
                            assert(names@[j]@ != nk);
                            assert(entry_at(*m, names@[j]@) == entry_at(m_pre, names@[j]@));
                        }
                    }
                }
            },
            Err(f) => {
                proof {
                    let nk = names@[k as int]@;
                    if among_first(names@, k as int, nk) {
                        let j = choose|j: int| 0 <= j < k && #[trigger] names@[j]@ == nk;
                        assert(entry_at(m_pre, nk) == unhide_chain(
                            entry_at(*old(m), names@[j]@),
                            old(m).attrs_supported,
                        ));
                    } else {
                        assert(entry_at(m_pre, nk) == entry_at(*old(m), nk));
                    }
                    assert forall|n: Seq<char>|
                        !among_first(names@, k + 1, n) implies #[trigger] entry_at(*m, n)
                        == entry_at(*old(m), n) by {
                        assert(nk != n);
                        assert(!among_first(names@, k as int, n)) by {
                            if among_first(names@, k as int, n) {
                                let j = choose|j: int|
                                    0 <= j < k && #[trigger] names@[j]@ == n;
                                assert(0 <= j < k + 1 && names@[j]@ == n);
                            }
                        }
                        assert(entry_at(m_pre, n) == entry_at(*old(m), n));
                    }
                    assert forall|j: int|
                        0 <= j < k && #[trigger] names@[j]@ != nk implies entry_at(
                        *m,
                        names@[j]@,
                    ) == unhide_chain(entry_at(*old(m), names@[j]@), old(m).attrs_supported) by {
                        assert(entry_at(m_pre, names@[j]@) == entry_at(*m, names@[j]@));
                    }
                }
                return Err(BatchFailure { index: k, failure: f });
            },
        }
        k += 1;
    }
    proof {
        assert(distinct_names(names@));
    }
    Ok(())
}

/// The entry's content, through whichever representation makes it
/// reachable: the real root entry when one stands there, else the
/// storage copy.
pub open spec fn content_of(s: SlotV) -> Option<Seq<crate::tree::FileV>> {
    match s.root {
        RootV::Real { data, .. } => Some(data),
        _ => match s.stored {
            Some((d, _)) => Some(d),
            None => None,
        },
    }
}

/// Why the steps run in this exact order: at every intermediate state
/// of a hide, and of the restore that follows it, the content is
/// reachable through at least one representation and identical to
/// what the operation started from.  The storage copy is always
/// created before the link replaces the entry, and the link is always
/// removed before the copy moves back.
pub proof fn lemma_content_never_unreachable(s: SlotV, attrs_supported: bool)
    requires
        s.root is Real,
        s.stored is None,
    ensures
        content_of(ingest_transition(s)) == content_of(s),
        content_of(link_transition(ingest_transition(s))) == content_of(s),
        content_of(hide_chain(s, attrs_supported)) == content_of(s),
        content_of(
            set_hidden_transition(hide_chain(s, attrs_supported), attrs_supported, false),
        ) == content_of(s),
        content_of(
            unlink_transition(
                set_hidden_transition(hide_chain(s, attrs_supported), attrs_supported, false),
            ),
        ) == content_of(s),
        content_of(unhide_chain(hide_chain(s, attrs_supported), attrs_supported)) == content_of(
            s,
        ),
{
}

/// Round-trip identity: hiding a real, not-yet-hidden entry and then
/// restoring it brings the name back to exactly its old state, with
/// identical content, no residual storage copy, no link, and no
/// residual hidden flag.
pub proof fn lemma_hide_unhide_round_trip(s: SlotV, attrs_supported: bool)
    requires
        s.root is Real,
        s.stored is None,
    ensures
        unhide_chain(hide_chain(s, attrs_supported), attrs_supported) == s,
{
    match s.root {
        RootV::Real { data, hidden } => {
            assert(unhide_chain(hide_chain(s, attrs_supported), attrs_supported) == SlotV {
                root: RootV::Real { data, hidden },
                stored: None,
            });
            assert(s == SlotV { root: RootV::Real { data, hidden }, stored: None });
        },
        _ => {},
    }
}

/// After a completed hide, status classifies the name as linked.
pub proof fn lemma_hidden_is_linked(s: SlotV, attrs_supported: bool)
    requires
        s.root is Real,
        s.stored is None,
    ensures
        health_of(hide_chain(s, attrs_supported)) == Some(LinkHealth::Linked),
{
}

/// If the storage copy then disappears behind the engine's back, the
/// remaining link is classified as orphaned.
pub proof fn lemma_deleted_storage_is_orphaned(s: SlotV, attrs_supported: bool)
    requires
        s.root is Real,
        s.stored is None,
    ensures
        health_of(
            SlotV { root: hide_chain(s, attrs_supported).root, stored: None },
        ) == Some(LinkHealth::Orphaned),
{
}

} // verus!
