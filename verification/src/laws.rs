//! Laws that relate several operations, proved once and for all from the
//! operations' contracts.

use vstd::prelude::*;

use crate::events::{lemma_notifs_shape, notifs, Observer};
use crate::types::{EcsError, Entity, EventKind};
use crate::world::World;

verus! {

/// Adding a component an entity lacks and then removing it returns the
/// entity to its original component set — and, since a set identifies its
/// table, to an equal table.
pub proof fn law_add_remove_round_trip(
    w0: World,
    w1: World,
    w2: World,
    e: Entity,
    c: u64,
)
    requires
        !w0.comps_of(e).contains(c),
        World::add_outcome(w0, w1, e, c, Ok(())),
        World::remove_outcome(w1, w2, e, c, Ok(())),
    ensures
        w2.comps_of(e) == w0.comps_of(e),
{
    assert(w1.comps_of(e) == w0.comps_of(e).insert(c));
    assert(w1.comps_of(e).contains(c));
    assert(w2.comps_of(e) == w1.comps_of(e).remove(c));
    assert(w2.comps_of(e) =~= w0.comps_of(e));
}

/// For an entity gaining a component through `set`, every `OnAdd`
/// notification of that transition precedes every `OnSet` notification, and
/// each `OnSet` notification carries the assigned value.
pub proof fn law_observer_ordering(
    obs: Seq<Observer>,
    e: Entity,
    c: u64,
    constructed: Seq<u8>,
    assigned: Seq<u8>,
)
    ensures
        ({
            let s = notifs(obs, e, c, EventKind::OnAdd, constructed) + notifs(
                obs,
                e,
                c,
                EventKind::OnSet,
                assigned,
            );
            &&& forall|i: int, j: int|
                0 <= i < s.len() && 0 <= j < s.len() && (#[trigger] s[i]).kind == EventKind::OnAdd
                    && (#[trigger] s[j]).kind == EventKind::OnSet ==> i < j
            &&& forall|j: int|
                0 <= j < s.len() && (#[trigger] s[j]).kind == EventKind::OnSet ==> s[j].value
                    == assigned
        }),
{
    let adds = notifs(obs, e, c, EventKind::OnAdd, constructed);
    let sets = notifs(obs, e, c, EventKind::OnSet, assigned);
    let s = adds + sets;
    lemma_notifs_shape(obs, e, c, EventKind::OnAdd, constructed);
    lemma_notifs_shape(obs, e, c, EventKind::OnSet, assigned);
    assert forall|i: int, j: int|
        0 <= i < s.len() && 0 <= j < s.len() && (#[trigger] s[i]).kind == EventKind::OnAdd && (
        #[trigger] s[j]).kind == EventKind::OnSet implies i < j by {
        if i >= adds.len() {
            assert(s[i] == sets[i - adds.len()]);
            assert(s[i].kind == EventKind::OnSet);
        }
        if j < adds.len() {
            assert(s[j] == adds[j]);
            assert(s[j].kind == EventKind::OnAdd);
        }
    }
    assert forall|j: int|
        0 <= j < s.len() && (#[trigger] s[j]).kind == EventKind::OnSet implies s[j].value
            == assigned by {
        if j < adds.len() {
            assert(s[j] == adds[j]);
        } else {
            assert(s[j] == sets[j - adds.len()]);
        }
    }
}

/// An identifier that was once valid is rejected with `StaleEntity`, never
/// `UnknownEntity`, after its entity dies: the error discrimination of
/// `destroy` (unknown exactly when the slot index was never allocated)
/// resolves to stale, since slots are never removed.
pub proof fn law_destroy_stale(w0: World, w1: World, e: Entity, err: EcsError)
    requires
        w0.spec_alive(e),
        w1.n_slots() >= w0.n_slots(),
        !w1.spec_alive(e),
        err == EcsError::UnknownEntity || err == EcsError::StaleEntity,
        err == EcsError::UnknownEntity <==> e.spec_index() >= w1.n_slots(),
    ensures
        err == EcsError::StaleEntity,
{
    w0.lemma_alive_in_range(e);
}

} // verus!
