//! Observer registrations and the notification log. A committed structural
//! change appends one notification per matching observer, in registration
//! order; the embedding drains the log and runs the callbacks.

use vstd::prelude::*;

use crate::types::{Entity, EventKind};

verus! {

/// An observer registration: a `(component, event kind)` pair. Observers are
/// invoked in registration order.
#[derive(Clone, Copy, PartialEq, Eq, Structural, Debug)]
pub struct Observer {
    pub component: u64,
    pub kind: EventKind,
}

/// One pending observer invocation: which observer fires, for which entity
/// and component, and the value snapshot the observer is shown.
pub struct Notification {
    pub observer: usize,
    pub entity: Entity,
    pub component: u64,
    pub kind: EventKind,
    pub value: Vec<u8>,
}

/// The mathematical image of a `Notification`.
pub struct Event {
    pub observer: int,
    pub entity: Entity,
    pub component: u64,
    pub kind: EventKind,
    pub value: Seq<u8>,
}

impl View for Notification {
    type V = Event;

    open spec fn view(&self) -> Event {
        Event {
            observer: self.observer as int,
            entity: self.entity,
            component: self.component,
            kind: self.kind,
            value: self.value@,
        }
    }
}

/// The view of a notification log.
pub open spec fn events_view(s: Seq<Notification>) -> Seq<Event> {
    s.map_values(|n: Notification| n@)
}

pub open spec fn obs_matches(o: Observer, c: u64, k: EventKind) -> bool {
    o.component == c && o.kind == k
}

/// The notifications a committed `(entity, component, kind)` transition with
/// value snapshot `v` appends: one event per matching observer, in
/// registration order.
pub open spec fn notifs(obs: Seq<Observer>, e: Entity, c: u64, k: EventKind, v: Seq<u8>) -> Seq<
    Event,
>
    decreases obs.len(),
{
    if obs.len() == 0 {
        Seq::empty()
    } else {
        let head = notifs(obs.drop_last(), e, c, k, v);
        if obs_matches(obs.last(), c, k) {
            head.push(
                Event {
                    observer: obs.len() - 1,
                    entity: e,
                    component: c,
                    kind: k,
                    value: v,
                },
            )
        } else {
            head
        }
    }
}

/// Every notification of one transition carries that transition's entity,
/// component, kind and value snapshot, and names a matching observer.
pub proof fn lemma_notifs_shape(obs: Seq<Observer>, e: Entity, c: u64, k: EventKind, v: Seq<u8>)
    ensures
        forall|i: int|
            0 <= i < notifs(obs, e, c, k, v).len() ==> {
                let n = #[trigger] notifs(obs, e, c, k, v)[i];
                n.entity == e && n.component == c && n.kind == k && n.value == v && 0 <= n.observer
                    < obs.len() && obs_matches(obs[n.observer], c, k)
            },
    decreases obs.len(),
{
    if obs.len() > 0 {
        lemma_notifs_shape(obs.drop_last(), e, c, k, v);
        assert(forall|i: int|
            0 <= i < obs.len() - 1 ==> obs.drop_last()[i] == obs[i]);
    }
}

/// Viewing a log commutes with appending one notification.
pub proof fn lemma_events_view_push(s: Seq<Notification>, n: Notification)
    ensures
        events_view(s.push(n)) == events_view(s).push(n@),
{
    assert(events_view(s.push(n)) =~= events_view(s).push(n@));
}

/// Copies a byte string.
pub(crate) fn clone_bytes(v: &Vec<u8>) -> (r: Vec<u8>)
    ensures
        r@ == v@,
{
    let mut r: Vec<u8> = Vec::new();
    let mut i: usize = 0;
    while i < v.len()
        invariant
            i <= v@.len(),
            r@ == v@.take(i as int),
        decreases v@.len() - i,
    {
        r.push(v[i]);
        proof {
            assert(r@ =~= v@.take(i + 1));
        }
        i += 1;
    }
    proof {
        assert(v@.take(v@.len() as int) =~= v@);
    }
    r
}

/// A byte string of `n` zero bytes: the trivial default a component value is
/// constructed with when no initial value is supplied.
pub(crate) fn zero_bytes(n: usize) -> (r: Vec<u8>)
    ensures
        r@ == zero_value(n as nat),
{
    let mut r: Vec<u8> = Vec::new();
    let mut i: usize = 0;
    while i < n
        invariant
            i <= n,
            r@.len() == i,
            forall|k: int| 0 <= k < i ==> r@[k] == 0u8,
        decreases n - i,
    {
        r.push(0u8);
        i += 1;
    }
    proof {
        assert(r@ =~= zero_value(n as nat));
    }
    r
}

/// The default (zero-initialised) value of a component of byte size `n`.
pub open spec fn zero_value(n: nat) -> Seq<u8> {
    Seq::new(n, |i: int| 0u8)
}

/// Appends to `events` one notification per observer matching `(c, k)`, in
/// registration order, each carrying the value snapshot `value`.
pub(crate) fn emit(
    observers: &Vec<Observer>,
    events: &mut Vec<Notification>,
    e: Entity,
    c: u64,
    k: EventKind,
    value: &Vec<u8>,
)
    ensures
        events_view(final(events)@) == events_view(old(events)@) + notifs(
            observers@,
            e,
            c,
            k,
            value@,
        ),
{
    let ghost orig = events@;
    let mut i: usize = 0;
    proof {
        assert(events_view(orig) + notifs(observers@.take(0), e, c, k, value@) =~= events_view(
            orig,
        ));
    }
    while i < observers.len()
        invariant
            i <= observers@.len(),
            events_view(events@) == events_view(orig) + notifs(
                observers@.take(i as int),
                e,
                c,
                k,
                value@,
            ),
        decreases observers@.len() - i,
    {
        let o = observers[i];
        if o.component == c && matches_kind(o.kind, k) {
            let n = Notification {
                observer: i,
                entity: e,
                component: c,
                kind: k,
                value: clone_bytes(value),
            };
            proof {
                assert(n@ == Event {
                    observer: i as int,
                    entity: e,
                    component: c,
                    kind: k,
                    value: value@,
                });
            }
            let ghost before = events@;
            events.push(n);
            proof {
                lemma_events_view_push(before, n);
            }
        }
        proof {
            let pre = observers@.take(i as int);
            let cur = observers@.take(i + 1);
            assert(cur.drop_last() =~= pre);
            assert(cur.last() == observers@[i as int]);
            if obs_matches(observers@[i as int], c, k) {
                assert(notifs(cur, e, c, k, value@) == notifs(pre, e, c, k, value@).push(
                    Event {
                        observer: i as int,
                        entity: e,
                        component: c,
                        kind: k,
                        value: value@,
                    },
                ));
            } else {
                assert(notifs(cur, e, c, k, value@) == notifs(pre, e, c, k, value@));
            }
            assert(events_view(events@) =~= events_view(orig) + notifs(cur, e, c, k, value@));
        }
        i += 1;
    }
    proof {
        assert(observers@.take(observers@.len() as int) =~= observers@);
    }
}

/// Structural equality on event kinds, usable from executable code.
pub fn matches_kind(a: EventKind, b: EventKind) -> (r: bool)
    ensures
        r <==> a == b,
{
    match (a, b) {
        (EventKind::OnAdd, EventKind::OnAdd) => true,
        (EventKind::OnRemove, EventKind::OnRemove) => true,
        (EventKind::OnSet, EventKind::OnSet) => true,
        _ => false,
    }
}

} // verus!
