//! The world: entity index, component registry, archetype tables, deferred
//! command buffer, observer log and compiled queries, owned as one instance
//! with no shared state between worlds.

use vstd::prelude::*;

use crate::events::{
    clone_bytes, emit, events_view, notifs, zero_bytes, zero_value, Notification, Observer,
};
use crate::query::Query;
use crate::sets::{
    canonicalize, contains_id, lemma_sorted_set_canonical, same_seq, sorted_insert, strictly_sorted,
};
use crate::types::{Command, ComponentDesc, EcsError, Entity, EventKind};

verus! {

/// One archetype: all entities holding exactly the component set `comps`,
/// stored row per entity, one column per component.
pub struct Table {
    pub(crate) comps: Vec<u64>,
    pub(crate) entities: Vec<usize>,
    pub(crate) columns: Vec<Vec<Vec<u8>>>,
    pub(crate) group: u64,
}

/// Per-entity record in the entity index.
#[derive(Clone, Copy)]
pub(crate) struct Slot {
    pub(crate) generation: u64,
    pub(crate) alive: bool,
    pub(crate) table: usize,
    pub(crate) row: usize,
}

/// A world instance. All operations go through it; two worlds share nothing.
pub struct World {
    pub(crate) registry: Vec<ComponentDesc>,
    pub(crate) tables: Vec<Table>,
    pub(crate) slots: Vec<Slot>,
    pub(crate) free: Vec<usize>,
    pub(crate) depth: usize,
    pub(crate) queue: Vec<Command>,
    pub(crate) observers: Vec<Observer>,
    pub(crate) events: Vec<Notification>,
    pub(crate) names: Vec<(u64, Entity)>,
    pub(crate) queries: Vec<Query>,
}

impl Table {
    /// Overwrites the cell at column `j`, row `r`.
    pub(crate) fn set_cell(&mut self, j: usize, r: usize, v: Vec<u8>)
        requires
            j < old(self).columns@.len(),
            r < old(self).columns@[j as int]@.len(),
        ensures
            final(self).comps == old(self).comps,
            final(self).entities == old(self).entities,
            final(self).group == old(self).group,
            final(self).columns@.len() == old(self).columns@.len(),
            forall|k: int|
                0 <= k < old(self).columns@.len() && k != j as int
                    ==> #[trigger] final(self).columns@[k] == old(self).columns@[k],
            final(self).columns@[j as int]@ == old(self).columns@[j as int]@.update(r as int, v),
    {
        self.columns[j][r] = v;
    }

    /// Swap-removes row `r` of column `j`, moving the column's last value
    /// into the gap. Everything else about the table is untouched.
    pub(crate) fn compact_column(&mut self, j: usize, r: usize)
        requires
            j < old(self).columns@.len(),
            r < old(self).columns@[j as int]@.len(),
        ensures
            final(self).comps == old(self).comps,
            final(self).entities == old(self).entities,
            final(self).group == old(self).group,
            final(self).columns@.len() == old(self).columns@.len(),
            forall|k: int|
                0 <= k < old(self).columns@.len() && k != j as int
                    ==> #[trigger] final(self).columns@[k] == old(self).columns@[k],
            final(self).columns@[j as int]@ == old(self).columns@[j as int]@.update(
                r as int,
                old(self).columns@[j as int]@.last(),
            ).drop_last(),
    {
        let _removed = self.columns[j].swap_remove(r);
    }
}

/// Copies a table id vector.
pub(crate) fn clone_usizes(v: &Vec<usize>) -> (r: Vec<usize>)
    ensures
        r@ == v@,
{
    let mut r: Vec<usize> = Vec::new();
    let mut i: usize = 0;
    while i < v.len()
        invariant
            i <= v@.len(),
            r@ == v@.take(i as int),
        decreases v@.len() - i,
    {
        r.push(v[i]);
        proof {
            assert(r@ =~= v@.take(i + 1));
        }
        i += 1;
    }
    proof {
        assert(v@.take(v@.len() as int) =~= v@);
    }
    r
}

/// A table is internally consistent: a strictly sorted key of registered
/// component ids, and one equal-length column per key entry.
pub(crate) open spec fn table_wf(t: Table, nreg: nat) -> bool {
    &&& strictly_sorted(t.comps@)
    &&& forall|j: int| 0 <= j < t.comps@.len() ==> (t.comps@[j] as nat) < nreg
    &&& t.columns@.len() == t.comps@.len()
    &&& forall|j: int|
        0 <= j < t.columns@.len() ==> (#[trigger] t.columns@[j])@.len() == t.entities@.len()
}

impl World {
    /// The row `(t, r)` names a slot that points back at `(t, r)`.
    pub(crate) closed spec fn row_linked(self, t: int, r: int) -> bool {
        let i = self.tables@[t].entities@[r] as int;
        &&& 0 <= i < self.slots@.len()
        &&& self.slots@[i].alive
        &&& self.slots@[i].table as int == t
        &&& self.slots@[i].row as int == r
    }

    /// The live slot `i` points at a row that names it.
    pub(crate) closed spec fn slot_linked(self, i: int) -> bool {
        let s = self.slots@[i];
        &&& (s.table as int) < self.tables@.len()
        &&& (s.row as int) < self.tables@[s.table as int].entities@.len()
        &&& self.tables@[s.table as int].entities@[s.row as int] as int == i
    }

    pub(crate) closed spec fn links_ok(self) -> bool {
        &&& forall|t: int, r: int|
            0 <= t < self.tables@.len() && 0 <= r < self.tables@[t].entities@.len()
                ==> #[trigger] self.row_linked(t, r)
        &&& forall|i: int|
            0 <= i < self.slots@.len() && self.slots@[i].alive ==> #[trigger] self.slot_linked(i)
    }

    pub(crate) closed spec fn free_ok(self) -> bool {
        &&& forall|k: int|
            0 <= k < self.free@.len() ==> (#[trigger] self.free@[k] as int) < self.slots@.len()
                && !self.slots@[self.free@[k] as int].alive
        &&& forall|k1: int, k2: int|
            0 <= k1 < k2 < self.free@.len() ==> self.free@[k1] != self.free@[k2]
    }

    pub(crate) closed spec fn registry_ok(self) -> bool {
        forall|i: int, j: int|
            0 <= i < j < self.registry@.len() ==> (#[trigger] self.registry@[i]).type_key != (
            #[trigger] self.registry@[j]).type_key
    }

    pub(crate) closed spec fn names_ok(self) -> bool {
        forall|k1: int, k2: int|
            0 <= k1 < k2 < self.names@.len() ==> (#[trigger] self.names@[k1]).0 != (
            #[trigger] self.names@[k2]).0
    }

    pub(crate) closed spec fn tables_ok(self) -> bool {
        &&& self.tables@.len() >= 1
        &&& self.tables@[0].comps@.len() == 0
        &&& forall|t: int|
            0 <= t < self.tables@.len() ==> table_wf(
                #[trigger] self.tables@[t],
                self.registry@.len() as nat,
            )
        &&& forall|t1: int, t2: int|
            0 <= t1 < t2 < self.tables@.len() ==> (#[trigger] self.tables@[t1]).comps@ != (
            #[trigger] self.tables@[t2]).comps@
    }

    pub(crate) closed spec fn query_terms_wf(self, q: Query) -> bool {
        &&& strictly_sorted(q.required@)
        &&& strictly_sorted(q.excluded@)
        &&& forall|j: int|
            0 <= j < q.required@.len() ==> (#[trigger] q.required@[j] as nat)
                < self.registry@.len()
        &&& forall|j: int|
            0 <= j < q.excluded@.len() ==> (#[trigger] q.excluded@[j] as nat)
                < self.registry@.len()
        &&& crate::sets::seq_disjoint(q.required@, q.excluded@)
    }

    /// Whether table `t`'s key is a superset of `req` and disjoint from `exc`.
    pub(crate) closed spec fn table_matches(self, t: int, req: Seq<u64>, exc: Seq<u64>) -> bool {
        &&& crate::sets::seq_subset(req, self.tables@[t].comps@)
        &&& crate::sets::seq_disjoint(exc, self.tables@[t].comps@)
    }

    /// A non-stale cache lists exactly the matching tables, in table order.
    pub(crate) closed spec fn cache_ok(self, q: Query) -> bool {
        &&& forall|k1: int, k2: int|
            0 <= k1 < k2 < q.cached@.len() ==> (#[trigger] q.cached@[k1]) < (
            #[trigger] q.cached@[k2])
        &&& forall|k: int|
            0 <= k < q.cached@.len() ==> (#[trigger] q.cached@[k] as int) < self.tables@.len()
                && self.table_matches(q.cached@[k] as int, q.required@, q.excluded@)
        &&& forall|t: int|
            0 <= t < self.tables@.len() && self.table_matches(t, q.required@, q.excluded@)
                ==> q.cached@.contains(t as usize)
    }

    pub(crate) closed spec fn queries_ok(self) -> bool {
        forall|qi: int|
            0 <= qi < self.queries@.len() ==> {
                let q = #[trigger] self.queries@[qi];
                self.query_terms_wf(q) && (!q.stale ==> self.cache_ok(q))
            }
    }

    /// The world invariant: every constructor establishes it and every
    /// operation preserves it.
    pub closed spec fn wf(self) -> bool {
        &&& self.tables_ok()
        &&& self.links_ok()
        &&& self.free_ok()
        &&& self.registry_ok()
        &&& self.names_ok()
        &&& self.queries_ok()
    }

    // ----- observable model -----

    /// The identifier is currently valid: its slot is live and still carries
    /// the generation the identifier was handed out with.
    pub closed spec fn spec_alive(self, e: Entity) -> bool {
        &&& 0 <= e.spec_index() < self.slots@.len()
        &&& self.slots@[e.spec_index()].alive
        &&& self.slots@[e.spec_index()].generation == e.spec_generation()
    }

    /// A valid identifier names an allocated slot.
    pub proof fn lemma_alive_in_range(self, e: Entity)
        requires
            self.spec_alive(e),
        ensures
            0 <= e.spec_index() < self.n_slots(),
    {
    }

    /// The component set of the table a live entity sits in.
    pub closed spec fn comps_of(self, e: Entity) -> Set<u64> {
        self.comps_seq_of(e).to_set()
    }

    /// The sorted component key of the table a live entity sits in.
    pub closed spec fn comps_seq_of(self, e: Entity) -> Seq<u64> {
        self.tables@[self.slots@[e.spec_index()].table as int].comps@
    }

    /// The bytes a live entity holds for component `c`.
    pub closed spec fn value_of(self, e: Entity, c: u64) -> Seq<u8> {
        let t = self.tables@[self.slots@[e.spec_index()].table as int];
        let j = t.comps@.index_of(c);
        t.columns@[j]@[self.slots@[e.spec_index()].row as int]@
    }

    /// Number of registered component kinds; component ids are `0..` this.
    pub open spec fn n_components(self) -> int {
        self.regs().len() as int
    }

    /// The registered descriptors, in id order.
    pub closed spec fn regs(self) -> Seq<ComponentDesc> {
        self.registry@
    }

    /// Some descriptor with this `type_key` is already registered.
    pub open spec fn has_type_key(self, key: u64) -> bool {
        exists|i: int| 0 <= i < self.regs().len() && (#[trigger] self.regs()[i]).type_key == key
    }

    pub open spec fn spec_registered(self, c: u64) -> bool {
        (c as int) < self.n_components()
    }

    pub open spec fn component_size(self, c: u64) -> nat {
        self.regs()[c as int].size as nat
    }

    /// Number of entity slots ever allocated (live or recyclable).
    pub closed spec fn n_slots(self) -> int {
        self.slots@.len() as int
    }

    pub closed spec fn spec_depth(self) -> int {
        self.depth as int
    }

    pub closed spec fn spec_queue(self) -> Seq<Command> {
        self.queue@
    }

    pub closed spec fn spec_events(self) -> Seq<crate::events::Event> {
        events_view(self.events@)
    }

    pub closed spec fn spec_observers(self) -> Seq<Observer> {
        self.observers@
    }

    pub closed spec fn n_tables(self) -> int {
        self.tables@.len() as int
    }

    /// The component set identifying table `t`.
    pub closed spec fn table_comps(self, t: int) -> Set<u64> {
        self.tables@[t].comps@.to_set()
    }

    /// The table a live entity currently sits in.
    pub closed spec fn table_of(self, e: Entity) -> int {
        self.slots@[e.spec_index()].table as int
    }

    // ----- preservation predicates -----

    /// Entity `e` is observably the same in `other`: same validity, and when
    /// live, the same component set with the same values.
    pub open spec fn entity_preserved(self, other: World, e: Entity) -> bool {
        &&& other.spec_alive(e) == self.spec_alive(e)
        &&& self.spec_alive(e) ==> {
            &&& other.comps_of(e) == self.comps_of(e)
            &&& forall|c: u64|
                self.comps_of(e).contains(c) ==> other.value_of(e, c) == self.value_of(e, c)
        }
    }

    /// Every entity other than `e0` is observably unchanged in `other`.
    pub open spec fn others_preserved(self, other: World, e0: Entity) -> bool {
        forall|e: Entity| e != e0 ==> #[trigger] self.entity_preserved(other, e)
    }

    /// Every entity is observably unchanged in `other`.
    pub open spec fn all_preserved(self, other: World) -> bool {
        forall|e: Entity| #[trigger] self.entity_preserved(other, e)
    }

    /// Existing tables keep their identity (their component set); new tables
    /// may only be appended.
    pub open spec fn tables_extend(self, other: World) -> bool {
        &&& self.n_tables() <= other.n_tables()
        &&& forall|t: int|
            0 <= t < self.n_tables() ==> #[trigger] other.table_comps(t) == self.table_comps(t)
    }

    /// The name index, as a sequence of bindings.
    pub closed spec fn spec_names(self) -> Seq<(u64, Entity)> {
        self.names@
    }

    /// The compiled term vectors of query `qi`, in canonical order.
    pub closed spec fn query_terms(self, qi: int) -> (Seq<u64>, Seq<u64>, int) {
        (self.queries@[qi].required@, self.queries@[qi].excluded@, self.queries@[qi].n_vars as int)
    }

    /// Registry, observers, names and compiled query terms are unchanged.
    pub open spec fn statics_eq(self, other: World) -> bool {
        &&& other.regs() == self.regs()
        &&& other.spec_observers() == self.spec_observers()
        &&& other.spec_names() == self.spec_names()
        &&& other.n_queries() == self.n_queries()
        &&& forall|qi: int|
            0 <= qi < self.n_queries() ==> #[trigger] other.query_terms(qi) == self.query_terms(
                qi,
            )
    }

    /// Defer depth and queued commands are unchanged.
    pub open spec fn defer_eq(self, other: World) -> bool {
        &&& other.spec_depth() == self.spec_depth()
        &&& other.spec_queue() == self.spec_queue()
    }

    /// Growing the registry (and touching nothing else) preserves every part
    /// of the invariant except registry key uniqueness, which the caller
    /// shows separately.
    pub(crate) proof fn lemma_wf_registry_extend(a: World, b: World)
        requires
            a.wf(),
            b.tables@ == a.tables@,
            b.slots@ == a.slots@,
            b.free@ == a.free@,
            b.names@ == a.names@,
            b.queries@ == a.queries@,
            a.registry@.len() <= b.registry@.len(),
        ensures
            b.tables_ok(),
            b.links_ok(),
            b.free_ok(),
            b.names_ok(),
            b.queries_ok(),
    {
        assert forall|t: int| 0 <= t < b.tables@.len() implies table_wf(
            #[trigger] b.tables@[t],
            b.registry@.len() as nat,
        ) by {
            assert(table_wf(a.tables@[t], a.registry@.len() as nat));
        }
        assert forall|t: int, r: int|
            0 <= t < b.tables@.len() && 0 <= r < b.tables@[t].entities@.len() implies
            #[trigger] b.row_linked(t, r) by {
            assert(a.row_linked(t, r));
        }
        assert forall|i: int| 0 <= i < b.slots@.len() && b.slots@[i].alive implies
            #[trigger] b.slot_linked(i) by {
            assert(a.slot_linked(i));
        }
        assert forall|qi: int| 0 <= qi < b.queries@.len() implies {
            let q = #[trigger] b.queries@[qi];
            b.query_terms_wf(q) && (!q.stale ==> b.cache_ok(q))
        } by {
            let q = b.queries@[qi];
            assert(a.queries@[qi] == q);
            assert(a.query_terms_wf(q) && (!q.stale ==> a.cache_ok(q)));
            if !q.stale {
                assert forall|k: int| 0 <= k < q.cached@.len() implies (
                #[trigger] q.cached@[k] as int) < b.tables@.len() && b.table_matches(
                    q.cached@[k] as int,
                    q.required@,
                    q.excluded@,
                ) by {
                    assert(a.table_matches(q.cached@[k] as int, q.required@, q.excluded@));
                }
                assert forall|t: int|
                    0 <= t < b.tables@.len() && b.table_matches(t, q.required@, q.excluded@) implies
                    q.cached@.contains(t as usize) by {
                    assert(a.table_matches(t, q.required@, q.excluded@));
                }
            }
        }
    }

    /// Being observably unchanged is transitive.
    pub proof fn lemma_entity_preserved_trans(a: World, b: World, c_: World, e: Entity)
        requires
            a.entity_preserved(b, e),
            b.entity_preserved(c_, e),
        ensures
            a.entity_preserved(c_, e),
    {
        if a.spec_alive(e) {
            assert(b.spec_alive(e));
            assert forall|c: u64| a.comps_of(e).contains(c) implies c_.value_of(e, c)
                == a.value_of(e, c) by {
                assert(b.comps_of(e).contains(c));
                assert(b.value_of(e, c) == a.value_of(e, c));
                assert(c_.value_of(e, c) == b.value_of(e, c));
            }
        }
    }

    /// The shared part of every validation failure: the world is unchanged
    /// and the error names what was wrong with the arguments.
    pub open spec fn arg_error(pre: World, post: World, e: Entity, c: u64, err: EcsError) -> bool {
        &&& post == pre
        &&& {
            ||| (err == EcsError::UnknownEntity && e.spec_index() >= pre.n_slots())
            ||| (err == EcsError::StaleEntity && e.spec_index() < pre.n_slots()
                && !pre.spec_alive(e))
            ||| (err == EcsError::InvalidParameter && pre.spec_alive(e) && !pre.spec_registered(c))
        }
    }

    /// The frame every committed structural change preserves: other
    /// entities, every identifier's validity, table identities, the
    /// registry, observers, names, query terms and the defer state.
    pub open spec fn structural_frame(pre: World, post: World, e: Entity) -> bool {
        &&& post.spec_alive(e)
        &&& pre.others_preserved(post, e)
        &&& forall|e2: Entity| post.spec_alive(e2) == pre.spec_alive(e2)
        &&& pre.statics_eq(post)
        &&& pre.defer_eq(post)
        &&& pre.tables_extend(post)
        &&& post.n_slots() == pre.n_slots()
    }

    /// What a committed `add` does: a no-op when the component is present,
    /// else a move to the table with `c` added, the new cell
    /// zero-constructed, and one `OnAdd` notification per matching observer.
    pub open spec fn add_outcome(
        pre: World,
        post: World,
        e: Entity,
        c: u64,
        res: Result<(), EcsError>,
    ) -> bool {
        match res {
            Ok(u) => {
                &&& u == ()
                &&& pre.spec_alive(e)
                &&& pre.spec_registered(c)
                &&& (if pre.comps_of(e).contains(c) {
                    post == pre
                } else {
                    &&& post.comps_of(e) == pre.comps_of(e).insert(c)
                    &&& post.value_of(e, c) == zero_value(pre.component_size(c))
                    &&& (forall|c2: u64|
                        pre.comps_of(e).contains(c2) ==> post.value_of(e, c2) == pre.value_of(
                            e,
                            c2,
                        ))
                    &&& World::structural_frame(pre, post, e)
                    &&& post.spec_events() == pre.spec_events() + notifs(
                        pre.spec_observers(),
                        e,
                        c,
                        EventKind::OnAdd,
                        zero_value(pre.component_size(c)),
                    )
                })
            },
            Err(err) => World::arg_error(pre, post, e, c, err),
        }
    }

    /// What a committed `destroy` does.
    pub open spec fn destroy_outcome(
        pre: World,
        post: World,
        e: Entity,
        res: Result<(), EcsError>,
    ) -> bool {
        match res {
            Ok(u) => {
                &&& u == ()
                &&& pre.spec_alive(e)
                &&& !post.spec_alive(e)
                &&& pre.others_preserved(post, e)
                &&& pre.statics_eq(post)
                &&& pre.defer_eq(post)
                &&& post.spec_events() == pre.spec_events()
                &&& pre.tables_extend(post)
                &&& post.n_tables() == pre.n_tables()
                &&& post.n_slots() == pre.n_slots()
            },
            Err(err) => {
                &&& post == pre
                &&& !pre.spec_alive(e)
                &&& (err == EcsError::UnknownEntity || err == EcsError::StaleEntity)
                &&& (err == EcsError::UnknownEntity <==> e.spec_index() >= pre.n_slots())
            },
        }
    }

    /// One queued command took effect: whatever its result was, the world
    /// stepped by that command's contract.
    pub open spec fn command_applied(pre: World, post: World, cmd: Command) -> bool {
        match cmd {
            Command::AddComp(e, c) => exists|res: Result<(), EcsError>|
                World::add_outcome(pre, post, e, c, res),
            Command::RemoveComp(e, c) => exists|res: Result<(), EcsError>|
                World::remove_outcome(pre, post, e, c, res),
            Command::SetComp(e, c, v) => exists|res: Result<(), EcsError>|
                World::set_outcome(pre, post, e, c, v@, res),
            Command::DestroyEntity(e) => exists|res: Result<(), EcsError>|
                World::destroy_outcome(pre, post, e, res),
        }
    }

    /// The world stepped from `pre` to `post` by applying `cmds` first to
    /// last: each command took effect, in exactly the order queued.
    pub open spec fn replay_ok(pre: World, post: World, cmds: Seq<Command>) -> bool
        decreases cmds.len(),
    {
        if cmds.len() == 0 {
            post == pre
        } else {
            exists|midw: World|
                #[trigger] World::command_applied(pre, midw, cmds[0]) && World::replay_ok(
                    midw,
                    post,
                    cmds.drop_first(),
                )
        }
    }

    /// A replay extends by one applied command at its end.
    pub proof fn lemma_replay_snoc(a: World, b: World, c_: World, s: Seq<Command>, x: Command)
        requires
            World::replay_ok(a, b, s),
            World::command_applied(b, c_, x),
        ensures
            World::replay_ok(a, c_, s.push(x)),
        decreases s.len(),
    {
        if s.len() == 0 {
            assert(b == a);
            assert(s.push(x)[0] == x);
            assert(s.push(x).drop_first() =~= Seq::<Command>::empty());
            assert(World::replay_ok(c_, c_, s.push(x).drop_first()));
            assert(World::command_applied(a, c_, s.push(x)[0]) && World::replay_ok(
                c_,
                c_,
                s.push(x).drop_first(),
            ));
        } else {
            let midw = choose|midw: World|
                #[trigger] World::command_applied(a, midw, s[0]) && World::replay_ok(
                    midw,
                    b,
                    s.drop_first(),
                );
            World::lemma_replay_snoc(midw, b, c_, s.drop_first(), x);
            assert(s.push(x)[0] == s[0]);
            assert(s.push(x).drop_first() =~= s.drop_first().push(x));
            assert(World::command_applied(a, midw, s.push(x)[0]) && World::replay_ok(
                midw,
                c_,
                s.push(x).drop_first(),
            ));
        }
    }

    /// What a committed `remove` does: a no-op when the component is absent,
    /// else one `OnRemove` notification per matching observer carrying the
    /// still-intact value, then a move to the table without `c`.
    pub open spec fn remove_outcome(
        pre: World,
        post: World,
        e: Entity,
        c: u64,
        res: Result<(), EcsError>,
    ) -> bool {
        match res {
            Ok(u) => {
                &&& u == ()
                &&& pre.spec_alive(e)
                &&& pre.spec_registered(c)
                &&& (if !pre.comps_of(e).contains(c) {
                    post == pre
                } else {
                    &&& post.comps_of(e) == pre.comps_of(e).remove(c)
                    &&& (forall|c2: u64|
                        pre.comps_of(e).contains(c2) && c2 != c ==> post.value_of(e, c2)
                            == pre.value_of(e, c2))
                    &&& World::structural_frame(pre, post, e)
                    &&& post.spec_events() == pre.spec_events() + notifs(
                        pre.spec_observers(),
                        e,
                        c,
                        EventKind::OnRemove,
                        pre.value_of(e, c),
                    )
                })
            },
            Err(err) => World::arg_error(pre, post, e, c, err),
        }
    }

    /// What a committed `set` does: add-if-absent (firing `OnAdd` with the
    /// zero-constructed value first), then the assignment, then one `OnSet`
    /// notification per matching observer carrying the assigned value.
    pub open spec fn set_outcome(
        pre: World,
        post: World,
        e: Entity,
        c: u64,
        v: Seq<u8>,
        res: Result<(), EcsError>,
    ) -> bool {
        match res {
            Ok(u) => {
                &&& u == ()
                &&& pre.spec_alive(e)
                &&& pre.spec_registered(c)
                &&& post.comps_of(e) == pre.comps_of(e).insert(c)
                &&& post.value_of(e, c) == v
                &&& (forall|c2: u64|
                    pre.comps_of(e).contains(c2) && c2 != c ==> post.value_of(e, c2)
                        == pre.value_of(e, c2))
                &&& World::structural_frame(pre, post, e)
                &&& post.spec_events() == pre.spec_events() + (if pre.comps_of(e).contains(c) {
                    notifs(pre.spec_observers(), e, c, EventKind::OnSet, v)
                } else {
                    notifs(
                        pre.spec_observers(),
                        e,
                        c,
                        EventKind::OnAdd,
                        zero_value(pre.component_size(c)),
                    ) + notifs(pre.spec_observers(), e, c, EventKind::OnSet, v)
                })
            },
            Err(err) => World::arg_error(pre, post, e, c, err),
        }
    }

    // ----- construction and registry -----

    /// A fresh, empty world: no entities, no components, no observers, one
    /// root table for the empty component set, defer depth zero.
    pub fn new() -> (w: World)
        ensures
            w.wf(),
            w.regs() == Seq::<ComponentDesc>::empty(),
            w.n_components() == 0,
            w.n_slots() == 0,
            w.n_tables() == 1,
            w.spec_depth() == 0,
            w.spec_queue().len() == 0,
            w.spec_events().len() == 0,
            w.spec_observers().len() == 0,
            forall|e: Entity| !w.spec_alive(e),
    {
        let root = Table {
            comps: Vec::new(),
            entities: Vec::new(),
            columns: Vec::new(),
            group: 0,
        };
        let mut tables: Vec<Table> = Vec::new();
        tables.push(root);
        let w = World {
            registry: Vec::new(),
            tables,
            slots: Vec::new(),
            free: Vec::new(),
            depth: 0,
            queue: Vec::new(),
            observers: Vec::new(),
            events: Vec::new(),
            names: Vec::new(),
            queries: Vec::new(),
        };
        proof {
            assert(events_view(w.events@) =~= Seq::<crate::events::Event>::empty());
        }
        w
    }

    /// Registers a component descriptor and returns its id. Re-registering
    /// an identical descriptor returns the existing id and changes nothing;
    /// a descriptor with a known `type_key` but a different layout fails
    /// with `ComponentConflict`. Ids are dense: `0, 1, 2, ...`.
    pub fn register(&mut self, desc: ComponentDesc) -> (res: Result<u64, EcsError>)
        requires
            old(self).wf(),
            old(self).n_components() < 0x1_0000_0000,
        ensures
            final(self).wf(),
            match res {
                Ok(c) => {
                    &&& final(self).spec_registered(c)
                    &&& final(self).regs()[c as int] == desc
                    &&& (if old(self).has_type_key(desc.type_key) {
                        // idempotent: the one existing id, nothing changed
                        &&& *final(self) == *old(self)
                        &&& old(self).regs()[c as int].type_key == desc.type_key
                    } else {
                        // fresh id at the end of the registry
                        &&& c as int == old(self).n_components()
                        &&& final(self).regs() == old(self).regs().push(desc)
                    })
                },
                Err(err) => {
                    &&& err == EcsError::ComponentConflict
                    &&& *final(self) == *old(self)
                    &&& old(self).has_type_key(desc.type_key)
                    &&& forall|i: int|
                        0 <= i < old(self).regs().len() && (#[trigger] old(
                            self,
                        ).regs()[i]).type_key == desc.type_key ==> old(self).regs()[i] != desc
                },
            },
            final(self).n_components() >= old(self).n_components(),
            old(self).all_preserved(*final(self)),
            old(self).tables_extend(*final(self)),
            old(self).defer_eq(*final(self)),
            final(self).spec_events() == old(self).spec_events(),
            final(self).spec_observers() == old(self).spec_observers(),
            final(self).n_slots() == old(self).n_slots(),
            final(self).n_tables() == old(self).n_tables(),
    {
        let mut i: usize = 0;
        while i < self.registry.len()
            invariant
                *self == *old(self),
                self.wf(),
                i <= self.registry@.len(),
                forall|k: int| 0 <= k < i ==> (#[trigger] self.registry@[k]).type_key
                    != desc.type_key,
            decreases self.registry@.len() - i,
        {
            let d = self.registry[i];
            if d.type_key == desc.type_key {
                if d.size == desc.size && d.align == desc.align {
                    proof {
                        assert(self.registry@[i as int].type_key == desc.type_key);
                        assert(self.registry@[i as int] == desc);
                        assert(self.has_type_key(desc.type_key));
                        assert(self.all_preserved(*self));
                        assert(self.tables_extend(*self));
                    }
                    return Ok(i as u64);
                } else {
                    proof {
                        assert(self.registry@[i as int].type_key == desc.type_key);
                        assert(self.has_type_key(desc.type_key));
                        assert forall|k: int|
                            0 <= k < self.regs().len() && (#[trigger] self.regs()[k]).type_key
                                == desc.type_key implies self.regs()[k] != desc by {
                            if k != i as int {
                                // registered type keys are unique
                                if k < i as int {
                                    assert(self.registry@[k].type_key != self.registry@[i as int].type_key);
                                } else {
                                    assert(self.registry@[i as int].type_key != self.registry@[k].type_key);
                                }
                            }
                        }
                    }
                    return Err(EcsError::ComponentConflict);
                }
            }
            i += 1;
        }
        let c = self.registry.len() as u64;
        let ghost pre = *self;
        self.registry.push(desc);
        proof {
            let post = *self;
            assert(post.registry@ == pre.registry@.push(desc));
            World::lemma_wf_registry_extend(pre, post);
            // the new key is distinct from every registered one
            assert forall|i1: int, i2: int| 0 <= i1 < i2 < post.registry@.len() implies (
            #[trigger] post.registry@[i1]).type_key != (#[trigger] post.registry@[i2]).type_key by {
                if i2 == post.registry@.len() - 1 {
                    assert(post.registry@[i1] == pre.registry@[i1]);
                }
            }
            assert forall|e: Entity| #[trigger] pre.entity_preserved(post, e) by {
                assert(pre.spec_alive(e) == post.spec_alive(e));
            }
            assert(pre.tables_extend(post));
        }
        Ok(c)
    }

    /// The number of registered component kinds.
    pub fn component_count(&self) -> (n: usize)
        ensures
            n as int == self.n_components(),
    {
        self.registry.len()
    }

    /// Marks every compiled query's cached match list stale, so it is
    /// rebuilt before its next use.
    pub(crate) fn invalidate_queries(&mut self)
        requires
            old(self).wf(),
        ensures
            final(self).wf(),
            final(self).queries@.len() == old(self).queries@.len(),
            forall|qi: int|
                0 <= qi < old(self).queries@.len() ==> #[trigger] final(self).queries@[qi]
                    == (Query { stale: true, ..old(self).queries@[qi] }),
            final(self).registry == old(self).registry,
            final(self).tables == old(self).tables,
            final(self).slots == old(self).slots,
            final(self).free == old(self).free,
            final(self).depth == old(self).depth,
            final(self).queue == old(self).queue,
            final(self).observers == old(self).observers,
            final(self).events == old(self).events,
            final(self).names == old(self).names,
    {
        let n = self.queries.len();
        let mut qi: usize = 0;
        while qi < n
            invariant
                n == self.queries@.len(),
                n == old(self).queries@.len(),
                qi <= n,
                self.registry == old(self).registry,
                self.tables == old(self).tables,
                self.slots == old(self).slots,
                self.free == old(self).free,
                self.depth == old(self).depth,
                self.queue == old(self).queue,
                self.observers == old(self).observers,
                self.events == old(self).events,
                self.names == old(self).names,
                old(self).wf(),
                forall|k: int|
                    0 <= k < qi ==> #[trigger] self.queries@[k] == (Query {
                        stale: true,
                        ..old(self).queries@[k]
                    }),
                forall|k: int| qi <= k < n ==> #[trigger] self.queries@[k] == old(self).queries@[k],
            decreases n - qi,
        {
            self.queries[qi].stale = true;
            proof {
                assert(self.queries@[qi as int] == (Query {
                    stale: true,
                    ..old(self).queries@[qi as int]
                }));
            }
            qi += 1;
        }
        proof {
            let post = *self;
            let pre = *old(self);
            assert(post.tables_ok()) by {
                assert forall|t: int| 0 <= t < post.tables@.len() implies table_wf(
                    #[trigger] post.tables@[t],
                    post.registry@.len() as nat,
                ) by {
                    assert(table_wf(pre.tables@[t], pre.registry@.len() as nat));
                }
            }
            assert(post.links_ok()) by {
                assert forall|t: int, r: int|
                    0 <= t < post.tables@.len() && 0 <= r < post.tables@[t].entities@.len() implies
                    #[trigger] post.row_linked(t, r) by {
                    assert(pre.row_linked(t, r));
                }
                assert forall|i: int| 0 <= i < post.slots@.len() && post.slots@[i].alive implies
                    #[trigger] post.slot_linked(i) by {
                    assert(pre.slot_linked(i));
                }
            }
            assert(post.queries_ok()) by {
                assert forall|k: int| 0 <= k < post.queries@.len() implies {
                    let q = #[trigger] post.queries@[k];
                    post.query_terms_wf(q) && (!q.stale ==> post.cache_ok(q))
                } by {
                    let q = post.queries@[k];
                    assert(pre.query_terms_wf(pre.queries@[k]));
                    assert(q.required == pre.queries@[k].required);
                    assert(q.excluded == pre.queries@[k].excluded);
                    assert(q.stale);
                }
            }
        }
    }

    /// Returns the table whose component set equals `comps` read as an
    /// unordered set (insertion order and duplicates are irrelevant),
    /// creating an empty such table if none exists yet. Fails with
    /// `InvalidParameter` when `comps` names an unregistered component, and
    /// then changes nothing.
    pub fn find_or_create_table(&mut self, comps: &Vec<u64>) -> (res: Result<usize, EcsError>)
        requires
            old(self).wf(),
        ensures
            final(self).wf(),
            match res {
                Ok(t) => {
                    &&& forall|j: int|
                        0 <= j < comps@.len() ==> old(self).spec_registered(#[trigger] comps@[j])
                    &&& 0 <= t < final(self).n_tables()
                    &&& final(self).table_comps(t as int) == comps@.to_set()
                    // identity: if a table with this set existed, it is returned
                    // and nothing changes; otherwise exactly one is appended
                    &&& forall|t2: int|
                        0 <= t2 < old(self).n_tables() && old(self).table_comps(t2)
                            == comps@.to_set() ==> t as int == t2
                    &&& ((exists|t2: int|
                        0 <= t2 < old(self).n_tables() && #[trigger] old(self).table_comps(t2)
                            == comps@.to_set()) ==> final(self).n_tables() == old(
                        self,
                    ).n_tables())
                    &&& final(self).n_tables() <= old(self).n_tables() + 1
                },
                Err(err) => {
                    &&& err == EcsError::InvalidParameter
                    &&& *final(self) == *old(self)
                    &&& exists|j: int|
                        0 <= j < comps@.len() && !old(self).spec_registered(#[trigger] comps@[j])
                },
            },
            old(self).tables_extend(*final(self)),
            old(self).all_preserved(*final(self)),
            old(self).defer_eq(*final(self)),
            final(self).spec_events() == old(self).spec_events(),
            final(self).spec_observers() == old(self).spec_observers(),
            final(self).regs() == old(self).regs(),
            final(self).n_slots() == old(self).n_slots(),
            forall|e2: Entity| final(self).table_of(e2) == old(self).table_of(e2),
            forall|e2: Entity| final(self).spec_alive(e2) == old(self).spec_alive(e2),
            old(self).statics_eq(*final(self)),
    {
        // every named component must be registered
        let mut j: usize = 0;
        while j < comps.len()
            invariant
                *self == *old(self),
                self.wf(),
                j <= comps@.len(),
                forall|k: int| 0 <= k < j ==> self.spec_registered(#[trigger] comps@[k]),
            decreases comps@.len() - j,
        {
            if comps[j] >= self.registry.len() as u64 {
                return Err(EcsError::InvalidParameter);
            }
            j += 1;
        }
        let key = canonicalize(comps);
        let ghost pre = *self;
        let n = self.tables.len();
        let mut t: usize = 0;
        while t < n
            invariant
                *self == pre,
                pre.wf(),
                n == self.tables@.len(),
                t <= n,
                strictly_sorted(key@),
                key@.to_set() == comps@.to_set(),
                forall|k: int| 0 <= k < comps@.len() ==> self.spec_registered(#[trigger] comps@[k]),
                forall|k: int| 0 <= k < t ==> (#[trigger] self.tables@[k]).comps@ != key@,
            decreases n - t,
        {
            if same_seq(&self.tables[t].comps, &key) {
                proof {
                    assert(self.table_comps(t as int) == comps@.to_set());
                    assert forall|t2: int|
                        0 <= t2 < pre.n_tables() && pre.table_comps(t2) == comps@.to_set() implies
                        t as int == t2 by {
                        lemma_sorted_set_canonical(pre.tables@[t2].comps@, key@);
                        if t2 != t as int {
                            if t2 < t as int {
                                assert(pre.tables@[t2].comps@ != pre.tables@[t as int].comps@);
                            } else {
                                assert(pre.tables@[t as int].comps@ != pre.tables@[t2].comps@);
                            }
                        }
                    }
                    assert(pre.all_preserved(*self)) by {
                        assert forall|e: Entity| #[trigger] pre.entity_preserved(*self, e) by {}
                    }
                    assert(pre.tables_extend(*self));
                }
                return Ok(t);
            }
            t += 1;
        }
        // no such table: append an empty one
        let mut columns: Vec<Vec<Vec<u8>>> = Vec::new();
        let mut ci: usize = 0;
        let ncols = key.len();
        while ci < ncols
            invariant
                ci <= ncols,
                columns@.len() == ci,
                forall|k: int| 0 <= k < ci ==> (#[trigger] columns@[k])@.len() == 0,
            decreases ncols - ci,
        {
            columns.push(Vec::new());
            ci += 1;
        }
        // mark caches stale before the table list changes
        self.invalidate_queries();
        let ghost inv = *self;
        let new_t = self.tables.len();
        self.tables.push(
            Table { comps: key, entities: Vec::new(), columns, group: 0 },
        );
        proof {
            let mid = *self;
            assert(mid.tables_ok()) by {
                assert forall|k: int| 0 <= k < mid.tables@.len() implies table_wf(
                    #[trigger] mid.tables@[k],
                    mid.registry@.len() as nat,
                ) by {
                    if k < new_t as int {
                        assert(table_wf(inv.tables@[k], inv.registry@.len() as nat));
                    } else {
                        assert forall|jj: int| 0 <= jj < mid.tables@[k].comps@.len() implies (
                        #[trigger] mid.tables@[k].comps@[jj] as nat) < mid.registry@.len() as nat by {
                            assert(mid.tables@[k].comps@.to_set().contains(mid.tables@[k].comps@[jj]));
                            assert(comps@.to_set().contains(mid.tables@[k].comps@[jj]));
                            let w = choose|w: int|
                                0 <= w < comps@.len() && comps@[w] == mid.tables@[k].comps@[jj];
                            assert(pre.spec_registered(comps@[w]));
                        }
                    }
                }
                assert forall|t1: int, t2: int| 0 <= t1 < t2 < mid.tables@.len() implies (
                #[trigger] mid.tables@[t1]).comps@ != (#[trigger] mid.tables@[t2]).comps@ by {
                    if t2 == new_t as int {
                        assert(pre.tables@[t1].comps@ != key@);
                    } else {
                        assert(pre.tables@[t1].comps@ != pre.tables@[t2].comps@);
                    }
                }
            }
            assert(mid.links_ok()) by {
                assert forall|tt: int, r: int|
                    0 <= tt < mid.tables@.len() && 0 <= r < mid.tables@[tt].entities@.len() implies
                    #[trigger] mid.row_linked(tt, r) by {
                    assert(tt < new_t as int);
                    assert(inv.row_linked(tt, r));
                }
                assert forall|i: int| 0 <= i < mid.slots@.len() && mid.slots@[i].alive implies
                    #[trigger] mid.slot_linked(i) by {
                    assert(inv.slot_linked(i));
                }
            }
            assert(mid.queries_ok()) by {
                assert forall|qi: int| 0 <= qi < mid.queries@.len() implies {
                    let q = #[trigger] mid.queries@[qi];
                    mid.query_terms_wf(q) && (!q.stale ==> mid.cache_ok(q))
                } by {
                    let q = mid.queries@[qi];
                    assert(q == (Query { stale: true, ..pre.queries@[qi] }));
                    assert(pre.query_terms_wf(pre.queries@[qi]));
                    assert(q.stale);
                }
            }
        }
        proof {
            let post = *self;
            assert(post.table_comps(new_t as int) == comps@.to_set());
            assert forall|t2: int|
                0 <= t2 < pre.n_tables() && pre.table_comps(t2) == comps@.to_set() implies
                new_t as int == t2 by {
                lemma_sorted_set_canonical(pre.tables@[t2].comps@, key@);
                assert(pre.tables@[t2].comps@ != key@);
            }
            assert(pre.tables_extend(post));
            assert forall|e: Entity| #[trigger] pre.entity_preserved(post, e) by {
                if pre.spec_alive(e) {
                    assert(pre.slot_linked(e.spec_index()));
                    let tt = pre.slots@[e.spec_index()].table as int;
                    assert(post.tables@[tt] == pre.tables@[tt]);
                }
            }
            assert(post.spec_events() == pre.spec_events());
        }
        Ok(new_t)
    }

    /// Caches of non-stale queries stay exact when the table list keeps its
    /// length and every table keeps its component key.
    pub(crate) proof fn lemma_queries_ok_same_keys(a: World, b: World)
        requires
            a.wf(),
            b.queries@ == a.queries@,
            b.registry@ == a.registry@,
            b.tables@.len() == a.tables@.len(),
            forall|t: int| 0 <= t < a.tables@.len() ==> (#[trigger] b.tables@[t]).comps@
                == a.tables@[t].comps@,
        ensures
            b.queries_ok(),
    {
        assert forall|qi: int| 0 <= qi < b.queries@.len() implies {
            let q = #[trigger] b.queries@[qi];
            b.query_terms_wf(q) && (!q.stale ==> b.cache_ok(q))
        } by {
            let q = b.queries@[qi];
            assert(a.queries@[qi] == q);
            assert(a.query_terms_wf(q) && (!q.stale ==> a.cache_ok(q)));
            if !q.stale {
                assert forall|k: int| 0 <= k < q.cached@.len() implies (
                #[trigger] q.cached@[k] as int) < b.tables@.len() && b.table_matches(
                    q.cached@[k] as int,
                    q.required@,
                    q.excluded@,
                ) by {
                    assert(a.table_matches(q.cached@[k] as int, q.required@, q.excluded@));
                }
                assert forall|t: int|
                    0 <= t < b.tables@.len() && b.table_matches(t, q.required@, q.excluded@) implies
                    q.cached@.contains(t as usize) by {
                    assert(a.table_matches(t, q.required@, q.excluded@));
                }
            }
        }
    }

    /// Moves live entity `e` into table `dst`, writing `vals` (one byte
    /// string per destination column, in key order) as its row, and compacts
    /// the vacated source row by swapping the source's last row into the
    /// gap, updating that entity's index entry in the same step.
    #[verifier::rlimit(60)]
    pub(crate) fn place_row(&mut self, e: Entity, dst: usize, vals: Vec<Vec<u8>>)
        requires
            old(self).wf(),
            old(self).spec_alive(e),
            (dst as int) < old(self).n_tables(),
            dst as int != old(self).table_of(e),
            vals@.len() == old(self).tables@[dst as int].comps@.len(),
        ensures
            final(self).wf(),
            final(self).spec_alive(e),
            final(self).table_of(e) == dst as int,
            final(self).comps_seq_of(e) == old(self).tables@[dst as int].comps@,
            forall|j: int|
                0 <= j < vals@.len() ==> final(self).value_of(
                    e,
                    old(self).tables@[dst as int].comps@[j],
                ) == (#[trigger] vals@[j])@,
            old(self).others_preserved(*final(self), e),
            forall|e2: Entity| final(self).spec_alive(e2) == old(self).spec_alive(e2),
            final(self).registry == old(self).registry,
            final(self).observers == old(self).observers,
            final(self).events == old(self).events,
            final(self).queue == old(self).queue,
            final(self).depth == old(self).depth,
            final(self).names == old(self).names,
            final(self).queries == old(self).queries,
            final(self).free == old(self).free,
            final(self).tables@.len() == old(self).tables@.len(),
            forall|t: int|
                0 <= t < old(self).tables@.len() ==> (#[trigger] final(self).tables@[t]).comps@
                    == old(self).tables@[t].comps@ && final(self).tables@[t].group == old(
                    self,
                ).tables@[t].group,
            final(self).slots@.len() == old(self).slots@.len(),
    {
        let ghost pre = *old(self);
        let i = e.slot_index();
        proof {
            assert(pre.slot_linked(i as int));
        }
        let src = self.slots[i].table;
        let r = self.slots[i].row;
        let newrow = self.tables[dst].entities.len();
        // append the row to dst
        self.tables[dst].entities.push(i);
        let mut vals = vals;
        let ghost vals0 = vals@;
        let ncols = self.tables[dst].columns.len();
        let mut j: usize = 0;
        while j < ncols
            invariant
                pre.wf(),
                j <= ncols,
                ncols == pre.tables@[dst as int].columns@.len(),
                vals0.len() == ncols,
                (dst as int) < self.tables@.len(),
                vals@ == vals0.skip(j as int),
                self.registry == pre.registry,
                self.slots == pre.slots,
                self.free == pre.free,
                self.depth == pre.depth,
                self.queue == pre.queue,
                self.observers == pre.observers,
                self.events == pre.events,
                self.names == pre.names,
                self.queries == pre.queries,
                self.tables@.len() == pre.tables@.len(),
                forall|t: int|
                    0 <= t < self.tables@.len() && t != dst as int ==> #[trigger] self.tables@[t]
                        == pre.tables@[t],
                self.tables@[dst as int].comps == pre.tables@[dst as int].comps,
                self.tables@[dst as int].group == pre.tables@[dst as int].group,
                self.tables@[dst as int].entities@ == pre.tables@[dst as int].entities@.push(
                    i,
                ),
                self.tables@[dst as int].columns@.len() == ncols,
                forall|k: int|
                    0 <= k < j ==> (#[trigger] self.tables@[dst as int].columns@[k])@
                        == pre.tables@[dst as int].columns@[k]@.push(vals0[k]),
                forall|k: int|
                    j <= k < ncols ==> (#[trigger] self.tables@[dst as int].columns@[k])
                        == pre.tables@[dst as int].columns@[k],
            decreases ncols - j,
        {
            let v = vals.remove(0);
            proof {
                assert(vals0.skip(j as int)[0] == vals0[j as int]);
                assert(vals0.skip(j as int).remove(0) =~= vals0.skip(j + 1));
            }
            self.tables[dst].columns[j].push(v);
            j += 1;
        }
        // point e's slot at the new row
        let g = self.slots[i].generation;
        self.slots[i] = Slot { generation: g, alive: true, table: dst, row: newrow };
        // compact the vacated source row
        let ghost src_ents = pre.tables@[src as int].entities@;
        let ghost srci = src as int;
        let removed = self.tables[src].entities.swap_remove(r);
        let srclen = self.tables[src].entities.len();
        if r < srclen {
            let m = self.tables[src].entities[r];
            proof {
                assert(pre.row_linked(srci, src_ents.len() - 1));
                assert(m == src_ents[src_ents.len() - 1]);
            }
            let mg = self.slots[m].generation;
            self.slots[m] = Slot { generation: mg, alive: true, table: src, row: r };
        }
        let ncs = self.tables[src].columns.len();
        let ghost mid = *self;
        proof {
            assert(pre.slot_linked(i as int));
            assert(srci != dst as int);
            assert(table_wf(pre.tables@[srci], pre.registry@.len() as nat));
            assert(mid.tables@[srci].columns == pre.tables@[srci].columns);
            assert forall|k: int| 0 <= k < ncs implies (
            #[trigger] mid.tables@[srci].columns@[k])@.len() == src_ents.len() by {
                assert(pre.tables@[srci].columns@[k]@.len() == pre.tables@[srci].entities@.len());
            }
            assert(r < src_ents.len());
        }
        let mut j2: usize = 0;
        while j2 < ncs
            invariant
                j2 <= ncs,
                srci == src as int,
                self.registry == mid.registry,
                self.slots == mid.slots,
                self.free == mid.free,
                self.depth == mid.depth,
                self.queue == mid.queue,
                self.observers == mid.observers,
                self.events == mid.events,
                self.names == mid.names,
                self.queries == mid.queries,
                self.tables@.len() == mid.tables@.len(),
                0 <= srci < self.tables@.len(),
                ncs == mid.tables@[srci].columns@.len(),
                forall|t: int|
                    0 <= t < self.tables@.len() && t != srci ==> #[trigger] self.tables@[t]
                        == mid.tables@[t],
                self.tables@[srci].comps == mid.tables@[srci].comps,
                self.tables@[srci].group == mid.tables@[srci].group,
                self.tables@[srci].entities == mid.tables@[srci].entities,
                self.tables@[srci].columns@.len() == ncs,
                forall|k: int|
                    0 <= k < j2 ==> (#[trigger] self.tables@[srci].columns@[k])@
                        == mid.tables@[srci].columns@[k]@.update(
                        r as int,
                        mid.tables@[srci].columns@[k]@.last(),
                    ).drop_last(),
                forall|k: int|
                    j2 <= k < ncs ==> (#[trigger] self.tables@[srci].columns@[k])
                        == mid.tables@[srci].columns@[k],
                r < mid.tables@[srci].columns@[0].len() || ncs == 0,
                forall|k: int|
                    0 <= k < ncs ==> (#[trigger] mid.tables@[srci].columns@[k])@.len()
                        == src_ents.len(),
                r < src_ents.len(),
            decreases ncs - j2,
        {
            self.tables[src].compact_column(j2, r);
            j2 += 1;
        }
        proof {
            let post = *self;
            let e_i = i as int;
            let dsti = dst as int;
            let ri = r as int;
            let lasti = src_ents.len() - 1;
            // identities of the tables after the operation
            assert(post.tables@[dsti].entities@ == pre.tables@[dsti].entities@.push(i));
            assert(post.tables@[srci].entities@ == src_ents.update(ri, src_ents[lasti]).drop_last());
            assert(removed == i) by {
                assert(pre.row_linked(srci, ri));
            }
            // table well-formedness
            assert(post.tables_ok()) by {
                assert forall|t: int| 0 <= t < post.tables@.len() implies table_wf(
                    #[trigger] post.tables@[t],
                    post.registry@.len() as nat,
                ) by {
                    assert(table_wf(pre.tables@[t], pre.registry@.len() as nat));
                    if t == dsti {
                        assert(forall|k: int|
                            0 <= k < ncols ==> (#[trigger] post.tables@[dsti].columns@[k])@.len()
                                == pre.tables@[dsti].columns@[k]@.len() + 1);
                    } else if t == srci {
                        assert(forall|k: int|
                            0 <= k < ncs ==> (#[trigger] post.tables@[srci].columns@[k])@.len()
                                == src_ents.len() - 1);
                    }
                }
                assert forall|t1: int, t2: int| 0 <= t1 < t2 < post.tables@.len() implies (
                #[trigger] post.tables@[t1]).comps@ != (#[trigger] post.tables@[t2]).comps@ by {
                    assert(pre.tables@[t1].comps@ != pre.tables@[t2].comps@);
                }
            }
            // every source row holds a distinct entity
            assert forall|k1: int, k2: int| 0 <= k1 < k2 < src_ents.len() implies src_ents[k1]
                != src_ents[k2] by {
                assert(pre.row_linked(srci, k1));
                assert(pre.row_linked(srci, k2));
            }
            // links, row direction
            assert forall|t: int, rr: int|
                0 <= t < post.tables@.len() && 0 <= rr < post.tables@[t].entities@.len() implies
                #[trigger] post.row_linked(t, rr) by {
                if t == dsti {
                    if rr < pre.tables@[dsti].entities@.len() {
                        assert(pre.row_linked(t, rr));
                        let oe = pre.tables@[dsti].entities@[rr] as int;
                        assert(oe != e_i);
                        if ri < lasti {
                            assert(oe != src_ents[lasti] as int) by {
                                if oe == src_ents[lasti] as int {
                                    assert(pre.row_linked(srci, lasti));
                                }
                            }
                        }
                        assert(post.slots@[oe] == pre.slots@[oe]);
                    } else {
                        assert(post.tables@[dsti].entities@[rr] == i);
                        assert(post.slots@[e_i].table as int == dsti);
                        assert(post.slots@[e_i].row as int == rr);
                    }
                } else if t == srci {
                    let oe = post.tables@[srci].entities@[rr] as int;
                    if rr == ri {
                        assert(oe == src_ents[lasti] as int);
                        assert(pre.row_linked(srci, lasti));
                        assert(oe != e_i) by {
                            if oe == e_i {
                                assert(pre.slots@[e_i].row as int == lasti);
                                assert(pre.slots@[e_i].row as int == ri);
                            }
                        }
                        assert(post.slots@[oe].table as int == srci);
                        assert(post.slots@[oe].row as int == rr);
                    } else {
                        assert(oe == src_ents[rr] as int);
                        assert(pre.row_linked(srci, rr));
                        assert(oe != e_i) by {
                            if oe == e_i {
                                assert(pre.slots@[e_i].row as int == rr);
                            }
                        }
                        assert(oe != src_ents[lasti] as int);
                        assert(post.slots@[oe] == pre.slots@[oe]);
                    }
                } else {
                    assert(pre.row_linked(t, rr));
                    let oe = pre.tables@[t].entities@[rr] as int;
                    assert(oe != e_i);
                    if ri < lasti {
                        assert(oe != src_ents[lasti] as int) by {
                            if oe == src_ents[lasti] as int {
                                assert(pre.row_linked(srci, lasti));
                            }
                        }
                    }
                    assert(post.slots@[oe] == pre.slots@[oe]);
                }
            }
            // links, slot direction
            assert forall|k: int| 0 <= k < post.slots@.len() && post.slots@[k].alive implies
                #[trigger] post.slot_linked(k) by {
                if k == e_i {
                    assert(post.tables@[dsti].entities@[newrow as int] == i);
                } else if ri < lasti && k == src_ents[lasti] as int {
                    assert(post.tables@[srci].entities@[ri] == src_ents[lasti]);
                } else {
                    assert(post.slots@[k] == pre.slots@[k]);
                    assert(pre.slot_linked(k));
                    let s = pre.slots@[k];
                    if s.table as int == srci {
                        assert(pre.row_linked(srci, s.row as int));
                        assert(s.row as int != ri);
                        assert(s.row as int != lasti);
                        assert(post.tables@[srci].entities@[s.row as int] == src_ents[s.row as int]);
                    } else if s.table as int == dsti {
                        assert(post.tables@[dsti].entities@[s.row as int] == pre.tables@[dsti].entities@[s.row as int]);
                    } else {
                        assert(post.tables@[s.table as int] == pre.tables@[s.table as int]);
                    }
                }
            }
            // free list: both touched slots stay alive
            assert(post.free_ok()) by {
                assert forall|k: int| 0 <= k < post.free@.len() implies (
                #[trigger] post.free@[k] as int) < post.slots@.len() && !post.slots@[post.free@[k] as int].alive by {
                    assert(pre.free@[k] == post.free@[k]);
                    assert((pre.free@[k] as int) < pre.slots@.len()
                        && !pre.slots@[pre.free@[k] as int].alive);
                    assert(post.free@[k] as int != e_i);
                    if ri < lasti {
                        assert(pre.row_linked(srci, lasti));
                        assert(post.free@[k] as int != src_ents[lasti] as int);
                    }
                }
            }
            World::lemma_queries_ok_same_keys(pre, post);
            // observable state of e
            assert(post.spec_alive(e));
            assert(post.table_of(e) == dsti);
            assert forall|jv: int| 0 <= jv < vals0.len() implies post.value_of(
                e,
                pre.tables@[dsti].comps@[jv],
            ) == (#[trigger] vals0[jv])@ by {
                crate::sets::lemma_sorted_index_of(pre.tables@[dsti].comps@, jv);
                assert(post.tables@[dsti].comps@ == pre.tables@[dsti].comps@);
                assert(post.tables@[dsti].columns@[jv]@ == pre.tables@[dsti].columns@[jv]@.push(
                    vals0[jv],
                ));
                assert(pre.tables@[dsti].columns@[jv]@.len() == newrow as int);
            }
            // everything else is observably untouched
            assert forall|e2: Entity| e2 != e implies #[trigger] pre.entity_preserved(post, e2) by {
                if pre.spec_alive(e2) {
                    let k = e2.spec_index();
                    if k == e_i {
                        assert(e2.spec_generation() == pre.slots@[e_i].generation);
                        Entity::lemma_ext(e2, e);
                    } else {
                        assert(pre.slot_linked(k));
                        let s = pre.slots@[k];
                        let t = s.table as int;
                        assert(post.tables@[t].comps@ == pre.tables@[t].comps@);
                        if ri < lasti && k == src_ents[lasti] as int {
                            // the swapped entity: moved to row ri, values intact
                            assert(pre.row_linked(srci, lasti));
                            assert(t == srci);
                            assert(post.spec_alive(e2) == pre.spec_alive(e2));
                            assert(post.comps_of(e2) == pre.comps_of(e2));
                            assert forall|c: u64| pre.comps_of(e2).contains(c) implies
                                post.value_of(e2, c) == pre.value_of(e2, c) by {
                                let jc = pre.tables@[srci].comps@.index_of(c);
                                assert(pre.tables@[srci].comps@.contains(c));
                                assert(0 <= jc < pre.tables@[srci].comps@.len());
                                assert(post.slots@[k].row as int == ri);
                                assert(post.tables@[srci].columns@[jc]@[ri]
                                    == mid.tables@[srci].columns@[jc]@[lasti]);
                                assert(mid.tables@[srci].columns@[jc] == pre.tables@[srci].columns@[jc]);
                            }
                        } else {
                            assert(post.slots@[k] == pre.slots@[k]);
                            assert(post.spec_alive(e2) == pre.spec_alive(e2));
                            assert(post.comps_of(e2) == pre.comps_of(e2));
                            assert forall|c: u64| pre.comps_of(e2).contains(c) implies
                                post.value_of(e2, c) == pre.value_of(e2, c) by {
                                let jc = pre.tables@[t].comps@.index_of(c);
                                assert(pre.tables@[t].comps@.contains(c));
                                assert(0 <= jc < pre.tables@[t].comps@.len());
                                if t == srci {
                                    assert(pre.row_linked(srci, s.row as int));
                                    assert(s.row as int != ri);
                                    assert(s.row as int != lasti);
                                    assert(post.tables@[srci].columns@[jc]@[s.row as int]
                                        == pre.tables@[srci].columns@[jc]@[s.row as int]);
                                } else if t == dsti {
                                    assert((s.row as int) < pre.tables@[dsti].entities@.len());
                                    assert(post.tables@[dsti].columns@[jc]@[s.row as int]
                                        == pre.tables@[dsti].columns@[jc]@[s.row as int]);
                                } else {
                                    assert(post.tables@[t] == pre.tables@[t]);
                                }
                            }
                        }
                    }
                } else {
                    assert(post.spec_alive(e2) == pre.spec_alive(e2)) by {
                        if post.spec_alive(e2) {
                            let k = e2.spec_index();
                            if k == e_i {
                                Entity::lemma_ext(e2, e);
                                assert(pre.spec_alive(e2));
                            } else if ri < lasti && k == src_ents[lasti] as int {
                                assert(pre.row_linked(srci, lasti));
                                assert(pre.spec_alive(e2) == (pre.slots@[k].generation
                                    == e2.spec_generation()));
                            } else {
                                assert(post.slots@[k] == pre.slots@[k]);
                            }
                        }
                    }
                }
            }
            assert forall|e2: Entity| post.spec_alive(e2) == pre.spec_alive(e2) by {
                if e2 == e {
                } else {
                    assert(pre.entity_preserved(post, e2));
                }
            }
        }
    }

    /// Whatever happened to the defer state, the observer list and the
    /// notification log, the invariant only reads the remaining fields.
    pub(crate) proof fn lemma_wf_frame(a: World, b: World)
        requires
            a.wf(),
            b.registry@ == a.registry@,
            b.tables@ == a.tables@,
            b.slots@ == a.slots@,
            b.free@ == a.free@,
            b.names@ == a.names@,
            b.queries@ == a.queries@,
        ensures
            b.wf(),
    {
        assert forall|t: int| 0 <= t < b.tables@.len() implies table_wf(
            #[trigger] b.tables@[t],
            b.registry@.len() as nat,
        ) by {
            assert(table_wf(a.tables@[t], a.registry@.len() as nat));
        }
        assert forall|t: int, r: int|
            0 <= t < b.tables@.len() && 0 <= r < b.tables@[t].entities@.len() implies
            #[trigger] b.row_linked(t, r) by {
            assert(a.row_linked(t, r));
        }
        assert forall|i: int| 0 <= i < b.slots@.len() && b.slots@[i].alive implies
            #[trigger] b.slot_linked(i) by {
            assert(a.slot_linked(i));
        }
        World::lemma_queries_ok_same_keys(a, b);
    }

    /// What every queued (not yet applied) structural operation does: the
    /// command lands at the back of the queue and nothing else changes.
    pub open spec fn deferred(pre: World, post: World, cmd: Command) -> bool {
        &&& post.spec_queue() == pre.spec_queue().push(cmd)
        &&& post.spec_depth() == pre.spec_depth()
        &&& pre.all_preserved(post)
        &&& post.spec_events() == pre.spec_events()
        &&& pre.statics_eq(post)
        &&& pre.tables_extend(post)
        &&& post.n_slots() == pre.n_slots()
    }

    /// Pushes a command while a deferred scope is open.
    fn enqueue(&mut self, cmd: Command)
        requires
            old(self).wf(),
        ensures
            final(self).wf(),
            World::deferred(*old(self), *final(self), cmd),
    {
        let ghost pre = *self;
        self.queue.push(cmd);
        proof {
            World::lemma_wf_frame(pre, *self);
            assert forall|e2: Entity| #[trigger] pre.entity_preserved(*self, e2) by {}
        }
    }

    /// Adds component `c` to entity `e`: the entity moves to the table whose
    /// set also holds `c`, the new cell is zero-constructed, and `OnAdd`
    /// observers are notified. Present components are left alone. Inside a
    /// deferred scope the operation is queued instead.
    pub fn add(&mut self, e: Entity, c: u64) -> (res: Result<(), EcsError>)
        requires
            old(self).wf(),
        ensures
            final(self).wf(),
            old(self).spec_depth() > 0 ==> res == Ok::<(), EcsError>(()) && World::deferred(
                *old(self),
                *final(self),
                Command::AddComp(e, c),
            ),
            old(self).spec_depth() == 0 ==> World::add_outcome(
                *old(self),
                *final(self),
                e,
                c,
                res,
            ),
    {
        if self.depth > 0 {
            self.enqueue(Command::AddComp(e, c));
            Ok(())
        } else {
            self.add_now(e, c)
        }
    }

    /// Removes component `c` from entity `e`: `OnRemove` observers see the
    /// still-intact value, then the entity moves to the table without `c`.
    /// Absent components are left alone. Inside a deferred scope the
    /// operation is queued instead.
    pub fn remove(&mut self, e: Entity, c: u64) -> (res: Result<(), EcsError>)
        requires
            old(self).wf(),
        ensures
            final(self).wf(),
            old(self).spec_depth() > 0 ==> res == Ok::<(), EcsError>(()) && World::deferred(
                *old(self),
                *final(self),
                Command::RemoveComp(e, c),
            ),
            old(self).spec_depth() == 0 ==> World::remove_outcome(
                *old(self),
                *final(self),
                e,
                c,
                res,
            ),
    {
        if self.depth > 0 {
            self.enqueue(Command::RemoveComp(e, c));
            Ok(())
        } else {
            self.remove_now(e, c)
        }
    }

    /// Writes `v` as entity `e`'s value for component `c`, adding the
    /// component first when absent; `OnAdd` observers (if any) fire before
    /// every `OnSet` observer, and `OnSet` observers see the assigned value.
    /// Inside a deferred scope the operation is queued instead.
    pub fn set_value(&mut self, e: Entity, c: u64, v: Vec<u8>) -> (res: Result<(), EcsError>)
        requires
            old(self).wf(),
        ensures
            final(self).wf(),
            old(self).spec_depth() > 0 ==> res == Ok::<(), EcsError>(()) && World::deferred(
                *old(self),
                *final(self),
                Command::SetComp(e, c, v),
            ),
            old(self).spec_depth() == 0 ==> World::set_outcome(
                *old(self),
                *final(self),
                e,
                c,
                v@,
                res,
            ),
    {
        if self.depth > 0 {
            self.enqueue(Command::SetComp(e, c, v));
            Ok(())
        } else {
            self.set_now(e, c, &v)
        }
    }

    /// Destroys entity `e`: its row is removed (the table compacts by a
    /// last-row swap) and its slot's generation is bumped, so the identifier
    /// and any copy of it are rejected from now on. Inside a deferred scope
    /// the operation is queued instead.
    pub fn destroy(&mut self, e: Entity) -> (res: Result<(), EcsError>)
        requires
            old(self).wf(),
        ensures
            final(self).wf(),
            old(self).spec_depth() > 0 ==> res == Ok::<(), EcsError>(()) && World::deferred(
                *old(self),
                *final(self),
                Command::DestroyEntity(e),
            ),
            old(self).spec_depth() == 0 ==> World::destroy_outcome(
                *old(self),
                *final(self),
                e,
                res,
            ),
    {
        if self.depth > 0 {
            self.enqueue(Command::DestroyEntity(e));
            Ok(())
        } else {
            self.destroy_now(e)
        }
    }

    /// Closes a deferred scope. Only the outermost close replays: the queued
    /// commands are applied in first-in first-out order — exactly the order
    /// the caller issued them, with no reordering or coalescing — and a
    /// command whose entity has meanwhile died is skipped, as that operation
    /// alone fails. Fails with `InvalidParameter` when no scope is open.
    pub fn end_defer(&mut self) -> (res: Result<(), EcsError>)
        requires
            old(self).wf(),
        ensures
            final(self).wf(),
            match res {
                Ok(u) => {
                    &&& u == ()
                    &&& old(self).spec_depth() > 0
                    &&& final(self).spec_depth() == old(self).spec_depth() - 1
                    &&& (old(self).spec_depth() == 1 ==> {
                        &&& final(self).spec_queue().len() == 0
                        // the queued commands took effect first to last: the
                        // replay starts from the pre-close world (with the
                        // scope closed and the queue handed over) and steps
                        // by each command's own contract, in queue order
                        &&& exists|w0: World|
                            {
                                &&& old(self).all_preserved(w0)
                                &&& old(self).statics_eq(w0)
                                &&& w0.spec_events() == old(self).spec_events()
                                &&& w0.spec_depth() == 0
                                &&& w0.spec_queue().len() == 0
                                &&& old(self).tables_extend(w0)
                                &&& w0.n_tables() == old(self).n_tables()
                                &&& w0.n_slots() == old(self).n_slots()
                                &&& #[trigger] World::replay_ok(
                                    w0,
                                    *final(self),
                                    old(self).spec_queue(),
                                )
                            }
                    })
                    &&& (old(self).spec_depth() > 1 ==> {
                        &&& final(self).spec_queue() == old(self).spec_queue()
                        &&& old(self).all_preserved(*final(self))
                        &&& final(self).spec_events() == old(self).spec_events()
                    })
                    &&& old(self).statics_eq(*final(self))
                    &&& old(self).tables_extend(*final(self))
                    &&& final(self).regs() == old(self).regs()
                },
                Err(err) => {
                    &&& err == EcsError::InvalidParameter
                    &&& *final(self) == *old(self)
                    &&& old(self).spec_depth() == 0
                },
            },
    {
        let ghost pre = *self;
        if self.depth == 0 {
            return Err(EcsError::InvalidParameter);
        }
        if self.depth > 1 {
            self.depth = self.depth - 1;
            proof {
                World::lemma_wf_frame(pre, *self);
                assert forall|e2: Entity| #[trigger] pre.entity_preserved(*self, e2) by {}
            }
            return Ok(());
        }
        self.depth = 0;
        let mut cmds: Vec<Command> = Vec::new();
        std::mem::swap(&mut cmds, &mut self.queue);
        let ghost w0 = *self;
        let ghost all_cmds = cmds@;
        let ghost mut done: Seq<Command> = Seq::empty();
        proof {
            World::lemma_wf_frame(pre, w0);
            assert forall|e2: Entity| #[trigger] pre.entity_preserved(w0, e2) by {}
        }
        while cmds.len() > 0
            invariant
                self.wf(),
                pre.wf(),
                pre == *old(self),
                pre.spec_depth() == 1,
                self.depth == 0,
                self.queue@.len() == 0,
                pre.statics_eq(*self),
                pre.tables_extend(*self),
                self.regs() == pre.regs(),
                all_cmds == pre.spec_queue(),
                done + cmds@ == all_cmds,
                pre.all_preserved(w0),
                pre.statics_eq(w0),
                w0.spec_events() == pre.spec_events(),
                w0.spec_depth() == 0,
                w0.spec_queue().len() == 0,
                pre.tables_extend(w0),
                w0.n_tables() == pre.n_tables(),
                w0.n_slots() == pre.n_slots(),
                World::replay_ok(w0, *self, done),
            decreases cmds@.len(),
        {
            let ghost step = *self;
            let ghost rest = cmds@;
            let cmd = cmds.remove(0);
            proof {
                assert(cmds@ =~= rest.drop_first());
            }
            match cmd {
                Command::AddComp(e, c) => {
                    let res = self.add_now(e, c);
                    proof {
                        assert(World::add_outcome(step, *self, e, c, res));
                        assert(World::command_applied(step, *self, cmd));
                    }
                },
                Command::RemoveComp(e, c) => {
                    let res = self.remove_now(e, c);
                    proof {
                        assert(World::remove_outcome(step, *self, e, c, res));
                        assert(World::command_applied(step, *self, cmd));
                    }
                },
                Command::SetComp(e, c, v) => {
                    let res = self.set_now(e, c, &v);
                    proof {
                        assert(World::set_outcome(step, *self, e, c, v@, res));
                        assert(World::command_applied(step, *self, cmd));
                    }
                },
                Command::DestroyEntity(e) => {
                    let res = self.destroy_now(e);
                    proof {
                        assert(World::destroy_outcome(step, *self, e, res));
                        assert(World::command_applied(step, *self, cmd));
                    }
                },
            }
            proof {
                World::lemma_statics_extend_trans(pre, step, *self);
                World::lemma_replay_snoc(w0, step, *self, done, cmd);
                let done0 = done;
                done = done.push(cmd);
                assert(rest[0] == cmd);
                assert((done + cmds@).len() == (done0 + rest).len());
                assert forall|k: int|
                    0 <= k < (done0 + rest).len() implies #[trigger] (done + cmds@)[k] == (done0
                    + rest)[k] by {
                    if k < done0.len() {
                        assert((done + cmds@)[k] == done0[k]);
                        assert((done0 + rest)[k] == done0[k]);
                    } else if k == done0.len() {
                        assert((done + cmds@)[k] == cmd);
                        assert((done0 + rest)[k] == rest[0]);
                    } else {
                        assert((done + cmds@)[k] == cmds@[k - done0.len() - 1]);
                        assert((done0 + rest)[k] == rest[k - done0.len()]);
                        assert(cmds@[k - done0.len() - 1] == rest.drop_first()[k - done0.len()
                            - 1]);
                    }
                }
                assert(done + cmds@ =~= done0 + rest);
            }
        }
        proof {
            assert(done =~= all_cmds);
            assert(World::replay_ok(w0, *self, pre.spec_queue()));
        }
        Ok(())
    }

    /// `statics_eq` composes across steps.
    pub proof fn lemma_statics_trans(a: World, b: World, c_: World)
        requires
            a.statics_eq(b),
            b.statics_eq(c_),
        ensures
            a.statics_eq(c_),
    {
        assert forall|qi: int| 0 <= qi < a.n_queries() implies #[trigger] c_.query_terms(qi)
            == a.query_terms(qi) by {
            assert(b.query_terms(qi) == a.query_terms(qi));
            assert(c_.query_terms(qi) == b.query_terms(qi));
        }
    }

    /// `statics_eq` together with `tables_extend` composes across steps.
    pub(crate) proof fn lemma_statics_extend_trans(a: World, b: World, c_: World)
        requires
            a.statics_eq(b),
            b.statics_eq(c_),
            a.tables_extend(b),
            b.tables_extend(c_),
        ensures
            a.statics_eq(c_),
            a.tables_extend(c_),
    {
        assert forall|qi: int| 0 <= qi < a.n_queries() implies #[trigger] c_.query_terms(qi)
            == a.query_terms(qi) by {
            assert(b.query_terms(qi) == a.query_terms(qi));
            assert(c_.query_terms(qi) == b.query_terms(qi));
        }
        assert forall|t: int| 0 <= t < a.n_tables() implies #[trigger] c_.table_comps(t)
            == a.table_comps(t) by {
            assert(b.table_comps(t) == a.table_comps(t));
            assert(c_.table_comps(t) == b.table_comps(t));
        }
    }

    /// Finds the entity bound to `name`, or creates one and binds it. A
    /// binding whose entity has died is rebound to the fresh entity, so each
    /// name maps to at most one live entity.
    pub fn create_named(&mut self, name: u64) -> (e: Entity)
        requires
            old(self).wf(),
            old(self).n_slots() < usize::MAX,
        ensures
            final(self).wf(),
            final(self).spec_alive(e),
            final(self).name_bound(name),
            final(self).name_entity(name) == e,
            (old(self).name_bound(name) && old(self).spec_alive(old(self).name_entity(name)))
                ==> (*final(self) == *old(self) && e == old(self).name_entity(name)),
            !(old(self).name_bound(name) && old(self).spec_alive(old(self).name_entity(name)))
                ==> (!old(self).spec_alive(e) && final(self).comps_of(e) == Set::<u64>::empty()
                && old(self).others_preserved(*final(self), e)),
            old(self).defer_eq(*final(self)),
            final(self).spec_events() == old(self).spec_events(),
            final(self).regs() == old(self).regs(),
            old(self).tables_extend(*final(self)),
    {
        let ghost pre = *self;
        let n = self.names.len();
        let mut k: usize = 0;
        while k < n
            invariant
                *self == pre,
                pre == *old(self),
                pre.wf(),
                pre.n_slots() < usize::MAX,
                n == self.names@.len(),
                k <= n,
                forall|kk: int| 0 <= kk < k ==> (#[trigger] self.names@[kk]).0 != name,
            decreases n - k,
        {
            let (nm, ent) = self.names[k];
            if nm == name {
                proof {
                    assert(pre.name_bound(name));
                    // uniqueness: the binding index is determined
                    let k2 = choose|k2: int|
                        0 <= k2 < pre.names@.len() && (#[trigger] pre.names@[k2]).0 == name;
                    assert(k2 == k as int) by {
                        if k2 != k as int {
                            if k2 < k as int {
                                assert(pre.names@[k2].0 != pre.names@[k as int].0);
                            } else {
                                assert(pre.names@[k as int].0 != pre.names@[k2].0);
                            }
                        }
                    }
                    assert(pre.name_entity(name) == ent);
                }
                if self.is_alive(ent) {
                    return ent;
                }
                let e = self.create();
                let ghost created = *self;
                self.names[k] = (name, e);
                proof {
                    let post = *self;
                    assert(post.names_ok()) by {
                        assert forall|k1: int, k2: int|
                            0 <= k1 < k2 < post.names@.len() implies (
                        #[trigger] post.names@[k1]).0 != (#[trigger] post.names@[k2]).0 by {
                            assert(pre.names@[k1].0 != pre.names@[k2].0);
                        }
                    }
                    assert(post.tables_ok()) by {
                        assert forall|t: int| 0 <= t < post.tables@.len() implies table_wf(
                            #[trigger] post.tables@[t],
                            post.registry@.len() as nat,
                        ) by {
                            assert(table_wf(created.tables@[t], created.registry@.len() as nat));
                        }
                    }
                    assert(post.links_ok()) by {
                        assert forall|t: int, r: int|
                            0 <= t < post.tables@.len() && 0 <= r < post.tables@[t].entities@.len() implies
                            #[trigger] post.row_linked(t, r) by {
                            assert(created.row_linked(t, r));
                        }
                        assert forall|ii: int|
                            0 <= ii < post.slots@.len() && post.slots@[ii].alive implies
                            #[trigger] post.slot_linked(ii) by {
                            assert(created.slot_linked(ii));
                        }
                    }
                    World::lemma_queries_ok_same_keys(created, post);
                    assert(post.name_bound(name)) by {
                        assert(post.names@[k as int].0 == name);
                    }
                    assert(post.name_entity(name) == e) by {
                        let k3 = choose|k3: int|
                            0 <= k3 < post.names@.len() && (#[trigger] post.names@[k3]).0 == name;
                        if k3 != k as int {
                            if k3 < k as int {
                                assert(post.names@[k3].0 != post.names@[k as int].0);
                            } else {
                                assert(post.names@[k as int].0 != post.names@[k3].0);
                            }
                        }
                    }
                    assert(post.spec_alive(e)) by {
                        assert(created.spec_alive(e));
                    }
                    assert(post.comps_of(e) == created.comps_of(e));
                    assert forall|e2: Entity| e2 != e implies #[trigger] pre.entity_preserved(
                        post,
                        e2,
                    ) by {
                        assert(pre.entity_preserved(created, e2));
                        assert(created.entity_preserved(post, e2)) by {
                            if created.spec_alive(e2) {
                                assert(post.comps_of(e2) == created.comps_of(e2));
                                assert forall|cc: u64| created.comps_of(e2).contains(cc) implies
                                    post.value_of(e2, cc) == created.value_of(e2, cc) by {}
                            }
                        }
                        World::lemma_entity_preserved_trans(pre, created, post, e2);
                    }
                    assert(pre.tables_extend(post)) by {
                        assert(pre.tables_extend(created));
                        assert forall|t: int| 0 <= t < pre.n_tables() implies
                            #[trigger] post.table_comps(t) == pre.table_comps(t) by {
                            assert(created.table_comps(t) == pre.table_comps(t));
                            assert(post.tables@[t] == created.tables@[t]);
                        }
                    }
                    assert(post.spec_events() == pre.spec_events()) by {
                        assert(created.spec_events() == pre.spec_events());
                        assert(post.events == created.events);
                    }
                }
                return e;
            }
            k += 1;
        }
        proof {
            assert(!pre.name_bound(name));
        }
        let e = self.create();
        let ghost created = *self;
        self.names.push((name, e));
        proof {
            let post = *self;
            assert(post.names_ok()) by {
                assert forall|k1: int, k2: int| 0 <= k1 < k2 < post.names@.len() implies (
                #[trigger] post.names@[k1]).0 != (#[trigger] post.names@[k2]).0 by {
                    if k2 == post.names@.len() - 1 {
                        assert(post.names@[k1] == pre.names@[k1]);
                    } else {
                        assert(pre.names@[k1].0 != pre.names@[k2].0);
                    }
                }
            }
            assert(post.tables_ok()) by {
                assert forall|t: int| 0 <= t < post.tables@.len() implies table_wf(
                    #[trigger] post.tables@[t],
                    post.registry@.len() as nat,
                ) by {
                    assert(table_wf(created.tables@[t], created.registry@.len() as nat));
                }
            }
            assert(post.links_ok()) by {
                assert forall|t: int, r: int|
                    0 <= t < post.tables@.len() && 0 <= r < post.tables@[t].entities@.len() implies
                    #[trigger] post.row_linked(t, r) by {
                    assert(created.row_linked(t, r));
                }
                assert forall|ii: int| 0 <= ii < post.slots@.len() && post.slots@[ii].alive implies
                    #[trigger] post.slot_linked(ii) by {
                    assert(created.slot_linked(ii));
                }
            }
            World::lemma_queries_ok_same_keys(created, post);
            assert(post.name_bound(name)) by {
                assert(post.names@[post.names@.len() - 1].0 == name);
            }
            assert(post.name_entity(name) == e) by {
                let k3 = choose|k3: int|
                    0 <= k3 < post.names@.len() && (#[trigger] post.names@[k3]).0 == name;
                if k3 != post.names@.len() - 1 {
                    assert(post.names@[k3] == pre.names@[k3]);
                    assert(pre.name_bound(name));
                }
            }
            assert(post.spec_alive(e)) by {
                assert(created.spec_alive(e));
            }
            assert(post.comps_of(e) == created.comps_of(e));
            assert forall|e2: Entity| e2 != e implies #[trigger] pre.entity_preserved(post, e2) by {
                assert(pre.entity_preserved(created, e2));
                assert(created.entity_preserved(post, e2)) by {
                    if created.spec_alive(e2) {
                        assert(post.comps_of(e2) == created.comps_of(e2));
                        assert forall|cc: u64| created.comps_of(e2).contains(cc) implies
                            post.value_of(e2, cc) == created.value_of(e2, cc) by {}
                    }
                }
                World::lemma_entity_preserved_trans(pre, created, post, e2);
            }
            assert(pre.tables_extend(post)) by {
                assert(pre.tables_extend(created));
                assert forall|t: int| 0 <= t < pre.n_tables() implies #[trigger] post.table_comps(
                    t,
                ) == pre.table_comps(t) by {
                    assert(created.table_comps(t) == pre.table_comps(t));
                    assert(post.tables@[t] == created.tables@[t]);
                }
            }
            assert(post.spec_events() == pre.spec_events()) by {
                assert(created.spec_events() == pre.spec_events());
                assert(post.events == created.events);
            }
        }
        e
    }

    /// Some name is bound in the name index.
    pub closed spec fn name_bound(self, name: u64) -> bool {
        exists|k: int| 0 <= k < self.names@.len() && (#[trigger] self.names@[k]).0 == name
    }

    /// The entity a bound name maps to.
    pub closed spec fn name_entity(self, name: u64) -> Entity {
        let k = choose|k: int| 0 <= k < self.names@.len() && (#[trigger] self.names@[k]).0 == name;
        self.names@[k].1
    }

    /// Registers an observer for `(component, kind)` and returns its id.
    /// Observers fire in registration order.
    pub fn register_observer(&mut self, component: u64, kind: EventKind) -> (id: usize)
        requires
            old(self).wf(),
        ensures
            final(self).wf(),
            id as int == old(self).spec_observers().len(),
            final(self).spec_observers() == old(self).spec_observers().push(
                Observer { component, kind },
            ),
            old(self).all_preserved(*final(self)),
            old(self).defer_eq(*final(self)),
            final(self).spec_events() == old(self).spec_events(),
            old(self).tables_extend(*final(self)),
            final(self).regs() == old(self).regs(),
    {
        let ghost pre = *self;
        let id = self.observers.len();
        self.observers.push(Observer { component, kind });
        proof {
            World::lemma_wf_frame(pre, *self);
            assert forall|e: Entity| #[trigger] pre.entity_preserved(*self, e) by {}
        }
        id
    }

    /// Hands out the pending notifications, oldest first, and clears the
    /// log. The embedding runs the callbacks in exactly this order.
    pub fn drain_events(&mut self) -> (out: Vec<Notification>)
        requires
            old(self).wf(),
        ensures
            final(self).wf(),
            events_view(out@) == old(self).spec_events(),
            final(self).spec_events().len() == 0,
            old(self).all_preserved(*final(self)),
            old(self).defer_eq(*final(self)),
            final(self).spec_observers() == old(self).spec_observers(),
            old(self).tables_extend(*final(self)),
            final(self).regs() == old(self).regs(),
    {
        let ghost pre = *self;
        let mut out: Vec<Notification> = Vec::new();
        std::mem::swap(&mut out, &mut self.events);
        proof {
            World::lemma_wf_frame(pre, *self);
            assert forall|e: Entity| #[trigger] pre.entity_preserved(*self, e) by {}
            assert(events_view(self.events@) =~= Seq::<crate::events::Event>::empty());
        }
        out
    }

    /// Opens a deferred scope. Scopes nest; while at least one is open,
    /// structural operations are queued instead of applied.
    pub fn begin_defer(&mut self)
        requires
            old(self).wf(),
            old(self).spec_depth() < usize::MAX,
        ensures
            final(self).wf(),
            final(self).spec_depth() == old(self).spec_depth() + 1,
            final(self).spec_queue() == old(self).spec_queue(),
            old(self).all_preserved(*final(self)),
            final(self).spec_events() == old(self).spec_events(),
            final(self).spec_observers() == old(self).spec_observers(),
            old(self).tables_extend(*final(self)),
            final(self).regs() == old(self).regs(),
    {
        let ghost pre = *self;
        self.depth = self.depth + 1;
        proof {
            World::lemma_wf_frame(pre, *self);
            assert forall|e: Entity| #[trigger] pre.entity_preserved(*self, e) by {}
        }
    }

    /// The row a live identifier currently occupies: its table and row
    /// index. Fails with `UnknownEntity` when the identifier is not alive.
    pub fn locate(&self, e: Entity) -> (res: Result<(usize, usize), EcsError>)
        requires
            self.wf(),
        ensures
            match res {
                Ok(loc) => {
                    &&& self.spec_alive(e)
                    &&& loc.0 as int == self.table_of(e)
                    &&& (loc.0 as int) < self.n_tables()
                    &&& self.table_comps(loc.0 as int) == self.comps_of(e)
                },
                Err(err) => {
                    &&& err == EcsError::UnknownEntity
                    &&& !self.spec_alive(e)
                },
            },
    {
        let i = e.slot_index();
        if i >= self.slots.len() {
            return Err(EcsError::UnknownEntity);
        }
        let s = self.slots[i];
        if !s.alive || s.generation != e.gen_value() {
            return Err(EcsError::UnknownEntity);
        }
        proof {
            assert(self.slot_linked(i as int));
        }
        Ok((s.table, s.row))
    }

    /// The bytes entity `e` holds for component `c`: `Ok(Some(bytes))` when
    /// the component is present, `Ok(None)` when the live entity lacks it,
    /// and `UnknownEntity`/`StaleEntity` for an invalid identifier.
    pub fn get(&self, e: Entity, c: u64) -> (res: Result<Option<Vec<u8>>, EcsError>)
        requires
            self.wf(),
        ensures
            match res {
                Ok(Some(v)) => self.spec_alive(e) && self.comps_of(e).contains(c) && v@
                    == self.value_of(e, c),
                Ok(None) => self.spec_alive(e) && !self.comps_of(e).contains(c),
                Err(err) => !self.spec_alive(e) && (err == EcsError::UnknownEntity
                    || err == EcsError::StaleEntity) && (err == EcsError::UnknownEntity <==> (
                e.spec_index() < 0 || e.spec_index() >= self.n_slots())),
            },
    {
        let i = e.slot_index();
        if i >= self.slots.len() {
            return Err(EcsError::UnknownEntity);
        }
        let s = self.slots[i];
        if !s.alive || s.generation != e.gen_value() {
            return Err(EcsError::StaleEntity);
        }
        proof {
            assert(self.slot_linked(i as int));
        }
        let t = s.table;
        match crate::sets::position_of(&self.tables[t].comps, c) {
            None => {
                proof {
                    assert(!self.comps_of(e).contains(c)) by {
                        if self.comps_seq_of(e).contains(c) {
                        }
                    }
                }
                Ok(None)
            },
            Some(j) => {
                proof {
                    assert(table_wf(self.tables@[t as int], self.registry@.len() as nat));
                    crate::sets::lemma_sorted_index_of(self.tables@[t as int].comps@, j as int);
                    assert(self.comps_seq_of(e).contains(c));
                }
                let v = clone_bytes(&self.tables[t].columns[j][s.row]);
                Ok(Some(v))
            },
        }
    }

    /// One byte string per entry of `key`: the value `cv` for component `c`,
    /// and the entity's current value for every other entry.
    pub(crate) fn values_with(&self, e: Entity, key: &Vec<u64>, c: u64, cv: &Vec<u8>) -> (vals: Vec<
        Vec<u8>,
    >)
        requires
            self.wf(),
            self.spec_alive(e),
            forall|j: int|
                0 <= j < key@.len() ==> #[trigger] key@[j] == c || self.comps_of(e).contains(
                    key@[j],
                ),
        ensures
            vals@.len() == key@.len(),
            forall|j: int|
                0 <= j < key@.len() ==> (#[trigger] vals@[j])@ == (if key@[j] == c {
                    cv@
                } else {
                    self.value_of(e, key@[j])
                }),
    {
        let i = e.slot_index();
        proof {
            assert(self.slot_linked(i as int));
        }
        let s = self.slots[i];
        let t = s.table;
        let mut vals: Vec<Vec<u8>> = Vec::new();
        let mut j: usize = 0;
        while j < key.len()
            invariant
                self.wf(),
                self.spec_alive(e),
                i as int == e.spec_index(),
                s == self.slots@[i as int],
                t == s.table,
                (t as int) < self.tables@.len(),
                (s.row as int) < self.tables@[t as int].entities@.len(),
                forall|jj: int|
                    0 <= jj < key@.len() ==> #[trigger] key@[jj] == c || self.comps_of(
                        e,
                    ).contains(key@[jj]),
                j <= key@.len(),
                vals@.len() == j,
                forall|jj: int|
                    0 <= jj < j ==> (#[trigger] vals@[jj])@ == (if key@[jj] == c {
                        cv@
                    } else {
                        self.value_of(e, key@[jj])
                    }),
            decreases key@.len() - j,
        {
            let k = key[j];
            if k == c {
                vals.push(clone_bytes(cv));
            } else {
                proof {
                    assert(self.comps_of(e).contains(k));
                    assert(self.comps_seq_of(e).contains(k));
                }
                match crate::sets::position_of(&self.tables[t].comps, k) {
                    Some(jj) => {
                        proof {
                            assert(table_wf(self.tables@[t as int], self.registry@.len() as nat));
                            crate::sets::lemma_sorted_index_of(
                                self.tables@[t as int].comps@,
                                jj as int,
                            );
                        }
                        let v = clone_bytes(&self.tables[t].columns[jj][s.row]);
                        vals.push(v);
                    },
                    None => {
                        proof {
                            assert(false);
                        }
                        vals.push(Vec::new());
                    },
                }
            }
            j += 1;
        }
        vals
    }

    // ----- queries -----

    /// Number of compiled queries.
    pub closed spec fn n_queries(self) -> int {
        self.queries@.len() as int
    }

    pub closed spec fn query_required(self, qi: int) -> Set<u64> {
        self.queries@[qi].required@.to_set()
    }

    pub closed spec fn query_excluded(self, qi: int) -> Set<u64> {
        self.queries@[qi].excluded@.to_set()
    }

    pub closed spec fn query_n_vars(self, qi: int) -> int {
        self.queries@[qi].n_vars as int
    }

    /// Table `t` matches query `qi`: its set contains every required and no
    /// excluded component.
    pub closed spec fn query_matches_table(self, qi: int, t: int) -> bool {
        self.table_matches(t, self.queries@[qi].required@, self.queries@[qi].excluded@)
    }

    /// Matching, spelled over the public set model.
    pub proof fn lemma_match_semantics(self, qi: int, t: int)
        requires
            self.wf(),
            0 <= qi < self.n_queries(),
            0 <= t < self.n_tables(),
        ensures
            self.query_matches_table(qi, t) <==> (self.query_required(qi).subset_of(
                self.table_comps(t),
            ) && self.query_excluded(qi).disjoint(self.table_comps(t))),
    {
        let req = self.queries@[qi].required@;
        let exc = self.queries@[qi].excluded@;
        let comps = self.tables@[t].comps@;
        if self.query_matches_table(qi, t) {
            assert forall|x: u64| req.to_set().contains(x) implies comps.to_set().contains(x) by {
                let k = choose|k: int| 0 <= k < req.len() && req[k] == x;
                assert(comps.contains(x));
            }
            assert forall|x: u64| exc.to_set().contains(x) implies !comps.to_set().contains(x) by {
                let k = choose|k: int| 0 <= k < exc.len() && exc[k] == x;
                assert(!comps.contains(x));
            }
        } else {
            if crate::sets::seq_subset(req, comps) {
                assert(!crate::sets::seq_disjoint(exc, comps));
                let k = choose|k: int| 0 <= k < exc.len() && comps.contains(#[trigger] exc[k]);
                assert(exc.to_set().contains(exc[k]));
                assert(comps.to_set().contains(exc[k]));
            } else {
                let k = choose|k: int| 0 <= k < req.len() && !comps.contains(#[trigger] req[k]);
                assert(req.to_set().contains(req[k]));
                assert(!comps.to_set().contains(req[k]));
            }
        }
    }

    /// Two distinct tables never carry the same component set: a table's
    /// unordered set identifies it.
    pub proof fn law_table_identity(self, t1: int, t2: int)
        requires
            self.wf(),
            0 <= t1 < self.n_tables(),
            0 <= t2 < self.n_tables(),
            self.table_comps(t1) == self.table_comps(t2),
        ensures
            t1 == t2,
    {
        if t1 != t2 {
            assert(table_wf(self.tables@[t1], self.registry@.len() as nat));
            assert(table_wf(self.tables@[t2], self.registry@.len() as nat));
            lemma_sorted_set_canonical(self.tables@[t1].comps@, self.tables@[t2].comps@);
            if t1 < t2 {
                assert(self.tables@[t1].comps@ != self.tables@[t2].comps@);
            } else {
                assert(self.tables@[t2].comps@ != self.tables@[t1].comps@);
            }
        }
    }

    /// Compiles a term list: `required` and `excluded` are read as unordered
    /// sets, `n_vars` declares the iteration variables. Fails with
    /// `InvalidParameter` when a term names an unregistered component or the
    /// two sets overlap; the match list starts stale and is built on first
    /// use.
    pub fn compile(&mut self, required: &Vec<u64>, excluded: &Vec<u64>, n_vars: usize) -> (res:
        Result<usize, EcsError>)
        requires
            old(self).wf(),
        ensures
            final(self).wf(),
            match res {
                Ok(qi) => {
                    &&& qi as int == old(self).n_queries()
                    &&& final(self).n_queries() == old(self).n_queries() + 1
                    &&& final(self).query_required(qi as int) == required@.to_set()
                    &&& final(self).query_excluded(qi as int) == excluded@.to_set()
                    &&& final(self).query_n_vars(qi as int) == n_vars as int
                    &&& (forall|j: int|
                        0 <= j < required@.len() ==> old(self).spec_registered(
                            #[trigger] required@[j],
                        ))
                    &&& (forall|j: int|
                        0 <= j < excluded@.len() ==> old(self).spec_registered(
                            #[trigger] excluded@[j],
                        ))
                    &&& required@.to_set().disjoint(excluded@.to_set())
                },
                Err(err) => {
                    &&& err == EcsError::InvalidParameter
                    &&& *final(self) == *old(self)
                    &&& ((exists|j: int|
                        0 <= j < required@.len() && !old(self).spec_registered(
                            #[trigger] required@[j],
                        )) || (exists|j: int|
                        0 <= j < excluded@.len() && !old(self).spec_registered(
                            #[trigger] excluded@[j],
                        )) || !required@.to_set().disjoint(excluded@.to_set()))
                },
            },
            old(self).all_preserved(*final(self)),
            old(self).defer_eq(*final(self)),
            final(self).spec_events() == old(self).spec_events(),
            old(self).tables_extend(*final(self)),
            final(self).regs() == old(self).regs(),
    {
        let ghost pre = *self;
        let mut j: usize = 0;
        while j < required.len()
            invariant
                *self == pre,
                pre.wf(),
                j <= required@.len(),
                forall|k: int| 0 <= k < j ==> self.spec_registered(#[trigger] required@[k]),
            decreases required@.len() - j,
        {
            if required[j] >= self.registry.len() as u64 {
                return Err(EcsError::InvalidParameter);
            }
            j += 1;
        }
        let mut j2: usize = 0;
        while j2 < excluded.len()
            invariant
                *self == pre,
                pre.wf(),
                j2 <= excluded@.len(),
                forall|k: int| 0 <= k < j2 ==> self.spec_registered(#[trigger] excluded@[k]),
            decreases excluded@.len() - j2,
        {
            if excluded[j2] >= self.registry.len() as u64 {
                return Err(EcsError::InvalidParameter);
            }
            j2 += 1;
        }
        let req = canonicalize(required);
        let exc = canonicalize(excluded);
        if !crate::sets::none_in(&req, &exc) {
            proof {
                let k = choose|k: int| 0 <= k < req@.len() && exc@.contains(#[trigger] req@[k]);
                assert(required@.to_set().contains(req@[k]));
                assert(excluded@.to_set().contains(req@[k]));
                assert(!required@.to_set().disjoint(excluded@.to_set()));
            }
            return Err(EcsError::InvalidParameter);
        }
        proof {
            assert(required@.to_set().disjoint(excluded@.to_set())) by {
                assert forall|x: u64|
                    required@.to_set().contains(x) implies !excluded@.to_set().contains(x) by {
                    assert(req@.to_set().contains(x));
                    let k = choose|k: int| 0 <= k < req@.len() && req@[k] == x;
                    assert(!exc@.contains(x));
                    if excluded@.to_set().contains(x) {
                        assert(exc@.to_set().contains(x));
                    }
                }
            }
        }
        let qi = self.queries.len();
        self.queries.push(
            Query { required: req, excluded: exc, n_vars, cached: Vec::new(), stale: true },
        );
        proof {
            let post = *self;
            assert(post.tables_ok()) by {
                assert forall|t: int| 0 <= t < post.tables@.len() implies table_wf(
                    #[trigger] post.tables@[t],
                    post.registry@.len() as nat,
                ) by {
                    assert(table_wf(pre.tables@[t], pre.registry@.len() as nat));
                }
            }
            assert(post.links_ok()) by {
                assert forall|t: int, r: int|
                    0 <= t < post.tables@.len() && 0 <= r < post.tables@[t].entities@.len() implies
                    #[trigger] post.row_linked(t, r) by {
                    assert(pre.row_linked(t, r));
                }
                assert forall|ii: int| 0 <= ii < post.slots@.len() && post.slots@[ii].alive implies
                    #[trigger] post.slot_linked(ii) by {
                    assert(pre.slot_linked(ii));
                }
            }
            assert(post.queries_ok()) by {
                assert forall|q2: int| 0 <= q2 < post.queries@.len() implies {
                    let q = #[trigger] post.queries@[q2];
                    post.query_terms_wf(q) && (!q.stale ==> post.cache_ok(q))
                } by {
                    if q2 < qi as int {
                        let q = post.queries@[q2];
                        assert(pre.queries@[q2] == q);
                        assert(pre.query_terms_wf(q) && (!q.stale ==> pre.cache_ok(q)));
                        if !q.stale {
                            assert forall|k: int| 0 <= k < q.cached@.len() implies (
                            #[trigger] q.cached@[k] as int) < post.tables@.len()
                                && post.table_matches(q.cached@[k] as int, q.required@, q.excluded@) by {
                                assert(pre.table_matches(q.cached@[k] as int, q.required@, q.excluded@));
                            }
                            assert forall|t: int|
                                0 <= t < post.tables@.len() && post.table_matches(
                                    t,
                                    q.required@,
                                    q.excluded@,
                                ) implies q.cached@.contains(t as usize) by {
                                assert(pre.table_matches(t, q.required@, q.excluded@));
                            }
                        }
                    } else {
                        let q = post.queries@[q2];
                        assert(q.stale);
                        assert forall|w: int| 0 <= w < q.required@.len() implies (
                        #[trigger] q.required@[w] as nat) < post.registry@.len() by {
                            assert(required@.to_set().contains(q.required@[w]));
                            let ww = choose|ww: int|
                                0 <= ww < required@.len() && required@[ww] == q.required@[w];
                        }
                        assert forall|w: int| 0 <= w < q.excluded@.len() implies (
                        #[trigger] q.excluded@[w] as nat) < post.registry@.len() by {
                            assert(excluded@.to_set().contains(q.excluded@[w]));
                            let ww = choose|ww: int|
                                0 <= ww < excluded@.len() && excluded@[ww] == q.excluded@[w];
                        }
                    }
                }
            }
            assert forall|e2: Entity| #[trigger] pre.entity_preserved(post, e2) by {}
            assert(post.query_required(qi as int) =~= required@.to_set());
            assert(post.query_excluded(qi as int) =~= excluded@.to_set());
        }
        Ok(qi)
    }

    /// Assigns group key `group` to table `t`. Group keys drive
    /// group-restricted iteration; computing them is the caller's business.
    pub fn set_table_group(&mut self, t: usize, group: u64) -> (res: Result<(), EcsError>)
        requires
            old(self).wf(),
        ensures
            final(self).wf(),
            match res {
                Ok(u) => {
                    &&& u == ()
                    &&& (t as int) < old(self).n_tables()
                    &&& final(self).table_group(t as int) == group
                    &&& forall|t2: int|
                        0 <= t2 < old(self).n_tables() && t2 != t as int
                            ==> #[trigger] final(self).table_group(t2) == old(self).table_group(t2)
                },
                Err(err) => {
                    &&& err == EcsError::InvalidParameter
                    &&& *final(self) == *old(self)
                    &&& (t as int) >= old(self).n_tables()
                },
            },
            old(self).all_preserved(*final(self)),
            old(self).defer_eq(*final(self)),
            final(self).spec_events() == old(self).spec_events(),
            old(self).tables_extend(*final(self)),
            final(self).n_tables() == old(self).n_tables(),
            final(self).regs() == old(self).regs(),
            forall|qi: int, t2: int|
                0 <= qi < old(self).n_queries() && 0 <= t2 < old(self).n_tables()
                    ==> #[trigger] final(self).query_matches_table(qi, t2) == old(
                    self,
                ).query_matches_table(qi, t2),
    {
        let ghost pre = *self;
        if t >= self.tables.len() {
            return Err(EcsError::InvalidParameter);
        }
        self.tables[t].group = group;
        proof {
            let post = *self;
            assert(post.tables_ok()) by {
                assert forall|t2: int| 0 <= t2 < post.tables@.len() implies table_wf(
                    #[trigger] post.tables@[t2],
                    post.registry@.len() as nat,
                ) by {
                    assert(table_wf(pre.tables@[t2], pre.registry@.len() as nat));
                }
                assert forall|t1: int, t2: int| 0 <= t1 < t2 < post.tables@.len() implies (
                #[trigger] post.tables@[t1]).comps@ != (#[trigger] post.tables@[t2]).comps@ by {
                    assert(pre.tables@[t1].comps@ != pre.tables@[t2].comps@);
                }
            }
            assert(post.links_ok()) by {
                assert forall|t2: int, r: int|
                    0 <= t2 < post.tables@.len() && 0 <= r < post.tables@[t2].entities@.len() implies
                    #[trigger] post.row_linked(t2, r) by {
                    assert(pre.row_linked(t2, r));
                }
                assert forall|ii: int| 0 <= ii < post.slots@.len() && post.slots@[ii].alive implies
                    #[trigger] post.slot_linked(ii) by {
                    assert(pre.slot_linked(ii));
                }
            }
            World::lemma_queries_ok_same_keys(pre, post);
            assert forall|e2: Entity| #[trigger] pre.entity_preserved(post, e2) by {
                if pre.spec_alive(e2) {
                    assert(pre.slot_linked(e2.spec_index()));
                    let t2 = pre.slots@[e2.spec_index()].table as int;
                    assert(post.tables@[t2].comps@ == pre.tables@[t2].comps@);
                    assert forall|cc: u64| pre.comps_of(e2).contains(cc) implies post.value_of(
                        e2,
                        cc,
                    ) == pre.value_of(e2, cc) by {
                        if t2 != t as int {
                            assert(post.tables@[t2] == pre.tables@[t2]);
                        }
                    }
                }
            }
        }
        Ok(())
    }

    /// The group key of table `t`.
    pub closed spec fn table_group(self, t: int) -> u64 {
        self.tables@[t].group
    }

    /// Reads table `t`'s group key.
    pub fn group_of_table(&self, t: usize) -> (g: u64)
        requires
            self.wf(),
            (t as int) < self.n_tables(),
        ensures
            g == self.table_group(t as int),
    {
        self.tables[t].group
    }

    /// Number of compiled queries.
    pub fn query_count(&self) -> (n: usize)
        ensures
            n as int == self.n_queries(),
    {
        self.queries.len()
    }

    /// The current match list of query `qi`: exactly the tables whose set
    /// contains every required component and no excluded one, in table
    /// creation order. A stale cache is rebuilt here, so the result always
    /// reflects the current table list.
    pub fn query_tables(&mut self, qi: usize) -> (res: Result<Vec<usize>, EcsError>)
        requires
            old(self).wf(),
        ensures
            final(self).wf(),
            match res {
                Ok(out) => {
                    &&& (qi as int) < old(self).n_queries()
                    &&& forall|t: int|
                        0 <= t < final(self).n_tables() ==> (out@.contains(t as usize)
                            <==> final(self).query_matches_table(qi as int, t))
                    &&& forall|k: int|
                        0 <= k < out@.len() ==> (#[trigger] out@[k] as int) < final(self).n_tables()
                    &&& forall|k1: int, k2: int|
                        0 <= k1 < k2 < out@.len() ==> out@[k1] < out@[k2]
                },
                Err(err) => {
                    &&& err == EcsError::InvalidParameter
                    &&& (qi as int) >= old(self).n_queries()
                },
            },
            old(self).statics_eq(*final(self)),
            old(self).all_preserved(*final(self)),
            old(self).defer_eq(*final(self)),
            final(self).spec_events() == old(self).spec_events(),
            old(self).tables_extend(*final(self)),
            final(self).n_tables() == old(self).n_tables(),
            final(self).regs() == old(self).regs(),
    {
        let ghost pre = *self;
        if qi >= self.queries.len() {
            return Err(EcsError::InvalidParameter);
        }
        if self.queries[qi].stale {
            let mut fresh: Vec<usize> = Vec::new();
            let nt = self.tables.len();
            let mut t: usize = 0;
            while t < nt
                invariant
                    *self == pre,
                    pre.wf(),
                    (qi as int) < pre.n_queries(),
                    nt == pre.tables@.len(),
                    t <= nt,
                    forall|k: int| 0 <= k < fresh@.len() ==> (#[trigger] fresh@[k] as int) < t,
                    forall|k1: int, k2: int|
                        0 <= k1 < k2 < fresh@.len() ==> fresh@[k1] < fresh@[k2],
                    forall|t2: int|
                        0 <= t2 < t ==> (fresh@.contains(t2 as usize)
                            <==> pre.query_matches_table(qi as int, t2)),
                decreases nt - t,
            {
                let m = crate::sets::all_in(&self.queries[qi].required, &self.tables[t].comps)
                    && crate::sets::none_in(&self.queries[qi].excluded, &self.tables[t].comps);
                let ghost before = fresh@;
                if m {
                    fresh.push(t);
                }
                proof {
                    assert forall|t2: int|
                        0 <= t2 < t + 1 implies (fresh@.contains(t2 as usize)
                            <==> pre.query_matches_table(qi as int, t2)) by {
                        if t2 < t {
                            assert(before.contains(t2 as usize) <==> pre.query_matches_table(
                                qi as int,
                                t2,
                            ));
                            if m {
                                assert(fresh@.contains(t2 as usize) <==> before.contains(t2 as usize)) by {
                                    if fresh@.contains(t2 as usize) {
                                        let k = choose|k: int|
                                            0 <= k < fresh@.len() && fresh@[k] == t2 as usize;
                                        if k < before.len() {
                                            assert(before[k] == t2 as usize);
                                        } else {
                                            assert(fresh@[k] == t);
                                        }
                                    }
                                    if before.contains(t2 as usize) {
                                        let k = choose|k: int|
                                            0 <= k < before.len() && before[k] == t2 as usize;
                                        assert(fresh@[k] == t2 as usize);
                                    }
                                }
                            }
                        } else {
                            if m {
                                assert(fresh@[fresh@.len() - 1] == t);
                                assert(fresh@.contains(t2 as usize));
                            } else {
                                if fresh@.contains(t2 as usize) {
                                    let k = choose|k: int|
                                        0 <= k < fresh@.len() && fresh@[k] == t2 as usize;
                                }
                            }
                        }
                    }
                }
                t += 1;
            }
            let out = clone_usizes(&fresh);
            self.queries[qi].cached = fresh;
            self.queries[qi].stale = false;
            proof {
                let post = *self;
                assert(post.tables_ok()) by {
                    assert forall|t2: int| 0 <= t2 < post.tables@.len() implies table_wf(
                        #[trigger] post.tables@[t2],
                        post.registry@.len() as nat,
                    ) by {
                        assert(table_wf(pre.tables@[t2], pre.registry@.len() as nat));
                    }
                }
                assert(post.links_ok()) by {
                    assert forall|t2: int, r: int|
                        0 <= t2 < post.tables@.len() && 0 <= r < post.tables@[t2].entities@.len() implies
                        #[trigger] post.row_linked(t2, r) by {
                        assert(pre.row_linked(t2, r));
                    }
                    assert forall|ii: int|
                        0 <= ii < post.slots@.len() && post.slots@[ii].alive implies
                        #[trigger] post.slot_linked(ii) by {
                        assert(pre.slot_linked(ii));
                    }
                }
                assert(post.queries_ok()) by {
                    assert forall|q2: int| 0 <= q2 < post.queries@.len() implies {
                        let q = #[trigger] post.queries@[q2];
                        post.query_terms_wf(q) && (!q.stale ==> post.cache_ok(q))
                    } by {
                        let q = post.queries@[q2];
                        if q2 == qi as int {
                            assert(pre.query_terms_wf(pre.queries@[q2]));
                            assert(q.required == pre.queries@[q2].required);
                            assert(q.excluded == pre.queries@[q2].excluded);
                            assert(post.cache_ok(q)) by {
                                assert forall|k: int| 0 <= k < q.cached@.len() implies (
                                #[trigger] q.cached@[k] as int) < post.tables@.len()
                                    && post.table_matches(
                                    q.cached@[k] as int,
                                    q.required@,
                                    q.excluded@,
                                ) by {
                                    assert(q.cached@.contains(q.cached@[k]));
                                    assert(pre.query_matches_table(
                                        qi as int,
                                        q.cached@[k] as int,
                                    ));
                                }
                                assert forall|t2: int|
                                    0 <= t2 < post.tables@.len() && post.table_matches(
                                        t2,
                                        q.required@,
                                        q.excluded@,
                                    ) implies q.cached@.contains(t2 as usize) by {
                                    assert(pre.query_matches_table(qi as int, t2));
                                }
                            }
                        } else {
                            assert(pre.queries@[q2] == q);
                            assert(pre.query_terms_wf(q) && (!q.stale ==> pre.cache_ok(q)));
                            if !q.stale {
                                assert forall|k: int| 0 <= k < q.cached@.len() implies (
                                #[trigger] q.cached@[k] as int) < post.tables@.len()
                                    && post.table_matches(
                                    q.cached@[k] as int,
                                    q.required@,
                                    q.excluded@,
                                ) by {
                                    assert(pre.table_matches(
                                        q.cached@[k] as int,
                                        q.required@,
                                        q.excluded@,
                                    ));
                                }
                                assert forall|t2: int|
                                    0 <= t2 < post.tables@.len() && post.table_matches(
                                        t2,
                                        q.required@,
                                        q.excluded@,
                                    ) implies q.cached@.contains(t2 as usize) by {
                                    assert(pre.table_matches(t2, q.required@, q.excluded@));
                                }
                            }
                        }
                    }
                }
                assert forall|e2: Entity| #[trigger] pre.entity_preserved(post, e2) by {}
                assert forall|t2: int|
                    0 <= t2 < post.n_tables() implies (out@.contains(t2 as usize)
                        <==> post.query_matches_table(qi as int, t2)) by {
                    assert(pre.query_matches_table(qi as int, t2) == post.query_matches_table(
                        qi as int,
                        t2,
                    ));
                }
            }
            Ok(out)
        } else {
            let out = clone_usizes(&self.queries[qi].cached);
            let nt = self.tables.len();
            proof {
                assert(self.tables@.len() <= usize::MAX);
                let q = self.queries@[qi as int];
                assert(self.query_terms_wf(q) && (!q.stale ==> self.cache_ok(q)));
                assert(self.cache_ok(q));
                assert(out@ == q.cached@);
                assert forall|t2: int|
                    0 <= t2 < self.n_tables() implies (out@.contains(t2 as usize)
                        <==> self.query_matches_table(qi as int, t2)) by {
                    assert((t2 as usize) as int == t2);
                    if out@.contains(t2 as usize) {
                        let k = choose|k: int| 0 <= k < out@.len() && out@[k] == t2 as usize;
                        assert(q.cached@[k] == t2 as usize);
                        assert((q.cached@[k] as int) < self.tables@.len() && self.table_matches(
                            q.cached@[k] as int,
                            q.required@,
                            q.excluded@,
                        ));
                        assert(q.cached@[k] as int == t2);
                        assert(self.query_matches_table(qi as int, t2));
                    }
                    if self.query_matches_table(qi as int, t2) {
                        assert(self.table_matches(t2, q.required@, q.excluded@));
                        assert(q.cached@.contains(t2 as usize));
                    }
                }
                assert forall|k1: int, k2: int| 0 <= k1 < k2 < out@.len() implies out@[k1]
                    < out@[k2] by {
                    assert((#[trigger] q.cached@[k1]) < (#[trigger] q.cached@[k2]));
                }
                assert forall|k: int| 0 <= k < out@.len() implies (#[trigger] out@[k] as int)
                    < self.n_tables() by {
                    assert((q.cached@[k] as int) < self.tables@.len());
                }
                assert forall|e2: Entity| #[trigger] self.entity_preserved(*self, e2) by {}
            }
            Ok(out)
        }
    }

    /// The number of rows in table `t`.
    pub closed spec fn table_rows(self, t: int) -> int {
        self.tables@[t].entities@.len() as int
    }

    /// The entities currently stored in table `t`, one per row, in row
    /// order: exactly the live entities whose table is `t`.
    pub fn table_entities(&self, t: usize) -> (out: Vec<Entity>)
        requires
            self.wf(),
            (t as int) < self.n_tables(),
        ensures
            out@.len() == self.table_rows(t as int),
            forall|e: Entity|
                out@.contains(e) <==> (self.spec_alive(e) && self.table_of(e) == t as int),
    {
        let nr = self.tables[t].entities.len();
        let mut out: Vec<Entity> = Vec::new();
        let mut r: usize = 0;
        while r < nr
            invariant
                self.wf(),
                (t as int) < self.tables@.len(),
                nr == self.tables@[t as int].entities@.len(),
                r <= nr,
                out@.len() == r,
                forall|k: int|
                    0 <= k < r ==> {
                        let e = #[trigger] out@[k];
                        self.spec_alive(e) && self.table_of(e) == t as int
                            && e.spec_index() == self.tables@[t as int].entities@[k] as int
                    },
            decreases nr - r,
        {
            proof {
                assert(self.row_linked(t as int, r as int));
            }
            let i = self.tables[t].entities[r];
            let g = self.slots[i].generation;
            let e = Entity::make(i, g);
            out.push(e);
            r += 1;
        }
        proof {
            assert forall|e: Entity|
                out@.contains(e) <==> (self.spec_alive(e) && self.table_of(e) == t as int) by {
                if out@.contains(e) {
                    let k = choose|k: int| 0 <= k < out@.len() && out@[k] == e;
                }
                if self.spec_alive(e) && self.table_of(e) == t as int {
                    assert(self.slot_linked(e.spec_index()));
                    let rr = self.slots@[e.spec_index()].row as int;
                    assert(self.tables@[t as int].entities@[rr] as int == e.spec_index());
                    assert(out@[rr].spec_index() == e.spec_index());
                    assert(out@[rr].spec_generation() == e.spec_generation()) by {
                        assert(self.spec_alive(out@[rr]));
                    }
                    Entity::lemma_ext(out@[rr], e);
                    assert(out@.contains(e));
                }
            }
        }
        out
    }

    // ----- entity lifecycle -----

    /// Applies a destroy immediately: removes the entity's row (compacting
    /// by swapping the last row into the gap and fixing that entity's index
    /// entry), frees the slot and bumps its generation so stale identifiers
    /// are rejected from now on.
    #[verifier::rlimit(60)]
    pub(crate) fn destroy_now(&mut self, e: Entity) -> (res: Result<(), EcsError>)
        requires
            old(self).wf(),
        ensures
            final(self).wf(),
            World::destroy_outcome(*old(self), *final(self), e, res),
    {
        let ghost pre = *self;
        let i = e.slot_index();
        if i >= self.slots.len() {
            return Err(EcsError::UnknownEntity);
        }
        let s = self.slots[i];
        if !s.alive || s.generation != e.gen_value() {
            return Err(EcsError::StaleEntity);
        }
        proof {
            assert(pre.slot_linked(i as int));
        }
        let src = s.table;
        let r = s.row;
        let ghost src_ents = pre.tables@[src as int].entities@;
        let ghost srci = src as int;
        let removed = self.tables[src].entities.swap_remove(r);
        let srclen = self.tables[src].entities.len();
        if r < srclen {
            let m = self.tables[src].entities[r];
            proof {
                assert(pre.row_linked(srci, src_ents.len() - 1));
                assert(m == src_ents[src_ents.len() - 1]);
            }
            let mg = self.slots[m].generation;
            self.slots[m] = Slot { generation: mg, alive: true, table: src, row: r };
        }
        // free the slot; a generation at the cap retires the slot instead of
        // recycling it, so stale identifiers can never match again
        let g = s.generation;
        if g < u64::MAX {
            self.slots[i] = Slot { generation: g + 1, alive: false, table: 0, row: 0 };
            self.free.push(i);
        } else {
            self.slots[i] = Slot { generation: g, alive: false, table: 0, row: 0 };
        }
        let ncs = self.tables[src].columns.len();
        let ghost mid = *self;
        proof {
            assert(table_wf(pre.tables@[srci], pre.registry@.len() as nat));
            assert(mid.tables@[srci].columns == pre.tables@[srci].columns);
            assert forall|k: int| 0 <= k < ncs implies (
            #[trigger] mid.tables@[srci].columns@[k])@.len() == src_ents.len() by {
                assert(pre.tables@[srci].columns@[k]@.len() == pre.tables@[srci].entities@.len());
            }
            assert(r < src_ents.len());
        }
        let mut j2: usize = 0;
        while j2 < ncs
            invariant
                j2 <= ncs,
                srci == src as int,
                r < src_ents.len(),
                self.registry == mid.registry,
                self.slots == mid.slots,
                self.free == mid.free,
                self.depth == mid.depth,
                self.queue == mid.queue,
                self.observers == mid.observers,
                self.events == mid.events,
                self.names == mid.names,
                self.queries == mid.queries,
                self.tables@.len() == mid.tables@.len(),
                0 <= srci < self.tables@.len(),
                ncs == mid.tables@[srci].columns@.len(),
                forall|t: int|
                    0 <= t < self.tables@.len() && t != srci ==> #[trigger] self.tables@[t]
                        == mid.tables@[t],
                self.tables@[srci].comps == mid.tables@[srci].comps,
                self.tables@[srci].group == mid.tables@[srci].group,
                self.tables@[srci].entities == mid.tables@[srci].entities,
                self.tables@[srci].columns@.len() == ncs,
                forall|k: int|
                    0 <= k < j2 ==> (#[trigger] self.tables@[srci].columns@[k])@
                        == mid.tables@[srci].columns@[k]@.update(
                        r as int,
                        mid.tables@[srci].columns@[k]@.last(),
                    ).drop_last(),
                forall|k: int|
                    j2 <= k < ncs ==> (#[trigger] self.tables@[srci].columns@[k])
                        == mid.tables@[srci].columns@[k],
                forall|k: int|
                    0 <= k < ncs ==> (#[trigger] mid.tables@[srci].columns@[k])@.len()
                        == src_ents.len(),
            decreases ncs - j2,
        {
            self.tables[src].compact_column(j2, r);
            j2 += 1;
        }
        proof {
            let post = *self;
            let e_i = i as int;
            let ri = r as int;
            let lasti = src_ents.len() - 1;
            assert(post.tables@[srci].entities@ == src_ents.update(ri, src_ents[lasti]).drop_last());
            assert(removed == i) by {
                assert(pre.row_linked(srci, ri));
            }
            assert(post.tables_ok()) by {
                assert forall|t: int| 0 <= t < post.tables@.len() implies table_wf(
                    #[trigger] post.tables@[t],
                    post.registry@.len() as nat,
                ) by {
                    assert(table_wf(pre.tables@[t], pre.registry@.len() as nat));
                    if t == srci {
                        assert(forall|k: int|
                            0 <= k < ncs ==> (#[trigger] post.tables@[srci].columns@[k])@.len()
                                == src_ents.len() - 1);
                    }
                }
                assert forall|t1: int, t2: int| 0 <= t1 < t2 < post.tables@.len() implies (
                #[trigger] post.tables@[t1]).comps@ != (#[trigger] post.tables@[t2]).comps@ by {
                    assert(pre.tables@[t1].comps@ != pre.tables@[t2].comps@);
                }
            }
            assert forall|k1: int, k2: int| 0 <= k1 < k2 < src_ents.len() implies src_ents[k1]
                != src_ents[k2] by {
                assert(pre.row_linked(srci, k1));
                assert(pre.row_linked(srci, k2));
            }
            assert forall|t: int, rr: int|
                0 <= t < post.tables@.len() && 0 <= rr < post.tables@[t].entities@.len() implies
                #[trigger] post.row_linked(t, rr) by {
                if t == srci {
                    let oe = post.tables@[srci].entities@[rr] as int;
                    if rr == ri {
                        assert(oe == src_ents[lasti] as int);
                        assert(pre.row_linked(srci, lasti));
                        assert(oe != e_i) by {
                            if oe == e_i {
                                assert(pre.slots@[e_i].row as int == lasti);
                                assert(pre.slots@[e_i].row as int == ri);
                            }
                        }
                        assert(post.slots@[oe].table as int == srci);
                        assert(post.slots@[oe].row as int == rr);
                    } else {
                        assert(oe == src_ents[rr] as int);
                        assert(pre.row_linked(srci, rr));
                        assert(oe != e_i) by {
                            if oe == e_i {
                                assert(pre.slots@[e_i].row as int == rr);
                            }
                        }
                        assert(oe != src_ents[lasti] as int);
                        assert(post.slots@[oe] == pre.slots@[oe]);
                    }
                } else {
                    assert(pre.row_linked(t, rr));
                    let oe = pre.tables@[t].entities@[rr] as int;
                    assert(oe != e_i);
                    if ri < lasti {
                        assert(oe != src_ents[lasti] as int) by {
                            if oe == src_ents[lasti] as int {
                                assert(pre.row_linked(srci, lasti));
                            }
                        }
                    }
                    assert(post.slots@[oe] == pre.slots@[oe]);
                }
            }
            assert forall|k: int| 0 <= k < post.slots@.len() && post.slots@[k].alive implies
                #[trigger] post.slot_linked(k) by {
                if ri < lasti && k == src_ents[lasti] as int {
                    assert(post.tables@[srci].entities@[ri] == src_ents[lasti]);
                } else {
                    assert(k != e_i);
                    assert(post.slots@[k] == pre.slots@[k]);
                    assert(pre.slot_linked(k));
                    let sl = pre.slots@[k];
                    if sl.table as int == srci {
                        assert(pre.row_linked(srci, sl.row as int));
                        assert(sl.row as int != ri);
                        assert(sl.row as int != lasti);
                        assert(post.tables@[srci].entities@[sl.row as int] == src_ents[sl.row as int]);
                    } else {
                        assert(post.tables@[sl.table as int] == pre.tables@[sl.table as int]);
                    }
                }
            }
            assert(post.free_ok()) by {
                assert forall|k: int| 0 <= k < post.free@.len() implies (
                #[trigger] post.free@[k] as int) < post.slots@.len() && !post.slots@[post.free@[k] as int].alive by {
                    if k < pre.free@.len() {
                        assert(pre.free@[k] == post.free@[k]);
                        assert((pre.free@[k] as int) < pre.slots@.len()
                            && !pre.slots@[pre.free@[k] as int].alive);
                        if ri < lasti {
                            assert(pre.row_linked(srci, lasti));
                            assert(post.free@[k] as int != src_ents[lasti] as int);
                        }
                    } else {
                        assert(post.free@[k] == i);
                    }
                }
                assert forall|k1: int, k2: int| 0 <= k1 < k2 < post.free@.len() implies
                    post.free@[k1] != post.free@[k2] by {
                    if k2 == post.free@.len() - 1 && post.free@.len() > pre.free@.len() {
                        assert(post.free@[k2] == i);
                        assert(pre.free@.contains(pre.free@[k1]));
                        assert(!pre.slots@[pre.free@[k1] as int].alive);
                    }
                }
            }
            World::lemma_queries_ok_same_keys(pre, post);
            assert(!post.spec_alive(e));
            assert forall|e2: Entity| e2 != e implies #[trigger] pre.entity_preserved(post, e2) by {
                if pre.spec_alive(e2) {
                    let k = e2.spec_index();
                    if k == e_i {
                        Entity::lemma_ext(e2, e);
                    } else {
                        assert(pre.slot_linked(k));
                        let sl = pre.slots@[k];
                        let t = sl.table as int;
                        assert(post.tables@[t].comps@ == pre.tables@[t].comps@);
                        if ri < lasti && k == src_ents[lasti] as int {
                            assert(pre.row_linked(srci, lasti));
                            assert(t == srci);
                            assert(post.spec_alive(e2) == pre.spec_alive(e2));
                            assert(post.comps_of(e2) == pre.comps_of(e2));
                            assert forall|c: u64| pre.comps_of(e2).contains(c) implies
                                post.value_of(e2, c) == pre.value_of(e2, c) by {
                                let jc = pre.tables@[srci].comps@.index_of(c);
                                assert(pre.tables@[srci].comps@.contains(c));
                                assert(0 <= jc < pre.tables@[srci].comps@.len());
                                assert(post.slots@[k].row as int == ri);
                                assert(post.tables@[srci].columns@[jc]@[ri]
                                    == mid.tables@[srci].columns@[jc]@[lasti]);
                                assert(mid.tables@[srci].columns@[jc] == pre.tables@[srci].columns@[jc]);
                            }
                        } else {
                            assert(post.slots@[k] == pre.slots@[k]);
                            assert(post.spec_alive(e2) == pre.spec_alive(e2));
                            assert(post.comps_of(e2) == pre.comps_of(e2));
                            assert forall|c: u64| pre.comps_of(e2).contains(c) implies
                                post.value_of(e2, c) == pre.value_of(e2, c) by {
                                let jc = pre.tables@[t].comps@.index_of(c);
                                assert(pre.tables@[t].comps@.contains(c));
                                assert(0 <= jc < pre.tables@[t].comps@.len());
                                if t == srci {
                                    assert(pre.row_linked(srci, sl.row as int));
                                    assert(sl.row as int != ri);
                                    assert(sl.row as int != lasti);
                                    assert(post.tables@[srci].columns@[jc]@[sl.row as int]
                                        == pre.tables@[srci].columns@[jc]@[sl.row as int]);
                                } else {
                                    assert(post.tables@[t] == pre.tables@[t]);
                                }
                            }
                        }
                    }
                } else {
                    assert(post.spec_alive(e2) == pre.spec_alive(e2)) by {
                        if post.spec_alive(e2) {
                            let k = e2.spec_index();
                            if k == e_i {
                                assert(!post.slots@[e_i].alive);
                            } else if ri < lasti && k == src_ents[lasti] as int {
                                assert(pre.row_linked(srci, lasti));
                            } else {
                                assert(post.slots@[k] == pre.slots@[k]);
                            }
                        }
                    }
                }
            }
            assert(pre.tables_extend(post));
        }
        Ok(())
    }

    /// Validates `(e, c)` for a structural operation. On success hands back
    /// the entity's current table.
    fn validate(&self, e: Entity, c: u64) -> (res: Result<usize, EcsError>)
        requires
            self.wf(),
        ensures
            match res {
                Ok(t) => {
                    &&& self.spec_alive(e)
                    &&& self.spec_registered(c)
                    &&& t as int == self.table_of(e)
                    &&& (t as int) < self.n_tables()
                },
                Err(err) => World::arg_error(*self, *self, e, c, err),
            },
    {
        let i = e.slot_index();
        if i >= self.slots.len() {
            return Err(EcsError::UnknownEntity);
        }
        let s = self.slots[i];
        if !s.alive || s.generation != e.gen_value() {
            return Err(EcsError::StaleEntity);
        }
        if c >= self.registry.len() as u64 {
            return Err(EcsError::InvalidParameter);
        }
        proof {
            assert(self.slot_linked(i as int));
        }
        Ok(s.table)
    }

    /// Applies an `add` immediately.
    pub(crate) fn add_now(&mut self, e: Entity, c: u64) -> (res: Result<(), EcsError>)
        requires
            old(self).wf(),
        ensures
            final(self).wf(),
            World::add_outcome(*old(self), *final(self), e, c, res),
    {
        let ghost pre = *self;
        let src = match self.validate(e, c) {
            Ok(t) => t,
            Err(err) => {
                return Err(err);
            },
        };
        if contains_id(&self.tables[src].comps, c) {
            proof {
                assert(pre.comps_of(e).contains(c));
            }
            return Ok(());
        }
        proof {
            assert(!pre.comps_of(e).contains(c)) by {
                if pre.comps_seq_of(e).contains(c) {
                }
            }
            assert(table_wf(pre.tables@[src as int], pre.registry@.len() as nat));
        }
        let nreg = self.registry.len();
        proof {
            assert((c as int) < nreg as int);
            assert((c as usize) as int == c as int);
        }
        let size = self.registry[c as usize].size;
        let dflt = zero_bytes(size);
        let mut dkey = crate::sets::clone_ids(&self.tables[src].comps);
        sorted_insert(&mut dkey, c);
        proof {
            assert(dkey@.to_set() == pre.comps_of(e).insert(c));
            assert forall|j: int| 0 <= j < dkey@.len() implies pre.spec_registered(
                #[trigger] dkey@[j],
            ) by {
                assert(dkey@.to_set().contains(dkey@[j]));
                if dkey@[j] == c {
                } else {
                    assert(pre.comps_seq_of(e).contains(dkey@[j]));
                    let w = choose|w: int|
                        0 <= w < pre.comps_seq_of(e).len() && pre.comps_seq_of(e)[w] == dkey@[j];
                }
            }
        }
        let dst = match self.find_or_create_table(&dkey) {
            Ok(d) => d,
            Err(_) => {
                proof {
                    assert(false);
                }
                return Err(EcsError::InvalidParameter);
            },
        };
        let ghost mid = *self;
        proof {
            assert(pre.entity_preserved(mid, e));
            assert(mid.spec_alive(e));
            assert(mid.table_comps(dst as int) == dkey@.to_set());
            assert(table_wf(mid.tables@[dst as int], mid.registry@.len() as nat));
            lemma_sorted_set_canonical(mid.tables@[dst as int].comps@, dkey@);
            // the source table cannot be the destination: its set lacks `c`
            assert(mid.table_of(e) == pre.table_of(e));
            let srci = mid.table_of(e);
            assert(pre.slot_linked(e.spec_index()));
            assert(mid.comps_of(e) == pre.comps_of(e));
            if dst as int == srci {
                assert(mid.comps_seq_of(e) == mid.tables@[srci].comps@);
                assert(mid.comps_of(e).contains(c));
            }
            // key entries are either `c` or current components
            assert forall|j: int|
                0 <= j < dkey@.len() implies #[trigger] dkey@[j] == c || mid.comps_of(e).contains(
                dkey@[j],
            ) by {
                assert(dkey@.to_set().contains(dkey@[j]));
            }
        }
        let vals = self.values_with(e, &dkey, c, &dflt);
        let ghost vals_snap = vals@;
        self.place_row(e, dst, vals);
        let ghost moved = *self;
        emit(&self.observers, &mut self.events, e, c, EventKind::OnAdd, &dflt);
        proof {
            let post = *self;
            World::lemma_wf_frame(moved, post);
            // the view of e after the move
            assert(moved.comps_seq_of(e) == dkey@);
            assert(post.comps_of(e) == moved.comps_of(e));
            assert(post.comps_of(e) == pre.comps_of(e).insert(c));
            // emit only touched the log
            assert(post.slots == moved.slots && post.tables == moved.tables && post.registry
                == moved.registry && post.names == moved.names && post.queries == moved.queries
                && post.depth == moved.depth && post.queue == moved.queue);
            // the fresh cell holds the zero value
            assert(dkey@.to_set().contains(c));
            assert(dkey@.contains(c));
            let jc = choose|jc: int| 0 <= jc < dkey@.len() && dkey@[jc] == c;
            assert(moved.value_of(e, c) == vals_snap[jc]@);
            assert(vals_snap[jc]@ == dflt@);
            assert(post.value_of(e, c) == moved.value_of(e, c));
            // old cells keep their values
            assert forall|c2: u64| pre.comps_of(e).contains(c2) implies post.value_of(e, c2)
                == pre.value_of(e, c2) by {
                assert(c2 != c);
                assert(dkey@.to_set().contains(c2));
                let j2 = choose|j2: int| 0 <= j2 < dkey@.len() && dkey@[j2] == c2;
                assert(moved.value_of(e, dkey@[j2]) == vals_snap[j2]@);
                assert(vals_snap[j2]@ == mid.value_of(e, c2));
                assert(mid.value_of(e, c2) == pre.value_of(e, c2));
                assert(post.value_of(e, c2) == moved.value_of(e, c2));
            }
            // other entities unchanged end to end
            assert forall|e2: Entity| e2 != e implies #[trigger] pre.entity_preserved(post, e2) by {
                assert(pre.entity_preserved(mid, e2));
                assert(mid.entity_preserved(moved, e2));
                World::lemma_entity_preserved_trans(pre, mid, moved, e2);
                assert(moved.entity_preserved(post, e2)) by {
                    assert(post.spec_alive(e2) == moved.spec_alive(e2));
                    if moved.spec_alive(e2) {
                        assert(post.comps_of(e2) == moved.comps_of(e2));
                        assert forall|cc: u64| moved.comps_of(e2).contains(cc) implies
                            post.value_of(e2, cc) == moved.value_of(e2, cc) by {}
                    }
                }
                World::lemma_entity_preserved_trans(pre, moved, post, e2);
            }
            assert forall|e2: Entity| post.spec_alive(e2) == pre.spec_alive(e2) by {
                assert(mid.spec_alive(e2) == pre.spec_alive(e2));
                assert(moved.spec_alive(e2) == mid.spec_alive(e2));
                assert(post.spec_alive(e2) == moved.spec_alive(e2));
            }
            assert(pre.statics_eq(post)) by {
                assert(pre.statics_eq(mid));
                assert(mid.statics_eq(moved)) by {
                    assert forall|qi: int| 0 <= qi < mid.n_queries() implies
                        #[trigger] moved.query_terms(qi) == mid.query_terms(qi) by {}
                }
                assert(moved.statics_eq(post)) by {
                    assert forall|qi: int| 0 <= qi < moved.n_queries() implies
                        #[trigger] post.query_terms(qi) == moved.query_terms(qi) by {}
                }
                World::lemma_statics_trans(pre, mid, moved);
                World::lemma_statics_trans(pre, moved, post);
            }
            assert(pre.tables_extend(post)) by {
                assert(pre.tables_extend(mid));
                assert forall|t: int| 0 <= t < pre.n_tables() implies #[trigger] post.table_comps(t)
                    == pre.table_comps(t) by {
                    assert(mid.table_comps(t) == pre.table_comps(t));
                    assert(post.tables@[t].comps@ == moved.tables@[t].comps@);
                    assert(moved.tables@[t].comps@ == mid.tables@[t].comps@);
                }
            }
            // the notification log grows by exactly the matching observers
            assert(moved.spec_events() == pre.spec_events()) by {
                assert(moved.events == mid.events);
                assert(mid.spec_events() == pre.spec_events());
            }
            assert(moved.observers@ == pre.observers@) by {
                assert(mid.spec_observers() == pre.spec_observers());
                assert(moved.observers == mid.observers);
            }
            assert(post.spec_events() == pre.spec_events() + notifs(
                pre.spec_observers(),
                e,
                c,
                EventKind::OnAdd,
                zero_value(pre.component_size(c)),
            )) by {
                assert(dflt@ == zero_value(pre.component_size(c)));
                assert(events_view(post.events@) == events_view(moved.events@) + notifs(
                    moved.observers@,
                    e,
                    c,
                    EventKind::OnAdd,
                    dflt@,
                ));
            }
        }
        Ok(())
    }

    /// Applies a `remove` immediately. Observers see the value before it is
    /// destructed: the `OnRemove` notifications carry the still-intact bytes
    /// and are logged before the row moves.
    pub(crate) fn remove_now(&mut self, e: Entity, c: u64) -> (res: Result<(), EcsError>)
        requires
            old(self).wf(),
        ensures
            final(self).wf(),
            World::remove_outcome(*old(self), *final(self), e, c, res),
    {
        let ghost pre = *self;
        let src = match self.validate(e, c) {
            Ok(t) => t,
            Err(err) => {
                return Err(err);
            },
        };
        let i = e.slot_index();
        proof {
            assert(pre.slot_linked(i as int));
            assert(table_wf(pre.tables@[src as int], pre.registry@.len() as nat));
        }
        let row = self.slots[i].row;
        let jj = match crate::sets::position_of(&self.tables[src].comps, c) {
            Some(j) => j,
            None => {
                proof {
                    assert(!pre.comps_of(e).contains(c)) by {
                        if pre.comps_seq_of(e).contains(c) {
                        }
                    }
                }
                return Ok(());
            },
        };
        proof {
            crate::sets::lemma_sorted_index_of(pre.tables@[src as int].comps@, jj as int);
            assert(pre.comps_seq_of(e).contains(c));
            assert(pre.comps_of(e).contains(c));
        }
        let oldv = clone_bytes(&self.tables[src].columns[jj][row]);
        proof {
            assert(oldv@ == pre.value_of(e, c));
        }
        emit(&self.observers, &mut self.events, e, c, EventKind::OnRemove, &oldv);
        let ghost emitted = *self;
        proof {
            World::lemma_wf_frame(pre, emitted);
            assert(emitted.slots == pre.slots && emitted.tables == pre.tables && emitted.registry
                == pre.registry);
        }
        let dkey = crate::sets::sorted_remove(&self.tables[src].comps, c);
        proof {
            assert(dkey@.to_set() == pre.comps_of(e).remove(c));
            assert forall|j: int| 0 <= j < dkey@.len() implies emitted.spec_registered(
                #[trigger] dkey@[j],
            ) by {
                assert(dkey@.to_set().contains(dkey@[j]));
                assert(pre.comps_seq_of(e).contains(dkey@[j]));
                let w = choose|w: int|
                    0 <= w < pre.comps_seq_of(e).len() && pre.comps_seq_of(e)[w] == dkey@[j];
            }
        }
        let dst = match self.find_or_create_table(&dkey) {
            Ok(d) => d,
            Err(_) => {
                proof {
                    assert(false);
                }
                return Err(EcsError::InvalidParameter);
            },
        };
        let ghost mid = *self;
        proof {
            assert(emitted.entity_preserved(mid, e));
            assert(mid.spec_alive(e));
            assert(mid.table_comps(dst as int) == dkey@.to_set());
            assert(table_wf(mid.tables@[dst as int], mid.registry@.len() as nat));
            lemma_sorted_set_canonical(mid.tables@[dst as int].comps@, dkey@);
            assert(mid.table_of(e) == pre.table_of(e));
            let srci = mid.table_of(e);
            assert(mid.comps_of(e) == pre.comps_of(e));
            if dst as int == srci {
                assert(mid.comps_seq_of(e) == mid.tables@[srci].comps@);
                assert(mid.comps_of(e) == dkey@.to_set());
                assert(!dkey@.to_set().contains(c));
            }
            assert forall|j: int|
                0 <= j < dkey@.len() implies #[trigger] dkey@[j] == c || mid.comps_of(e).contains(
                dkey@[j],
            ) by {
                assert(dkey@.to_set().contains(dkey@[j]));
            }
        }
        let empty: Vec<u8> = Vec::new();
        let vals = self.values_with(e, &dkey, c, &empty);
        let ghost vals_snap = vals@;
        self.place_row(e, dst, vals);
        proof {
            let post = *self;
            assert(post.comps_seq_of(e) == dkey@);
            assert(post.comps_of(e) == pre.comps_of(e).remove(c));
            assert forall|c2: u64| pre.comps_of(e).contains(c2) && c2 != c implies post.value_of(
                e,
                c2,
            ) == pre.value_of(e, c2) by {
                assert(dkey@.to_set().contains(c2));
                let j2 = choose|j2: int| 0 <= j2 < dkey@.len() && dkey@[j2] == c2;
                assert(post.value_of(e, dkey@[j2]) == vals_snap[j2]@);
                assert(dkey@[j2] != c);
                assert(vals_snap[j2]@ == mid.value_of(e, c2));
                assert(mid.value_of(e, c2) == pre.value_of(e, c2)) by {
                    assert(emitted.value_of(e, c2) == pre.value_of(e, c2));
                    assert(emitted.comps_of(e).contains(c2));
                }
            }
            assert forall|e2: Entity| e2 != e implies #[trigger] pre.entity_preserved(post, e2) by {
                assert(pre.entity_preserved(emitted, e2)) by {
                    if pre.spec_alive(e2) {
                        assert(emitted.comps_of(e2) == pre.comps_of(e2));
                        assert forall|cc: u64| pre.comps_of(e2).contains(cc) implies
                            emitted.value_of(e2, cc) == pre.value_of(e2, cc) by {}
                    } else {
                        assert(emitted.spec_alive(e2) == pre.spec_alive(e2));
                    }
                }
                assert(emitted.entity_preserved(mid, e2));
                World::lemma_entity_preserved_trans(pre, emitted, mid, e2);
                assert(mid.entity_preserved(post, e2));
                World::lemma_entity_preserved_trans(pre, mid, post, e2);
            }
            assert forall|e2: Entity| post.spec_alive(e2) == pre.spec_alive(e2) by {
                assert(emitted.spec_alive(e2) == pre.spec_alive(e2));
                assert(mid.spec_alive(e2) == emitted.spec_alive(e2));
                assert(post.spec_alive(e2) == mid.spec_alive(e2));
            }
            assert(pre.statics_eq(post)) by {
                assert(pre.statics_eq(emitted)) by {
                    assert forall|qi: int| 0 <= qi < pre.n_queries() implies
                        #[trigger] emitted.query_terms(qi) == pre.query_terms(qi) by {}
                }
                assert(emitted.statics_eq(mid));
                assert(mid.statics_eq(post)) by {
                    assert forall|qi: int| 0 <= qi < mid.n_queries() implies
                        #[trigger] post.query_terms(qi) == mid.query_terms(qi) by {}
                }
                World::lemma_statics_trans(pre, emitted, mid);
                World::lemma_statics_trans(pre, mid, post);
            }
            assert(pre.tables_extend(post)) by {
                assert(emitted.tables_extend(mid));
                assert forall|t: int| 0 <= t < pre.n_tables() implies #[trigger] post.table_comps(t)
                    == pre.table_comps(t) by {
                    assert(mid.table_comps(t) == emitted.table_comps(t));
                    assert(post.tables@[t].comps@ == mid.tables@[t].comps@);
                }
            }
            assert(post.spec_events() == pre.spec_events() + notifs(
                pre.spec_observers(),
                e,
                c,
                EventKind::OnRemove,
                pre.value_of(e, c),
            )) by {
                assert(events_view(emitted.events@) == events_view(pre.events@) + notifs(
                    pre.observers@,
                    e,
                    c,
                    EventKind::OnRemove,
                    oldv@,
                ));
                assert(mid.spec_events() == emitted.spec_events());
                assert(post.events == mid.events);
            }
        }
        Ok(())
    }

    /// Applies a `set` immediately: adds the component first when absent
    /// (logging `OnAdd` with the zero-constructed value), writes the bytes,
    /// and logs `OnSet` with the assigned value.
    pub(crate) fn set_now(&mut self, e: Entity, c: u64, v: &Vec<u8>) -> (res: Result<
        (),
        EcsError,
    >)
        requires
            old(self).wf(),
        ensures
            final(self).wf(),
            World::set_outcome(*old(self), *final(self), e, c, v@, res),
    {
        let ghost pre = *self;
        let src = match self.validate(e, c) {
            Ok(t) => t,
            Err(err) => {
                return Err(err);
            },
        };
        let i = e.slot_index();
        proof {
            assert(pre.slot_linked(i as int));
            assert(table_wf(pre.tables@[src as int], pre.registry@.len() as nat));
        }
        let row = self.slots[i].row;
        match crate::sets::position_of(&self.tables[src].comps, c) {
            Some(jj) => {
                // present: overwrite the cell, then notify
                proof {
                    crate::sets::lemma_sorted_index_of(pre.tables@[src as int].comps@, jj as int);
                    assert(pre.comps_seq_of(e).contains(c));
                    assert(pre.comps_of(e).contains(c));
                }
                self.tables[src].set_cell(jj, row, clone_bytes(v));
                let ghost wrote = *self;
                proof {
                    assert(wrote.tables_ok()) by {
                        assert forall|t: int| 0 <= t < wrote.tables@.len() implies table_wf(
                            #[trigger] wrote.tables@[t],
                            wrote.registry@.len() as nat,
                        ) by {
                            assert(table_wf(pre.tables@[t], pre.registry@.len() as nat));
                            if t == src as int {
                                assert(forall|k: int|
                                    0 <= k < wrote.tables@[t].columns@.len() ==> (
                                    #[trigger] wrote.tables@[t].columns@[k])@.len()
                                        == pre.tables@[t].columns@[k]@.len());
                            }
                        }
                        assert forall|t1: int, t2: int|
                            0 <= t1 < t2 < wrote.tables@.len() implies (
                        #[trigger] wrote.tables@[t1]).comps@ != (
                        #[trigger] wrote.tables@[t2]).comps@ by {
                            assert(pre.tables@[t1].comps@ != pre.tables@[t2].comps@);
                        }
                    }
                    assert(wrote.links_ok()) by {
                        assert forall|t: int, rr: int|
                            0 <= t < wrote.tables@.len() && 0 <= rr
                                < wrote.tables@[t].entities@.len() implies #[trigger] wrote.row_linked(
                            t,
                            rr,
                        ) by {
                            assert(pre.row_linked(t, rr));
                        }
                        assert forall|k: int|
                            0 <= k < wrote.slots@.len() && wrote.slots@[k].alive implies
                            #[trigger] wrote.slot_linked(k) by {
                            assert(pre.slot_linked(k));
                        }
                    }
                    World::lemma_queries_ok_same_keys(pre, wrote);
                }
                emit(&self.observers, &mut self.events, e, c, EventKind::OnSet, v);
                proof {
                    let post = *self;
                    World::lemma_wf_frame(wrote, post);
                    assert(post.slots == wrote.slots && post.tables == wrote.tables);
                    assert(post.comps_of(e) == pre.comps_of(e));
                    assert(post.comps_of(e) =~= pre.comps_of(e).insert(c));
                    assert(post.value_of(e, c) == v@) by {
                        assert(wrote.tables@[src as int].columns@[jj as int]@[row as int]@ == v@);
                    }
                    assert forall|c2: u64|
                        pre.comps_of(e).contains(c2) && c2 != c implies post.value_of(e, c2)
                            == pre.value_of(e, c2) by {
                        let j2 = pre.tables@[src as int].comps@.index_of(c2);
                        assert(pre.comps_seq_of(e).contains(c2));
                        assert(0 <= j2 < pre.tables@[src as int].comps@.len());
                        assert(j2 != jj as int) by {
                            if j2 == jj as int {
                                assert(pre.tables@[src as int].comps@[j2] == c2);
                            }
                        }
                        assert(wrote.tables@[src as int].columns@[j2] == pre.tables@[src as int].columns@[j2]);
                    }
                    assert forall|e2: Entity| e2 != e implies #[trigger] pre.entity_preserved(
                        post,
                        e2,
                    ) by {
                        if pre.spec_alive(e2) {
                            assert(pre.slot_linked(e2.spec_index()));
                            let t2 = pre.slots@[e2.spec_index()].table as int;
                            assert(post.comps_of(e2) == pre.comps_of(e2));
                            assert forall|cc: u64| pre.comps_of(e2).contains(cc) implies
                                post.value_of(e2, cc) == pre.value_of(e2, cc) by {
                                let jc = pre.tables@[t2].comps@.index_of(cc);
                                assert(pre.comps_seq_of(e2).contains(cc));
                                assert(0 <= jc < pre.tables@[t2].comps@.len());
                                if t2 == src as int {
                                    let r2 = pre.slots@[e2.spec_index()].row as int;
                                    assert(r2 != row as int) by {
                                        if r2 == row as int {
                                            assert(pre.row_linked(src as int, r2));
                                            assert(e2.spec_index() == i as int);
                                            assert(e2.spec_generation()
                                                == pre.slots@[i as int].generation);
                                            Entity::lemma_ext(e2, e);
                                        }
                                    }
                                    assert(wrote.tables@[src as int].columns@[jc]@[r2]
                                        == pre.tables@[src as int].columns@[jc]@[r2]);
                                } else {
                                    assert(wrote.tables@[t2] == pre.tables@[t2]);
                                }
                            }
                        } else {
                            assert(post.spec_alive(e2) == pre.spec_alive(e2));
                        }
                    }
                    assert(post.spec_events() == pre.spec_events() + notifs(
                        pre.spec_observers(),
                        e,
                        c,
                        EventKind::OnSet,
                        v@,
                    )) by {
                        assert(wrote.events == pre.events);
                    }
                }
                Ok(())
            },
            None => {
                // absent: construct first, then assign, then notify
                proof {
                    assert(!pre.comps_of(e).contains(c)) by {
                        if pre.comps_seq_of(e).contains(c) {
                        }
                    }
                }
                let nreg = self.registry.len();
                proof {
                    assert((c as int) < nreg as int);
                    assert((c as usize) as int == c as int);
                }
                let size = self.registry[c as usize].size;
                let dflt = zero_bytes(size);
                emit(&self.observers, &mut self.events, e, c, EventKind::OnAdd, &dflt);
                let ghost emitted = *self;
                proof {
                    World::lemma_wf_frame(pre, emitted);
                    assert(emitted.slots == pre.slots && emitted.tables == pre.tables
                        && emitted.registry == pre.registry);
                }
                let mut dkey = crate::sets::clone_ids(&self.tables[src].comps);
                sorted_insert(&mut dkey, c);
                proof {
                    assert(dkey@.to_set() == pre.comps_of(e).insert(c));
                    assert forall|j: int| 0 <= j < dkey@.len() implies emitted.spec_registered(
                        #[trigger] dkey@[j],
                    ) by {
                        assert(dkey@.to_set().contains(dkey@[j]));
                        if dkey@[j] == c {
                        } else {
                            assert(pre.comps_seq_of(e).contains(dkey@[j]));
                            let w = choose|w: int|
                                0 <= w < pre.comps_seq_of(e).len() && pre.comps_seq_of(e)[w]
                                    == dkey@[j];
                        }
                    }
                }
                let dst = match self.find_or_create_table(&dkey) {
                    Ok(d) => d,
                    Err(_) => {
                        proof {
                            assert(false);
                        }
                        return Err(EcsError::InvalidParameter);
                    },
                };
                let ghost mid = *self;
                proof {
                    assert(emitted.entity_preserved(mid, e));
                    assert(mid.spec_alive(e));
                    assert(mid.table_comps(dst as int) == dkey@.to_set());
                    assert(table_wf(mid.tables@[dst as int], mid.registry@.len() as nat));
                    lemma_sorted_set_canonical(mid.tables@[dst as int].comps@, dkey@);
                    assert(mid.table_of(e) == pre.table_of(e));
                    let srci = mid.table_of(e);
                    assert(mid.comps_of(e) == pre.comps_of(e));
                    if dst as int == srci {
                        assert(mid.comps_seq_of(e) == mid.tables@[srci].comps@);
                        assert(mid.comps_of(e).contains(c));
                    }
                    assert forall|j: int|
                        0 <= j < dkey@.len() implies #[trigger] dkey@[j] == c
                            || mid.comps_of(e).contains(dkey@[j]) by {
                        assert(dkey@.to_set().contains(dkey@[j]));
                    }
                }
                let vals = self.values_with(e, &dkey, c, v);
                let ghost vals_snap = vals@;
                self.place_row(e, dst, vals);
                let ghost moved = *self;
                emit(&self.observers, &mut self.events, e, c, EventKind::OnSet, v);
                proof {
                    let post = *self;
                    World::lemma_wf_frame(moved, post);
                    assert(post.slots == moved.slots && post.tables == moved.tables);
                    assert(moved.comps_seq_of(e) == dkey@);
                    assert(post.comps_of(e) == moved.comps_of(e));
                    assert(post.comps_of(e) == pre.comps_of(e).insert(c));
                    assert(dkey@.to_set().contains(c));
                    assert(dkey@.contains(c));
                    let jc = choose|jc: int| 0 <= jc < dkey@.len() && dkey@[jc] == c;
                    assert(moved.value_of(e, c) == vals_snap[jc]@);
                    assert(vals_snap[jc]@ == v@);
                    assert(post.value_of(e, c) == moved.value_of(e, c));
                    assert forall|c2: u64|
                        pre.comps_of(e).contains(c2) && c2 != c implies post.value_of(e, c2)
                            == pre.value_of(e, c2) by {
                        assert(dkey@.to_set().contains(c2));
                        let j2 = choose|j2: int| 0 <= j2 < dkey@.len() && dkey@[j2] == c2;
                        assert(moved.value_of(e, dkey@[j2]) == vals_snap[j2]@);
                        assert(vals_snap[j2]@ == mid.value_of(e, c2));
                        assert(mid.value_of(e, c2) == pre.value_of(e, c2)) by {
                            assert(emitted.value_of(e, c2) == pre.value_of(e, c2));
                            assert(emitted.comps_of(e).contains(c2));
                        }
                        assert(post.value_of(e, c2) == moved.value_of(e, c2));
                    }
                    assert forall|e2: Entity| e2 != e implies #[trigger] pre.entity_preserved(
                        post,
                        e2,
                    ) by {
                        assert(pre.entity_preserved(emitted, e2)) by {
                            if pre.spec_alive(e2) {
                                assert(emitted.comps_of(e2) == pre.comps_of(e2));
                                assert forall|cc: u64| pre.comps_of(e2).contains(cc) implies
                                    emitted.value_of(e2, cc) == pre.value_of(e2, cc) by {}
                            } else {
                                assert(emitted.spec_alive(e2) == pre.spec_alive(e2));
                            }
                        }
                        assert(emitted.entity_preserved(mid, e2));
                        World::lemma_entity_preserved_trans(pre, emitted, mid, e2);
                        assert(mid.entity_preserved(moved, e2));
                        World::lemma_entity_preserved_trans(pre, mid, moved, e2);
                        assert(moved.entity_preserved(post, e2)) by {
                            assert(post.spec_alive(e2) == moved.spec_alive(e2));
                            if moved.spec_alive(e2) {
                                assert(post.comps_of(e2) == moved.comps_of(e2));
                                assert forall|cc: u64| moved.comps_of(e2).contains(cc) implies
                                    post.value_of(e2, cc) == moved.value_of(e2, cc) by {}
                            }
                        }
                        World::lemma_entity_preserved_trans(pre, moved, post, e2);
                    }
                    assert forall|e2: Entity| post.spec_alive(e2) == pre.spec_alive(e2) by {
                        assert(emitted.spec_alive(e2) == pre.spec_alive(e2));
                        assert(mid.spec_alive(e2) == emitted.spec_alive(e2));
                        assert(moved.spec_alive(e2) == mid.spec_alive(e2));
                        assert(post.spec_alive(e2) == moved.spec_alive(e2));
                    }
                    assert(pre.statics_eq(post)) by {
                        assert(pre.statics_eq(emitted)) by {
                            assert forall|qi: int| 0 <= qi < pre.n_queries() implies
                                #[trigger] emitted.query_terms(qi) == pre.query_terms(qi) by {}
                        }
                        assert(emitted.statics_eq(mid));
                        assert(mid.statics_eq(moved)) by {
                            assert forall|qi: int| 0 <= qi < mid.n_queries() implies
                                #[trigger] moved.query_terms(qi) == mid.query_terms(qi) by {}
                        }
                        assert(moved.statics_eq(post)) by {
                            assert forall|qi: int| 0 <= qi < moved.n_queries() implies
                                #[trigger] post.query_terms(qi) == moved.query_terms(qi) by {}
                        }
                        World::lemma_statics_trans(pre, emitted, mid);
                        World::lemma_statics_trans(pre, mid, moved);
                        World::lemma_statics_trans(pre, moved, post);
                    }
                    assert(pre.tables_extend(post)) by {
                        assert(emitted.tables_extend(mid));
                        assert forall|t: int| 0 <= t < pre.n_tables() implies
                            #[trigger] post.table_comps(t) == pre.table_comps(t) by {
                            assert(mid.table_comps(t) == emitted.table_comps(t));
                            assert(post.tables@[t].comps@ == moved.tables@[t].comps@);
                            assert(moved.tables@[t].comps@ == mid.tables@[t].comps@);
                        }
                    }
                    assert(post.spec_events() == pre.spec_events() + (notifs(
                        pre.spec_observers(),
                        e,
                        c,
                        EventKind::OnAdd,
                        zero_value(pre.component_size(c)),
                    ) + notifs(pre.spec_observers(), e, c, EventKind::OnSet, v@))) by {
                        assert(dflt@ == zero_value(pre.component_size(c)));
                        assert(events_view(emitted.events@) == events_view(pre.events@) + notifs(
                            pre.observers@,
                            e,
                            c,
                            EventKind::OnAdd,
                            dflt@,
                        ));
                        assert(moved.spec_events() == emitted.spec_events()) by {
                            assert(moved.events == mid.events);
                            assert(mid.spec_events() == emitted.spec_events());
                        }
                        assert(moved.observers@ == pre.observers@) by {
                            assert(mid.spec_observers() == emitted.spec_observers());
                            assert(moved.observers == mid.observers);
                        }
                        assert(events_view(post.events@) == events_view(moved.events@) + notifs(
                            moved.observers@,
                            e,
                            c,
                            EventKind::OnSet,
                            v@,
                        ));
                        assert(events_view(pre.events@) + notifs(
                            pre.observers@,
                            e,
                            c,
                            EventKind::OnAdd,
                            dflt@,
                        ) + notifs(pre.observers@, e, c, EventKind::OnSet, v@) =~= events_view(
                            pre.events@,
                        ) + (notifs(pre.observers@, e, c, EventKind::OnAdd, dflt@) + notifs(
                            pre.observers@,
                            e,
                            c,
                            EventKind::OnSet,
                            v@,
                        )));
                    }
                }
                Ok(())
            },
        }
    }

    /// Whether the identifier is currently valid: its slot is live and still
    /// carries the identifier's generation.
    pub fn is_alive(&self, e: Entity) -> (r: bool)
        ensures
            r == self.spec_alive(e),
    {
        let i = e.slot_index();
        if i >= self.slots.len() {
            return false;
        }
        let s = self.slots[i];
        s.alive && s.generation == e.gen_value()
    }

    /// Allocates an entity: a recycled slot with its current generation, or
    /// a fresh slot at generation zero. The new entity is alive, holds no
    /// components, and every other entity is untouched. Allocation is
    /// immediate even inside a deferred scope.
    pub fn create(&mut self) -> (e: Entity)
        requires
            old(self).wf(),
            old(self).n_slots() < usize::MAX,
        ensures
            final(self).wf(),
            final(self).spec_alive(e),
            !old(self).spec_alive(e),
            final(self).comps_of(e) == Set::<u64>::empty(),
            final(self).table_of(e) == 0,
            old(self).others_preserved(*final(self), e),
            old(self).statics_eq(*final(self)),
            old(self).defer_eq(*final(self)),
            final(self).spec_events() == old(self).spec_events(),
            old(self).tables_extend(*final(self)),
            final(self).n_tables() == old(self).n_tables(),
            old(self).n_slots() <= final(self).n_slots() <= old(self).n_slots() + 1,
            final(self).regs() == old(self).regs(),
    {
        let ghost pre = *self;
        let i: usize;
        match self.free.pop() {
            Some(j) => {
                i = j;
            },
            None => {
                i = self.slots.len();
                self.slots.push(
                    Slot { generation: 0, alive: false, table: 0, row: 0 },
                );
            },
        }
        let row = self.tables[0].entities.len();
        let g = self.slots[i].generation;
        self.tables[0].entities.push(i);
        self.slots[i] = Slot { generation: g, alive: true, table: 0, row };
        let e = Entity::make(i, g);
        proof {
            let post = *self;
            assert(post.tables@[0].comps@ == pre.tables@[0].comps@);
            assert(post.tables@.len() == pre.tables@.len());
            assert forall|t: int| 0 <= t < post.tables@.len() implies table_wf(
                #[trigger] post.tables@[t],
                post.registry@.len() as nat,
            ) by {
                assert(table_wf(pre.tables@[t], pre.registry@.len() as nat));
                if t == 0 {
                    assert(post.tables@[0].comps@.len() == 0);
                    assert(post.tables@[0].columns@.len() == 0);
                }
            }
            // links
            assert forall|t: int, r: int|
                0 <= t < post.tables@.len() && 0 <= r < post.tables@[t].entities@.len() implies
                #[trigger] post.row_linked(t, r) by {
                if t == 0 && r == row as int {
                    assert(post.slots@[i as int].alive);
                } else {
                    assert(pre.row_linked(t, r));
                    let oe = pre.tables@[t].entities@[r] as int;
                    assert(oe != i as int) by {
                        if oe == i as int {
                            assert(pre.slots@[i as int].alive);
                        }
                    }
                    assert(post.slots@[oe] == pre.slots@[oe]);
                }
            }
            assert forall|k: int| 0 <= k < post.slots@.len() && post.slots@[k].alive implies
                #[trigger] post.slot_linked(k) by {
                if k == i as int {
                    assert(post.tables@[0].entities@[row as int] == i);
                } else {
                    assert(k < pre.slots@.len() && pre.slots@[k] == post.slots@[k]);
                    assert(pre.slot_linked(k));
                    let s = pre.slots@[k];
                    if s.table as int == 0 {
                        assert(post.tables@[0].entities@[s.row as int] == pre.tables@[0].entities@[s.row as int]);
                    }
                }
            }
            // free list
            assert forall|k: int| 0 <= k < post.free@.len() implies (#[trigger] post.free@[k] as int)
                < post.slots@.len() && !post.slots@[post.free@[k] as int].alive by {
                assert(pre.free@.contains(pre.free@[k]));
                assert(post.free@[k] == pre.free@[k]);
                assert(post.free@[k] as int != i as int);
            }
            // aliveness of e before
            assert(!pre.spec_alive(e));
            assert(post.comps_of(e) =~= Set::<u64>::empty());
            // others preserved
            assert forall|e2: Entity| e2 != e implies #[trigger] pre.entity_preserved(post, e2) by {
                if pre.spec_alive(e2) {
                    assert(pre.slots@[e2.spec_index()] == post.slots@[e2.spec_index()]);
                    assert(pre.slot_linked(e2.spec_index()));
                    let t = pre.slots@[e2.spec_index()].table as int;
                    assert(post.tables@[t].comps@ == pre.tables@[t].comps@);
                    assert forall|c: u64| pre.comps_of(e2).contains(c) implies post.value_of(e2, c)
                        == pre.value_of(e2, c) by {
                        if t == 0 {
                            assert(pre.tables@[0].comps@.len() == 0);
                            assert(pre.tables@[0].comps@.contains(c));
                            assert(false);
                        } else {
                            assert(post.tables@[t] == pre.tables@[t]);
                        }
                    }
                } else {
                    if post.spec_alive(e2) {
                        assert(e2.spec_index() == i as int);
                        assert(e2.spec_generation() == g);
                        Entity::lemma_ext(e2, e);
                    }
                }
            }
            // queries: tables unchanged in key and count; caches stay valid
            assert forall|qi: int| 0 <= qi < post.queries@.len() implies {
                let q = #[trigger] post.queries@[qi];
                post.query_terms_wf(q) && (!q.stale ==> post.cache_ok(q))
            } by {
                let q = post.queries@[qi];
                assert(pre.query_terms_wf(q) && (!q.stale ==> pre.cache_ok(q)));
                if !q.stale {
                    assert forall|k: int| 0 <= k < q.cached@.len() implies (#[trigger] q.cached@[k] as int)
                        < post.tables@.len() && post.table_matches(
                        q.cached@[k] as int,
                        q.required@,
                        q.excluded@,
                    ) by {
                        assert(pre.table_matches(q.cached@[k] as int, q.required@, q.excluded@));
                        assert(post.tables@[q.cached@[k] as int].comps@ == pre.tables@[q.cached@[k] as int].comps@);
                    }
                    assert forall|t: int|
                        0 <= t < post.tables@.len() && post.table_matches(
                            t,
                            q.required@,
                            q.excluded@,
                        ) implies q.cached@.contains(t as usize) by {
                        assert(post.tables@[t].comps@ == pre.tables@[t].comps@);
                        assert(pre.table_matches(t, q.required@, q.excluded@));
                    }
                }
            }
            assert(pre.tables_extend(post));
        }
        e
    }
}

} // verus!
