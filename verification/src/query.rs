//! Compiled queries: term lists over required and excluded components, a
//! cached match list rebuilt lazily, and the iteration handle.

use vstd::prelude::*;

use crate::types::{EcsError, Entity};
use crate::world::World;

verus! {

/// A compiled query: canonical required and excluded component sets, the
/// number of declared iteration variables, and a cached list of matching
/// tables that is rebuilt when marked stale.
pub struct Query {
    pub(crate) required: Vec<u64>,
    pub(crate) excluded: Vec<u64>,
    pub(crate) n_vars: usize,
    pub(crate) cached: Vec<usize>,
    pub(crate) stale: bool,
}

/// A restartable iteration handle over a query's match list: a snapshot of
/// the matching tables, an optional group restriction, and pre-bound
/// iteration variables that narrow the yielded rows.
pub struct IterIterable {
    tables: Vec<usize>,
    group_filter: Option<u64>,
    vars: Vec<Option<Entity>>,
}

impl IterIterable {
    /// The match-list snapshot this handle iterates.
    pub closed spec fn spec_tables(self) -> Seq<usize> {
        self.tables@
    }

    /// The group restriction, if one was set.
    pub closed spec fn spec_group_filter(self) -> Option<u64> {
        self.group_filter
    }

    /// The variable bindings, one slot per declared variable.
    pub closed spec fn spec_vars(self) -> Seq<Option<Entity>> {
        self.vars@
    }

    /// A row entity is admitted by the bindings when every bound variable is
    /// bound to it.
    pub open spec fn vars_allow(self, e: Entity) -> bool {
        forall|j: int|
            0 <= j < self.spec_vars().len() ==> ((#[trigger] self.spec_vars()[j]) matches Some(x)
                ==> x == e)
    }

    /// A fresh handle over a match list, with `n_vars` unbound variables and
    /// no group restriction.
    pub fn new(tables: Vec<usize>, n_vars: usize) -> (it: IterIterable)
        ensures
            it.spec_tables() == tables@,
            it.spec_group_filter() is None,
            it.spec_vars().len() == n_vars as int,
            forall|j: int| 0 <= j < n_vars as int ==> (#[trigger] it.spec_vars()[j]) is None,
    {
        let mut vars: Vec<Option<Entity>> = Vec::new();
        let mut j: usize = 0;
        while j < n_vars
            invariant
                j <= n_vars,
                vars@.len() == j,
                forall|k: int| 0 <= k < j ==> (#[trigger] vars@[k]) is None,
            decreases n_vars - j,
        {
            vars.push(None);
            j += 1;
        }
        IterIterable { tables, group_filter: None, vars }
    }

    /// Restricts iteration to tables whose group key equals `group_id`.
    pub fn set_group_id(&mut self, group_id: u64)
        ensures
            final(self).spec_tables() == old(self).spec_tables(),
            final(self).spec_group_filter() == Some(group_id),
            final(self).spec_vars() == old(self).spec_vars(),
    {
        self.group_filter = Some(group_id);
    }

    /// Pre-binds iteration variable `var_id` to `value`, narrowing the rows
    /// the handle yields to that entity. Fails with `InvalidVariable` when
    /// `var_id` does not name a declared variable.
    pub fn set_var(&mut self, var_id: i32, value: Entity) -> (res: Result<(), EcsError>)
        ensures
            final(self).spec_tables() == old(self).spec_tables(),
            final(self).spec_group_filter() == old(self).spec_group_filter(),
            match res {
                Ok(u) => {
                    &&& u == ()
                    &&& 0 <= (var_id as int) && (var_id as int) < old(self).spec_vars().len()
                    &&& final(self).spec_vars() == old(self).spec_vars().update(
                        var_id as int,
                        Some(value),
                    )
                },
                Err(err) => {
                    &&& err == EcsError::InvalidVariable
                    &&& !(0 <= (var_id as int) && (var_id as int) < old(self).spec_vars().len())
                    &&& final(self).spec_vars() == old(self).spec_vars()
                },
            },
    {
        if var_id < 0 {
            return Err(EcsError::InvalidVariable);
        }
        let j = var_id as usize;
        if j >= self.vars.len() {
            return Err(EcsError::InvalidVariable);
        }
        self.vars[j] = Some(value);
        Ok(())
    }

    /// The tables this handle currently yields: the snapshot, restricted to
    /// the selected group when one is set.
    pub fn matched_tables(&self, w: &World) -> (out: Vec<usize>)
        requires
            w.wf(),
            forall|k: int|
                0 <= k < self.spec_tables().len() ==> (#[trigger] self.spec_tables()[k] as int)
                    < w.n_tables(),
        ensures
            forall|t: usize|
                out@.contains(t) <==> (self.spec_tables().contains(t) && (match self.spec_group_filter() {
                    Some(g) => w.table_group(t as int) == g,
                    None => true,
                })),
    {
        let mut out: Vec<usize> = Vec::new();
        let mut k: usize = 0;
        let n = self.tables.len();
        while k < n
            invariant
                w.wf(),
                n == self.tables@.len(),
                k <= n,
                forall|kk: int|
                    0 <= kk < self.spec_tables().len() ==> (#[trigger] self.spec_tables()[kk] as int)
                        < w.n_tables(),
                forall|t: usize|
                    out@.contains(t) <==> (self.tables@.take(k as int).contains(t) && (match self.group_filter {
                        Some(g) => w.table_group(t as int) == g,
                        None => true,
                    })),
            decreases n - k,
        {
            let t = self.tables[k];
            proof {
                assert(t == self.spec_tables()[k as int]);
                assert((self.spec_tables()[k as int] as int) < w.n_tables());
            }
            let keep = match self.group_filter {
                Some(g) => w.group_of_table(t) == g,
                None => true,
            };
            let ghost before = out@;
            if keep {
                out.push(t);
            }
            proof {
                assert(self.tables@.take(k + 1).drop_last() =~= self.tables@.take(k as int));
                assert forall|t2: usize|
                    out@.contains(t2) <==> (self.tables@.take(k + 1).contains(t2) && (match self.group_filter {
                        Some(g) => w.table_group(t2 as int) == g,
                        None => true,
                    })) by {
                    if out@.contains(t2) {
                        let kk = choose|kk: int| 0 <= kk < out@.len() && out@[kk] == t2;
                        if kk < before.len() {
                            assert(before[kk] == t2);
                            assert(before.contains(t2));
                            let w2 = choose|w2: int|
                                0 <= w2 < k && #[trigger] self.tables@.take(k as int)[w2] == t2;
                            assert(self.tables@.take(k + 1)[w2] == t2);
                        } else {
                            assert(t2 == t);
                            assert(self.tables@.take(k + 1)[k as int] == t2);
                        }
                    }
                    if self.tables@.take(k + 1).contains(t2) && (match self.group_filter {
                        Some(g) => w.table_group(t2 as int) == g,
                        None => true,
                    }) {
                        let kk = choose|kk: int|
                            0 <= kk < k + 1 && #[trigger] self.tables@.take(k + 1)[kk] == t2;
                        if kk < k {
                            assert(self.tables@.take(k as int)[kk] == t2);
                            assert(self.tables@.take(k as int).contains(t2));
                            assert(before.contains(t2));
                            let w3 = choose|w3: int| 0 <= w3 < before.len() && before[w3] == t2;
                            assert(out@[w3] == t2);
                        } else {
                            assert(t2 == t);
                            assert(out@[out@.len() - 1] == t2);
                        }
                    }
                }
            }
            k += 1;
        }
        proof {
            assert(self.tables@.take(self.tables@.len() as int) =~= self.tables@);
        }
        out
    }

    /// The rows of table `t` this handle yields: the table's entities,
    /// narrowed to those every bound variable names.
    pub fn rows(&self, w: &World, t: usize) -> (out: Vec<Entity>)
        requires
            w.wf(),
            (t as int) < w.n_tables(),
        ensures
            forall|e: Entity|
                out@.contains(e) <==> (w.spec_alive(e) && w.table_of(e) == t as int
                    && self.vars_allow(e)),
    {
        let all = w.table_entities(t);
        let mut out: Vec<Entity> = Vec::new();
        let mut k: usize = 0;
        let n = all.len();
        while k < n
            invariant
                n == all@.len(),
                k <= n,
                forall|e: Entity| #![all_triggers]
                    all@.contains(e) <==> (w.spec_alive(e) && w.table_of(e) == t as int),
                forall|e: Entity| #![all_triggers]
                    out@.contains(e) <==> (all@.take(k as int).contains(e) && self.vars_allow(e)),
            decreases n - k,
        {
            let e = all[k];
            let mut ok = true;
            let mut j: usize = 0;
            let nv = self.vars.len();
            while j < nv
                invariant
                    nv == self.vars@.len(),
                    j <= nv,
                    ok <==> (forall|jj: int|
                        0 <= jj < j ==> ((#[trigger] self.vars@[jj]) matches Some(x) ==> x == e)),
                decreases nv - j,
            {
                match self.vars[j] {
                    Some(x) => {
                        if !(x == e) {
                            ok = false;
                        }
                    },
                    None => {},
                }
                j += 1;
            }
            let ghost before = out@;
            if ok {
                out.push(e);
            }
            proof {
                assert(all@.take(k + 1).drop_last() =~= all@.take(k as int));
                assert forall|e2: Entity| #![all_triggers]
                    out@.contains(e2) <==> (all@.take(k + 1).contains(e2) && self.vars_allow(
                        e2,
                    )) by {
                    if out@.contains(e2) {
                        let kk = choose|kk: int| 0 <= kk < out@.len() && out@[kk] == e2;
                        if kk < before.len() {
                            assert(before[kk] == e2);
                            assert(before.contains(e2));
                            let tk = all@.take(k as int);
                            assert(tk.len() == k as int);
                            let w2 = choose|w2: int| 0 <= w2 < tk.len() && tk[w2] == e2;
                            assert(all@.take(k + 1)[w2] == e2);
                            assert(all@.take(k + 1).contains(e2));
                        } else {
                            assert(e2 == e);
                            assert(all@.take(k + 1)[k as int] == e2);
                        }
                    }
                    if all@.take(k + 1).contains(e2) && self.vars_allow(e2) {
                        let tk1 = all@.take(k + 1);
                        assert(tk1.len() == k + 1);
                        let kk = choose|kk: int| 0 <= kk < tk1.len() && tk1[kk] == e2;
                        if kk < k {
                            assert(all@.take(k as int)[kk] == e2);
                            assert(all@.take(k as int).contains(e2));
                            assert(before.contains(e2));
                            let w3 = choose|w3: int| 0 <= w3 < before.len() && before[w3] == e2;
                            assert(out@[w3] == e2);
                            assert(out@.contains(e2));
                        } else {
                            assert(e2 == e);
                            assert(ok);
                            assert(out@[out@.len() - 1] == e2);
                        }
                    }
                }
            }
            k += 1;
        }
        proof {
            assert(all@.take(all@.len() as int) =~= all@);
            assert forall|e2: Entity|
                out@.contains(e2) <==> (w.spec_alive(e2) && w.table_of(e2) == t as int
                    && self.vars_allow(e2)) by {
                if out@.contains(e2) {
                    assert(all@.contains(e2));
                }
                if w.spec_alive(e2) && w.table_of(e2) == t as int && self.vars_allow(e2) {
                    assert(all@.contains(e2));
                }
            }
        }
        out
    }
}

} // verus!
