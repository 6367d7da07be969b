//! The cell store, the dependency tracker and the effect scheduler.
//!
//! Cells are numbered in creation order, computations too; each is owned by
//! a scope of the runtime's scope tree and dies with it. A computation is
//! either derived (its value is recomputed lazily, when read while dirty) or
//! an effect (re-run by the drain pass that ends each handler invocation).
//! Effects compute what the view shows and never write cells, so one sweep in
//! creation order settles a drain pass.

use vstd::prelude::*;
use crate::context::{ScopeTree, ScopeTreeView};
use crate::error::ReactiveError;
use crate::expr::{
    Expr, cells_below, eval, reads, evaluate, check_cells_below, lemma_reads_below,
    lemma_unread_frame, lemma_extend_frame,
};

verus! {

/// The state of a runtime as plain values; entry `i` of each cell sequence
/// belongs to cell `i`, entry `i` of each computation sequence to
/// computation `i`. The dependencies of a computation are the cells its
/// last run read, in order; a cell read twice is listed twice, which marks
/// it no differently than once.
pub struct RuntimeView {
    pub scopes: ScopeTreeView,
    pub owners: Seq<usize>,
    pub comp_owners: Seq<usize>,
    pub values: Seq<i64>,
    pub versions: Seq<u64>,
    pub alive: Seq<bool>,
    pub exprs: Seq<Expr>,
    pub deps: Seq<Seq<usize>>,
    pub outputs: Seq<i64>,
    pub dirty: Seq<bool>,
    pub runs: Seq<u64>,
    pub effect: Seq<bool>,
    pub drains: u64,
}

/// A reactive runtime: an independent instance of the engine.
pub struct Runtime {
    scopes: ScopeTree,
    owners: Vec<usize>,
    comp_owners: Vec<usize>,
    values: Vec<i64>,
    versions: Vec<u64>,
    alive: Vec<bool>,
    exprs: Vec<Expr>,
    deps: Vec<Vec<usize>>,
    outputs: Vec<i64>,
    dirty: Vec<bool>,
    runs: Vec<u64>,
    effect: Vec<bool>,
    drains: u64,
}

impl View for Runtime {
    type V = RuntimeView;

    closed spec fn view(&self) -> RuntimeView {
        RuntimeView {
            scopes: self.scopes@,
            owners: self.owners@,
            comp_owners: self.comp_owners@,
            values: self.values@,
            versions: self.versions@,
            alive: self.alive@,
            exprs: self.exprs@,
            deps: self.deps@.map_values(|d: Vec<usize>| d@),
            outputs: self.outputs@,
            dirty: self.dirty@,
            runs: self.runs@,
            effect: self.effect@,
            drains: self.drains,
        }
    }
}

impl RuntimeView {
    /// The number of cells created so far.
    pub open spec fn n_cells(self) -> nat {
        self.values.len()
    }

    /// The number of computations created so far.
    pub open spec fn n_comps(self) -> nat {
        self.exprs.len()
    }

    /// The scope that owns computation `i` was not disposed.
    pub open spec fn comp_live(self, i: int) -> bool {
        !self.scopes.disposed[self.comp_owners[i] as int]
    }

    /// The cell exists and has not been disposed, alone or with its scope.
    pub open spec fn live_cell(self, c: usize) -> bool {
        c < self.n_cells() && self.alive[c as int]
    }

    /// The lengths that disposal relies on.
    pub open spec fn wf_lengths(self) -> bool {
        &&& self.scopes.wf()
        &&& self.owners.len() == self.n_cells()
        &&& self.alive.len() == self.n_cells()
        &&& forall|c: int| 0 <= c < self.n_cells() ==> #[trigger] self.owners[c] < self.scopes.len()
    }

    /// The scope tree is well formed, each cell is owned by an existing scope
    /// and is dead once that scope is disposed, the cell sequences agree in
    /// length, every computation reads and depends on existing cells only,
    /// and a computation that is not dirty is up to date.
    pub open spec fn wf(self) -> bool {
        &&& self.scopes.wf()
        &&& self.owners.len() == self.n_cells()
        &&& forall|c: int| 0 <= c < self.n_cells() ==> #[trigger] self.owners[c] < self.scopes.len()
        &&& forall|c: int| 0 <= c < self.n_cells() && #[trigger] self.alive[c] ==> !self.scopes.disposed[self.owners[c] as int]
        &&& self.versions.len() == self.n_cells()
        &&& self.alive.len() == self.n_cells()
        &&& self.comp_owners.len() == self.n_comps()
        &&& forall|i: int| 0 <= i < self.n_comps() ==> #[trigger] self.comp_owners[i] < self.scopes.len()
        &&& self.deps.len() == self.n_comps()
        &&& self.outputs.len() == self.n_comps()
        &&& self.dirty.len() == self.n_comps()
        &&& self.runs.len() == self.n_comps()
        &&& self.effect.len() == self.n_comps()
        &&& forall|i: int| 0 <= i < self.n_comps() ==> cells_below(#[trigger] self.exprs[i], self.n_cells())
        &&& forall|i: int, k: int| 0 <= i < self.n_comps() && 0 <= k < self.deps[i].len()
            ==> #[trigger] self.deps[i][k] < self.n_cells()
        &&& forall|i: int| 0 <= i < self.n_comps() && !#[trigger] self.dirty[i] ==> self.settled(i)
    }

    /// Computation `i` was run (at some point) and is up to date with the
    /// current cell values: its dependencies are exactly the cells it reads
    /// now, and its output is its value now.
    pub open spec fn settled(self, i: int) -> bool {
        &&& !self.dirty[i]
        &&& self.deps[i] == reads(self.exprs[i], self.values)
        &&& self.outputs[i] == eval(self.exprs[i], self.values)
    }
}

proof fn lemma_cells_below_mono(e: Expr, m: nat, n: nat)
    requires
        cells_below(e, m),
        m <= n,
    ensures
        cells_below(e, n),
    decreases e,
{
    match e {
        Expr::Lit(_) => {},
        Expr::Read(_) => {},
        Expr::Add(a, b) => {
            lemma_cells_below_mono(*a, m, n);
            lemma_cells_below_mono(*b, m, n);
        },
        Expr::Equal(a, b) => {
            lemma_cells_below_mono(*a, m, n);
            lemma_cells_below_mono(*b, m, n);
        },
        Expr::Odd(a) => {
            lemma_cells_below_mono(*a, m, n);
        },
        Expr::Select(c, t, f) => {
            lemma_cells_below_mono(*c, m, n);
            lemma_cells_below_mono(*t, m, n);
            lemma_cells_below_mono(*f, m, n);
        },
    }
}

/// The cell values after the first `k` writes of `ws`.
pub open spec fn values_after(vals: Seq<i64>, ws: Seq<(usize, i64)>, k: nat) -> Seq<i64>
    decreases k,
{
    if k == 0 {
        vals
    } else {
        let prev = values_after(vals, ws, (k - 1) as nat);
        prev.update(ws[k - 1].0 as int, ws[k - 1].1)
    }
}

/// Write `k` of `ws` changes the value of its cell.
pub open spec fn changes(vals: Seq<i64>, ws: Seq<(usize, i64)>, k: int) -> bool {
    values_after(vals, ws, k as nat)[ws[k].0 as int] != ws[k].1
}

/// Some write among the first `k` of `ws` changes a cell in `deps`.
pub open spec fn touches(vals: Seq<i64>, ws: Seq<(usize, i64)>, k: nat, deps: Seq<usize>) -> bool {
    exists|j: int| 0 <= j < k && #[trigger] changes(vals, ws, j) && deps.contains(ws[j].0)
}

/// Every write of `ws` goes to a live cell.
pub open spec fn writes_valid(v: RuntimeView, ws: Seq<(usize, i64)>) -> bool {
    forall|j: int| 0 <= j < ws.len() ==> v.live_cell(#[trigger] ws[j].0)
}

/// How many of the first `k` writes of `ws` change the value of cell `c`.
pub open spec fn change_count(vals: Seq<i64>, ws: Seq<(usize, i64)>, k: nat, c: usize) -> nat
    decreases k,
{
    if k == 0 {
        0
    } else {
        change_count(vals, ws, (k - 1) as nat, c) + if ws[k - 1].0 == c && changes(vals, ws, k - 1) {
            1nat
        } else {
            0nat
        }
    }
}

/// The error for a write to cell `c`, which is not live.
pub open spec fn write_error(v: RuntimeView, c: usize) -> ReactiveError {
    if c >= v.n_cells() {
        ReactiveError::UnknownCell
    } else {
        ReactiveError::DisposedAccess
    }
}

/// Computation `i` is due to run after the writes `ws`: it was dirty before,
/// or one of the writes changed a cell it depends on.
pub open spec fn due(v: RuntimeView, ws: Seq<(usize, i64)>, i: int) -> bool {
    v.dirty[i] || touches(v.values, ws, ws.len(), v.deps[i])
}

/// The machine limits a handler needs: no counter it bumps can overflow.
pub open spec fn handler_fits(v: RuntimeView, ws: Seq<(usize, i64)>) -> bool {
    &&& v.drains < u64::MAX
    &&& forall|i: int| 0 <= i < v.n_comps() && #[trigger] v.effect[i] ==> v.runs[i] < u64::MAX
    &&& forall|j: int| 0 <= j < ws.len() ==> v.versions[#[trigger] ws[j].0 as int] + ws.len() <= u64::MAX
}

/// The state after a handler that made the valid writes `ws` to `v`: cell
/// values and versions follow the writes, each due effect of a live scope
/// has run exactly once (and is now up to date), every other due
/// computation is dirty and has not run, and one more drain pass has
/// happened.
pub open spec fn after_handler(v: RuntimeView, ws: Seq<(usize, i64)>, w: RuntimeView) -> bool {
    &&& w.wf()
    &&& w.values == values_after(v.values, ws, ws.len())
    &&& w.versions.len() == v.versions.len()
    &&& forall|c: usize| c < v.n_cells() ==> #[trigger] w.versions[c as int] == v.versions[c as int]
        + change_count(v.values, ws, ws.len(), c)
    &&& w.alive == v.alive
    &&& w.scopes == v.scopes
    &&& w.owners == v.owners
    &&& w.comp_owners == v.comp_owners
    &&& w.exprs == v.exprs
    &&& w.effect == v.effect
    &&& w.drains == v.drains + 1
    &&& forall|i: int| 0 <= i < v.n_comps() && #[trigger] v.effect[i] && v.comp_live(i) ==> {
        &&& w.runs[i] == v.runs[i] + if due(v, ws, i) { 1int } else { 0int }
        &&& w.settled(i)
    }
    &&& forall|i: int| 0 <= i < v.n_comps() && !(#[trigger] v.effect[i] && v.comp_live(i)) ==> {
        &&& w.runs[i] == v.runs[i]
        &&& w.dirty[i] == due(v, ws, i)
        &&& w.deps[i] == v.deps[i]
        &&& w.outputs[i] == v.outputs[i]
    }
}

/// During a drain pass over `mid`, with computations below `i` done:
/// computation `j` has run once if it is a dirty effect of a live scope
/// below `i`, and is
/// untouched otherwise.
spec fn drained(mid: RuntimeView, w: RuntimeView, i: int, j: int) -> bool {
    if j < i && mid.effect[j] && mid.comp_live(j) && mid.dirty[j] {
        &&& w.runs[j] == mid.runs[j] + 1
        &&& w.settled(j)
    } else {
        &&& w.runs[j] == mid.runs[j]
        &&& w.dirty[j] == mid.dirty[j]
        &&& w.deps[j] == mid.deps[j]
        &&& w.outputs[j] == mid.outputs[j]
    }
}

proof fn lemma_change_count_le(vals: Seq<i64>, ws: Seq<(usize, i64)>, k: nat, c: usize)
    ensures
        change_count(vals, ws, k, c) <= k,
    decreases k,
{
    if k > 0 {
        lemma_change_count_le(vals, ws, (k - 1) as nat, c);
    }
}

proof fn lemma_frame_writes(e: Expr, vals: Seq<i64>, ws: Seq<(usize, i64)>, k: nat)
    requires
        cells_below(e, vals.len()),
        k <= ws.len(),
        forall|j: int| 0 <= j < ws.len() ==> (#[trigger] ws[j].0) < vals.len(),
        forall|j: int| 0 <= j < ws.len() ==> !reads(e, vals).contains(#[trigger] ws[j].0),
    ensures
        values_after(vals, ws, k).len() == vals.len(),
        eval(e, values_after(vals, ws, k)) == eval(e, vals),
        reads(e, values_after(vals, ws, k)) == reads(e, vals),
    decreases k,
{
    if k > 0 {
        let km = (k - 1) as nat;
        lemma_frame_writes(e, vals, ws, km);
        let prev = values_after(vals, ws, km);
        assert(ws[km as int].0 < vals.len());
        assert(!reads(e, vals).contains(ws[km as int].0));
        lemma_unread_frame(e, prev, ws[km as int].0, ws[km as int].1);
    }
}

/// No spurious invalidation: when no write of a handler goes to a cell that
/// an up-to-date computation depends on, the handler neither runs it nor
/// marks it dirty, and its output stays as it was.
pub proof fn law_no_spurious_rerun(v: RuntimeView, ws: Seq<(usize, i64)>, w: RuntimeView, i: int)
    requires
        v.wf(),
        writes_valid(v, ws),
        after_handler(v, ws, w),
        0 <= i < v.n_comps(),
        !v.dirty[i],
        forall|j: int| 0 <= j < ws.len() ==> !v.deps[i].contains(#[trigger] ws[j].0),
    ensures
        w.runs[i] == v.runs[i],
        !w.dirty[i],
        w.outputs[i] == v.outputs[i],
{
    assert(!touches(v.values, ws, ws.len(), v.deps[i]));
    assert(!due(v, ws, i));
    assert(v.settled(i));
    assert(cells_below(v.exprs[i], v.n_cells()));
    assert forall|j: int| 0 <= j < ws.len() implies (#[trigger] ws[j].0) < v.values.len() by {
        assert(v.live_cell(ws[j].0));
    }
    lemma_frame_writes(v.exprs[i], v.values, ws, ws.len());
    if v.effect[i] && v.comp_live(i) {
        assert(w.settled(i));
    } else {
        assert(w.dirty[i] == due(v, ws, i));
    }
}

fn holds(xs: &Vec<usize>, c: usize) -> (r: bool)
    ensures
        r == xs@.contains(c),
{
    let mut i: usize = 0;
    while i < xs.len()
        invariant
            i <= xs@.len(),
            forall|k: int| 0 <= k < i ==> xs@[k] != c,
        decreases xs@.len() - i,
    {
        if xs[i] == c {
            return true;
        }
        i = i + 1;
    }
    false
}

impl Runtime {
    /// An empty runtime.
    pub fn new() -> (r: Runtime)
        ensures
            r@.wf(),
            r@.scopes.parents == seq![None::<usize>],
            r@.scopes.entries == seq![Seq::<(u64, i64)>::empty()],
            r@.scopes.disposed == seq![false],
            r@.n_cells() == 0,
            r@.n_comps() == 0,
            r@.drains == 0,
    {
        Runtime {
            scopes: ScopeTree::new(),
            owners: Vec::new(),
            comp_owners: Vec::new(),
            values: Vec::new(),
            versions: Vec::new(),
            alive: Vec::new(),
            exprs: Vec::new(),
            deps: Vec::new(),
            outputs: Vec::new(),
            dirty: Vec::new(),
            runs: Vec::new(),
            effect: Vec::new(),
            drains: 0,
        }
    }

    /// Creates a live cell owned by scope `scope`, holding `init` at
    /// version 0, and returns its id. Fails when the scope is not live.
    pub fn create_cell(&mut self, scope: usize, init: i64) -> (r: Result<usize, ReactiveError>)
        requires
            old(self)@.wf(),
        ensures
            final(self)@.wf(),
            !old(self)@.scopes.live(scope) ==> r == Err::<usize, ReactiveError>(old(self)@.scopes.scope_error(scope))
                && final(self)@ == old(self)@,
            old(self)@.scopes.live(scope) ==> r == Ok::<usize, ReactiveError>(old(self)@.n_cells() as usize)
                && final(self)@ == (RuntimeView {
                owners: old(self)@.owners.push(scope),
                values: old(self)@.values.push(init),
                versions: old(self)@.versions.push(0),
                alive: old(self)@.alive.push(true),
                ..old(self)@
            }),
    {
        if scope >= self.scopes.len() {
            return Err(ReactiveError::UnknownScope);
        }
        if !self.scopes.is_live(scope) {
            return Err(ReactiveError::DisposedAccess);
        }
        let r = self.values.len();
        self.owners.push(scope);
        self.values.push(init);
        self.versions.push(0);
        self.alive.push(true);
        proof {
            let v = self@;
            assert forall|i: int| 0 <= i < v.n_comps() implies cells_below(#[trigger] v.exprs[i], v.n_cells()) by {
                lemma_cells_below_mono(v.exprs[i], old(self)@.n_cells(), v.n_cells());
            }
            assert forall|i: int| 0 <= i < v.n_comps() && !#[trigger] v.dirty[i] implies v.settled(i) by {
                lemma_extend_frame(v.exprs[i], old(self)@.values, init);
            }
            assert(v =~= RuntimeView {
                owners: old(self)@.owners.push(scope),
                values: old(self)@.values.push(init),
                versions: old(self)@.versions.push(0),
                alive: old(self)@.alive.push(true),
                ..old(self)@
            });
        }
        Ok(r)
    }

    /// Creates a child scope of `parent` and returns its id.
    pub fn create_scope(&mut self, parent: usize) -> (r: Result<usize, ReactiveError>)
        requires
            old(self)@.wf(),
        ensures
            final(self)@.wf(),
            !old(self)@.scopes.live(parent) ==> r == Err::<usize, ReactiveError>(old(self)@.scopes.scope_error(parent))
                && final(self)@ == old(self)@,
            old(self)@.scopes.live(parent) ==> r == Ok::<usize, ReactiveError>(old(self)@.scopes.len() as usize)
                && final(self)@ == (RuntimeView {
                scopes: ScopeTreeView {
                    parents: old(self)@.scopes.parents.push(Some(parent)),
                    entries: old(self)@.scopes.entries.push(Seq::empty()),
                    disposed: old(self)@.scopes.disposed.push(false),
                },
                ..old(self)@
            }),
    {
        let r = self.scopes.create_child(parent);
        proof {
            let v = self@;
            assert forall|c: int| 0 <= c < v.n_cells() && #[trigger] v.alive[c] implies !v.scopes.disposed[v.owners[c] as int] by {
                assert(old(self)@.owners[c] < old(self)@.scopes.len());
            }
        }
        r
    }

    /// Stores `value` under `key` at scope `s`.
    pub fn provide(&mut self, s: usize, key: u64, value: i64) -> (r: Result<(), ReactiveError>)
        requires
            old(self)@.wf(),
        ensures
            final(self)@.wf(),
            !old(self)@.scopes.live(s) ==> r == Err::<(), ReactiveError>(old(self)@.scopes.scope_error(s))
                && final(self)@ == old(self)@,
            old(self)@.scopes.live(s) ==> r == Ok::<(), ReactiveError>(()) && final(self)@ == (RuntimeView {
                scopes: ScopeTreeView {
                    entries: old(self)@.scopes.entries.update(
                        s as int,
                        old(self)@.scopes.entries[s as int].push((key, value)),
                    ),
                    ..old(self)@.scopes
                },
                ..old(self)@
            }),
    {
        self.scopes.provide(s, key, value)
    }

    /// Looks `key` up from scope `s`, walking up through its ancestors.
    pub fn consume(&self, s: usize, key: u64) -> (r: Result<i64, ReactiveError>)
        requires
            self@.wf(),
        ensures
            !self@.scopes.live(s) ==> r == Err::<i64, ReactiveError>(self@.scopes.scope_error(s)),
            self@.scopes.live(s) && self@.scopes.lookup(s as nat, key) is None ==> r == Err::<i64, ReactiveError>(
                ReactiveError::ContextNotFound,
            ),
            self@.scopes.live(s) && self@.scopes.lookup(s as nat, key) is Some ==> r == Ok::<i64, ReactiveError>(
                self@.scopes.lookup(s as nat, key)->Some_0,
            ),
    {
        self.scopes.consume(s, key)
    }

    /// Disposes scope `s` and every scope below it; the cells they own die
    /// with them.
    pub fn dispose_scope(&mut self, s: usize) -> (r: Result<(), ReactiveError>)
        requires
            old(self)@.wf(),
        ensures
            final(self)@.wf(),
            s >= old(self)@.scopes.len() ==> r == Err::<(), ReactiveError>(ReactiveError::UnknownScope)
                && final(self)@ == old(self)@,
            s < old(self)@.scopes.len() ==> r == Ok::<(), ReactiveError>(()) && final(self)@ == (RuntimeView {
                scopes: ScopeTreeView {
                    disposed: Seq::new(
                        old(self)@.scopes.len(),
                        |j: int| old(self)@.scopes.disposed[j] || old(self)@.scopes.is_ancestor(s as nat, j as nat),
                    ),
                    ..old(self)@.scopes
                },
                alive: Seq::new(
                    old(self)@.n_cells(),
                    |c: int| old(self)@.alive[c] && !old(self)@.scopes.is_ancestor(s as nat, old(self)@.owners[c] as nat),
                ),
                ..old(self)@
            }),
    {
        if s >= self.scopes.len() {
            return Err(ReactiveError::UnknownScope);
        }
        let _ = self.scopes.dispose(s);
        let ghost mid = self@;
        let mut na: Vec<bool> = Vec::new();
        let mut c: usize = 0;
        while c < self.values.len()
            invariant
                self@ == mid,
                mid.wf_lengths(),
                c <= mid.n_cells(),
                na@.len() == c,
                forall|k: int| 0 <= k < c ==> #[trigger] na@[k] == (mid.alive[k] && !mid.scopes.disposed[mid.owners[k] as int]),
            decreases mid.n_cells() - c,
        {
            let live = self.alive[c] && self.scopes.is_live(self.owners[c]);
            na.push(live);
            c = c + 1;
        }
        self.alive = na;
        proof {
            let v = self@;
            let o = old(self)@;
            assert(v.alive =~= Seq::new(
                o.n_cells(),
                |c: int| o.alive[c] && !o.scopes.is_ancestor(s as nat, o.owners[c] as nat),
            ));
        }
        Ok(())
    }

    /// The current value of a live cell.
    pub fn read(&self, c: usize) -> (r: Result<i64, ReactiveError>)
        requires
            self@.wf(),
        ensures
            c >= self@.n_cells() ==> r == Err::<i64, ReactiveError>(ReactiveError::UnknownCell),
            c < self@.n_cells() && !self@.alive[c as int] ==> r == Err::<i64, ReactiveError>(
                ReactiveError::DisposedAccess,
            ),
            self@.live_cell(c) ==> r == Ok::<i64, ReactiveError>(self@.values[c as int]),
    {
        if c >= self.values.len() {
            Err(ReactiveError::UnknownCell)
        } else if !self.alive[c] {
            Err(ReactiveError::DisposedAccess)
        } else {
            Ok(self.values[c])
        }
    }

    /// The version of a live cell: how many writes have changed its value.
    pub fn version(&self, c: usize) -> (r: Result<u64, ReactiveError>)
        requires
            self@.wf(),
        ensures
            c >= self@.n_cells() ==> r == Err::<u64, ReactiveError>(ReactiveError::UnknownCell),
            c < self@.n_cells() && !self@.alive[c as int] ==> r == Err::<u64, ReactiveError>(
                ReactiveError::DisposedAccess,
            ),
            self@.live_cell(c) ==> r == Ok::<u64, ReactiveError>(self@.versions[c as int]),
    {
        if c >= self.values.len() {
            Err(ReactiveError::UnknownCell)
        } else if !self.alive[c] {
            Err(ReactiveError::DisposedAccess)
        } else {
            Ok(self.versions[c])
        }
    }

    /// Disposes a cell: later reads and writes of it fail.
    pub fn dispose_cell(&mut self, c: usize) -> (r: Result<(), ReactiveError>)
        requires
            old(self)@.wf(),
        ensures
            final(self)@.wf(),
            c >= old(self)@.n_cells() ==> r == Err::<(), ReactiveError>(ReactiveError::UnknownCell)
                && final(self)@ == old(self)@,
            c < old(self)@.n_cells() ==> r == Ok::<(), ReactiveError>(())
                && final(self)@ == (RuntimeView { alive: old(self)@.alive.update(c as int, false), ..old(self)@ }),
    {
        if c >= self.values.len() {
            return Err(ReactiveError::UnknownCell);
        }
        self.alive.set(c, false);
        proof {
            assert(self@ =~= RuntimeView { alive: old(self)@.alive.update(c as int, false), ..old(self)@ });
        }
        Ok(())
    }

    /// Writes `x` to a live cell. When the value changes, the version goes up
    /// by one and exactly the computations that depend on the cell are marked
    /// dirty; nothing else changes. Returns whether the value changed.
    pub fn write(&mut self, c: usize, x: i64) -> (r: Result<bool, ReactiveError>)
        requires
            old(self)@.wf(),
            old(self)@.live_cell(c) ==> old(self)@.versions[c as int] < u64::MAX,
        ensures
            final(self)@.wf(),
            c >= old(self)@.n_cells() ==> r == Err::<bool, ReactiveError>(ReactiveError::UnknownCell)
                && final(self)@ == old(self)@,
            c < old(self)@.n_cells() && !old(self)@.alive[c as int] ==> r == Err::<bool, ReactiveError>(
                ReactiveError::DisposedAccess,
            ) && final(self)@ == old(self)@,
            old(self)@.live_cell(c) && old(self)@.values[c as int] == x ==> r == Ok::<bool, ReactiveError>(false)
                && final(self)@ == old(self)@,
            old(self)@.live_cell(c) && old(self)@.values[c as int] != x ==> r == Ok::<bool, ReactiveError>(true)
                && final(self)@ == (RuntimeView {
                values: old(self)@.values.update(c as int, x),
                versions: old(self)@.versions.update(c as int, (old(self)@.versions[c as int] + 1) as u64),
                dirty: Seq::new(
                    old(self)@.n_comps(),
                    |i: int| old(self)@.dirty[i] || old(self)@.deps[i].contains(c),
                ),
                ..old(self)@
            }),
    {
        if c >= self.values.len() {
            return Err(ReactiveError::UnknownCell);
        }
        if !self.alive[c] {
            return Err(ReactiveError::DisposedAccess);
        }
        if self.values[c] == x {
            return Ok(false);
        }
        self.values.set(c, x);
        let nv = self.versions[c] + 1;
        self.versions.set(c, nv);
        let ghost mid = self@;
        let mut nd: Vec<bool> = Vec::new();
        let mut i: usize = 0;
        while i < self.exprs.len()
            invariant
                mid.deps.len() == mid.n_comps(),
                mid.dirty.len() == mid.n_comps(),
                self@ == mid,
                i <= mid.n_comps(),
                nd@.len() == i,
                forall|k: int| 0 <= k < i ==> nd@[k] == (mid.dirty[k] || mid.deps[k].contains(c)),
            decreases mid.n_comps() - i,
        {
            proof {
                assert(mid.deps[i as int] == self.deps@[i as int]@);
            }
            let hit = holds(&self.deps[i], c);
            nd.push(self.dirty[i] || hit);
            i = i + 1;
        }
        self.dirty = nd;
        proof {
            let v = self@;
            assert forall|k: int| 0 <= k < v.n_comps() && !#[trigger] v.dirty[k] implies v.settled(k) by {
                assert(!mid.deps[k].contains(c));
                assert(old(self)@.settled(k));
                lemma_unread_frame(v.exprs[k], old(self)@.values, c, x);
            }
            assert(self@.dirty =~= Seq::new(
                old(self)@.n_comps(),
                |i: int| old(self)@.dirty[i] || old(self)@.deps[i].contains(c),
            ));
        }
        Ok(true)
    }

    /// Runs computation `i` now: its dependencies become exactly the cells
    /// this run reads, and its output the value computed.
    fn run(&mut self, i: usize)
        requires
            old(self)@.wf(),
            i < old(self)@.n_comps(),
            old(self)@.runs[i as int] < u64::MAX,
        ensures
            final(self)@.wf(),
            final(self)@ == (RuntimeView {
                deps: old(self)@.deps.update(i as int, reads(old(self)@.exprs[i as int], old(self)@.values)),
                outputs: old(self)@.outputs.update(i as int, eval(old(self)@.exprs[i as int], old(self)@.values)),
                dirty: old(self)@.dirty.update(i as int, false),
                runs: old(self)@.runs.update(i as int, (old(self)@.runs[i as int] + 1) as u64),
                ..old(self)@
            }),
    {
        let mut log: Vec<usize> = Vec::new();
        proof {
            assert(cells_below(self@.exprs[i as int], self@.n_cells()));
        }
        let v = evaluate(&self.exprs[i], &self.values, &mut log);
        proof {
            assert(log@ =~= reads(old(self)@.exprs[i as int], old(self)@.values));
            lemma_reads_below(old(self)@.exprs[i as int], old(self)@.values, old(self)@.n_cells());
        }
        self.deps.set(i, log);
        self.outputs.set(i, v);
        self.dirty.set(i, false);
        let n = self.runs[i] + 1;
        self.runs.set(i, n);
        proof {
            assert(self@.deps =~= old(self)@.deps.update(i as int, reads(old(self)@.exprs[i as int], old(self)@.values)));
            assert(self@ =~= RuntimeView {
                deps: old(self)@.deps.update(i as int, reads(old(self)@.exprs[i as int], old(self)@.values)),
                outputs: old(self)@.outputs.update(i as int, eval(old(self)@.exprs[i as int], old(self)@.values)),
                dirty: old(self)@.dirty.update(i as int, false),
                runs: old(self)@.runs.update(i as int, (old(self)@.runs[i as int] + 1) as u64),
                ..old(self)@
            });
            let w = self@;
            assert forall|j: int, k: int| 0 <= j < w.n_comps() && 0 <= k < w.deps[j].len()
                implies #[trigger] w.deps[j][k] < w.n_cells() by {
                if j != i {
                    assert(w.deps[j] == old(self)@.deps[j]);
                }
            }
            assert forall|j: int| 0 <= j < w.n_comps() && !#[trigger] w.dirty[j] implies w.settled(j) by {
                if j != i {
                    assert(old(self)@.settled(j));
                }
            }
        }
    }

    fn create_computation(&mut self, scope: usize, e: Expr, is_effect: bool) -> (r: Result<usize, ReactiveError>)
        requires
            old(self)@.wf(),
        ensures
            final(self)@.wf(),
            !old(self)@.scopes.live(scope) ==> r == Err::<usize, ReactiveError>(old(self)@.scopes.scope_error(scope))
                && final(self)@ == old(self)@,
            old(self)@.scopes.live(scope) && !cells_below(e, old(self)@.n_cells()) ==> r == Err::<usize, ReactiveError>(ReactiveError::UnknownCell)
                && final(self)@ == old(self)@,
            old(self)@.scopes.live(scope) && cells_below(e, old(self)@.n_cells()) ==> r == Ok::<usize, ReactiveError>(old(self)@.n_comps() as usize)
                && final(self)@ == (RuntimeView {
                comp_owners: old(self)@.comp_owners.push(scope),
                exprs: old(self)@.exprs.push(e),
                deps: old(self)@.deps.push(reads(e, old(self)@.values)),
                outputs: old(self)@.outputs.push(eval(e, old(self)@.values)),
                dirty: old(self)@.dirty.push(false),
                runs: old(self)@.runs.push(1),
                effect: old(self)@.effect.push(is_effect),
                ..old(self)@
            }),
    {
        if scope >= self.scopes.len() {
            return Err(ReactiveError::UnknownScope);
        }
        if !self.scopes.is_live(scope) {
            return Err(ReactiveError::DisposedAccess);
        }
        if !check_cells_below(&e, self.values.len()) {
            return Err(ReactiveError::UnknownCell);
        }
        let mut log: Vec<usize> = Vec::new();
        let v = evaluate(&e, &self.values, &mut log);
        proof {
            assert(log@ =~= reads(e, old(self)@.values));
            lemma_reads_below(e, old(self)@.values, old(self)@.n_cells());
        }
        let r = self.exprs.len();
        self.comp_owners.push(scope);
        self.exprs.push(e);
        self.deps.push(log);
        self.outputs.push(v);
        self.dirty.push(false);
        self.runs.push(1);
        self.effect.push(is_effect);
        proof {
            assert(self@.deps =~= old(self)@.deps.push(reads(e, old(self)@.values)));
            assert(self@ =~= RuntimeView {
                comp_owners: old(self)@.comp_owners.push(scope),
                exprs: old(self)@.exprs.push(e),
                deps: old(self)@.deps.push(reads(e, old(self)@.values)),
                outputs: old(self)@.outputs.push(eval(e, old(self)@.values)),
                dirty: old(self)@.dirty.push(false),
                runs: old(self)@.runs.push(1),
                effect: old(self)@.effect.push(is_effect),
                ..old(self)@
            });
            let w = self@;
            assert forall|j: int| 0 <= j < w.n_comps() implies cells_below(#[trigger] w.exprs[j], w.n_cells()) by {
                if j < r {
                    assert(w.exprs[j] == old(self)@.exprs[j]);
                }
            }
            assert forall|j: int| 0 <= j < w.n_comps() implies #[trigger] w.comp_owners[j] < w.scopes.len() by {
                if j < r {
                    assert(w.comp_owners[j] == old(self)@.comp_owners[j]);
                }
            }
            assert forall|j: int, k: int| 0 <= j < w.n_comps() && 0 <= k < w.deps[j].len()
                implies #[trigger] w.deps[j][k] < w.n_cells() by {
                if j < r {
                    assert(w.deps[j] == old(self)@.deps[j]);
                }
            }
            assert forall|j: int| 0 <= j < w.n_comps() && !#[trigger] w.dirty[j] implies w.settled(j) by {
                if j < r {
                    assert(old(self)@.settled(j));
                }
            }
        }
        Ok(r)
    }

    /// Creates a derived computation of `e`, owned by `scope`, and runs it
    /// once. Fails when the scope is not live or `e` names a cell that does
    /// not exist.
    pub fn create_derived(&mut self, scope: usize, e: Expr) -> (r: Result<usize, ReactiveError>)
        requires
            old(self)@.wf(),
        ensures
            final(self)@.wf(),
            !old(self)@.scopes.live(scope) ==> r == Err::<usize, ReactiveError>(old(self)@.scopes.scope_error(scope))
                && final(self)@ == old(self)@,
            old(self)@.scopes.live(scope) && !cells_below(e, old(self)@.n_cells()) ==> r == Err::<usize, ReactiveError>(ReactiveError::UnknownCell)
                && final(self)@ == old(self)@,
            old(self)@.scopes.live(scope) && cells_below(e, old(self)@.n_cells()) ==> r == Ok::<usize, ReactiveError>(old(self)@.n_comps() as usize)
                && final(self)@ == (RuntimeView {
                comp_owners: old(self)@.comp_owners.push(scope),
                exprs: old(self)@.exprs.push(e),
                deps: old(self)@.deps.push(reads(e, old(self)@.values)),
                outputs: old(self)@.outputs.push(eval(e, old(self)@.values)),
                dirty: old(self)@.dirty.push(false),
                runs: old(self)@.runs.push(1),
                effect: old(self)@.effect.push(false),
                ..old(self)@
            }),
    {
        self.create_computation(scope, e, false)
    }

    /// Creates an effect of `e`, owned by `scope`, and runs it once; later
    /// runs happen in the drain pass of a handler, until the scope is
    /// disposed. Fails when the scope is not live or `e` names a cell that
    /// does not exist.
    pub fn create_effect(&mut self, scope: usize, e: Expr) -> (r: Result<usize, ReactiveError>)
        requires
            old(self)@.wf(),
        ensures
            final(self)@.wf(),
            !old(self)@.scopes.live(scope) ==> r == Err::<usize, ReactiveError>(old(self)@.scopes.scope_error(scope))
                && final(self)@ == old(self)@,
            old(self)@.scopes.live(scope) && !cells_below(e, old(self)@.n_cells()) ==> r == Err::<usize, ReactiveError>(ReactiveError::UnknownCell)
                && final(self)@ == old(self)@,
            old(self)@.scopes.live(scope) && cells_below(e, old(self)@.n_cells()) ==> r == Ok::<usize, ReactiveError>(old(self)@.n_comps() as usize)
                && final(self)@ == (RuntimeView {
                comp_owners: old(self)@.comp_owners.push(scope),
                exprs: old(self)@.exprs.push(e),
                deps: old(self)@.deps.push(reads(e, old(self)@.values)),
                outputs: old(self)@.outputs.push(eval(e, old(self)@.values)),
                dirty: old(self)@.dirty.push(false),
                runs: old(self)@.runs.push(1),
                effect: old(self)@.effect.push(true),
                ..old(self)@
            }),
    {
        self.create_computation(scope, e, true)
    }

    /// Reads a derived computation of a live scope: when dirty it is re-run
    /// first, otherwise its cached value is returned and nothing changes.
    pub fn get(&mut self, i: usize) -> (r: Result<i64, ReactiveError>)
        requires
            old(self)@.wf(),
            i < old(self)@.n_comps() ==> old(self)@.runs[i as int] < u64::MAX,
        ensures
            final(self)@.wf(),
            (i >= old(self)@.n_comps() || old(self)@.effect[i as int]) ==> r == Err::<i64, ReactiveError>(
                ReactiveError::UnknownComputation,
            ) && final(self)@ == old(self)@,
            i < old(self)@.n_comps() && !old(self)@.effect[i as int] && !old(self)@.comp_live(i as int) ==> r
                == Err::<i64, ReactiveError>(ReactiveError::DisposedAccess) && final(self)@ == old(self)@,
            i < old(self)@.n_comps() && !old(self)@.effect[i as int] && old(self)@.comp_live(i as int) ==> {
                &&& r == Ok::<i64, ReactiveError>(eval(old(self)@.exprs[i as int], old(self)@.values))
                &&& final(self)@.settled(i as int)
                &&& old(self)@.dirty[i as int] ==> final(self)@ == (RuntimeView {
                    deps: old(self)@.deps.update(i as int, reads(old(self)@.exprs[i as int], old(self)@.values)),
                    outputs: old(self)@.outputs.update(i as int, eval(old(self)@.exprs[i as int], old(self)@.values)),
                    dirty: old(self)@.dirty.update(i as int, false),
                    runs: old(self)@.runs.update(i as int, (old(self)@.runs[i as int] + 1) as u64),
                    ..old(self)@
                })
                &&& !old(self)@.dirty[i as int] ==> final(self)@ == old(self)@
            },
    {
        if i >= self.exprs.len() || self.effect[i] {
            return Err(ReactiveError::UnknownComputation);
        }
        if !self.scopes.is_live(self.comp_owners[i]) {
            return Err(ReactiveError::DisposedAccess);
        }
        if self.dirty[i] {
            self.run(i);
        }
        Ok(self.outputs[i])
    }

    /// The output of the last run of a computation of a live scope, without
    /// running it.
    pub fn output(&self, i: usize) -> (r: Result<i64, ReactiveError>)
        requires
            self@.wf(),
        ensures
            i >= self@.n_comps() ==> r == Err::<i64, ReactiveError>(ReactiveError::UnknownComputation),
            i < self@.n_comps() && !self@.comp_live(i as int) ==> r == Err::<i64, ReactiveError>(
                ReactiveError::DisposedAccess,
            ),
            i < self@.n_comps() && self@.comp_live(i as int) ==> r == Ok::<i64, ReactiveError>(self@.outputs[i as int]),
    {
        if i >= self.exprs.len() {
            return Err(ReactiveError::UnknownComputation);
        }
        if !self.scopes.is_live(self.comp_owners[i]) {
            return Err(ReactiveError::DisposedAccess);
        }
        Ok(self.outputs[i])
    }

    /// How many times a computation of a live scope has run.
    pub fn run_count(&self, i: usize) -> (r: Result<u64, ReactiveError>)
        requires
            self@.wf(),
        ensures
            i >= self@.n_comps() ==> r == Err::<u64, ReactiveError>(ReactiveError::UnknownComputation),
            i < self@.n_comps() && !self@.comp_live(i as int) ==> r == Err::<u64, ReactiveError>(
                ReactiveError::DisposedAccess,
            ),
            i < self@.n_comps() && self@.comp_live(i as int) ==> r == Ok::<u64, ReactiveError>(self@.runs[i as int]),
    {
        if i >= self.exprs.len() {
            return Err(ReactiveError::UnknownComputation);
        }
        if !self.scopes.is_live(self.comp_owners[i]) {
            return Err(ReactiveError::DisposedAccess);
        }
        Ok(self.runs[i])
    }

    /// The cells a computation of a live scope depends on, as recorded by
    /// its last run: each read in order, so a cell read twice appears twice.
    pub fn dependencies(&self, i: usize) -> (r: Result<Vec<usize>, ReactiveError>)
        requires
            self@.wf(),
        ensures
            i >= self@.n_comps() ==> r is Err && r->Err_0 == ReactiveError::UnknownComputation,
            i < self@.n_comps() && !self@.comp_live(i as int) ==> r is Err && r->Err_0
                == ReactiveError::DisposedAccess,
            i < self@.n_comps() && self@.comp_live(i as int) ==> r is Ok && r->Ok_0@ == self@.deps[i as int],
    {
        if i >= self.exprs.len() {
            return Err(ReactiveError::UnknownComputation);
        }
        if !self.scopes.is_live(self.comp_owners[i]) {
            return Err(ReactiveError::DisposedAccess);
        }
        Ok(self.deps[i].clone())
    }

    /// Runs one handler invocation that makes the writes `ws` in order, then
    /// one drain pass that runs each due effect once, in creation order; an
    /// effect whose scope was disposed is skipped.
    /// When a write names a cell that is not live, nothing changes and the
    /// first such write gives the error.
    pub fn handle(&mut self, ws: &Vec<(usize, i64)>) -> (r: Result<(), ReactiveError>)
        requires
            old(self)@.wf(),
            handler_fits(old(self)@, ws@),
        ensures
            final(self)@.wf(),
            writes_valid(old(self)@, ws@) ==> r is Ok && after_handler(old(self)@, ws@, final(self)@),
            !writes_valid(old(self)@, ws@) ==> final(self)@ == old(self)@ && exists|k: int|
                0 <= k < ws@.len() && !old(self)@.live_cell(#[trigger] ws@[k].0) && (forall|j: int|
                    0 <= j < k ==> old(self)@.live_cell(#[trigger] ws@[j].0)) && r == Err::<(), ReactiveError>(
                    write_error(old(self)@, ws@[k].0),
                ),
    {
        let ghost v0 = self@;
        let mut k: usize = 0;
        while k < ws.len()
            invariant
                self@ == v0,
                v0.wf(),
                k <= ws@.len(),
                forall|j: int| 0 <= j < k ==> v0.live_cell(#[trigger] ws@[j].0),
            decreases ws@.len() - k,
        {
            let c = ws[k].0;
            if c >= self.values.len() {
                return Err(ReactiveError::UnknownCell);
            }
            if !self.alive[c] {
                return Err(ReactiveError::DisposedAccess);
            }
            k = k + 1;
        }
        let mut k: usize = 0;
        while k < ws.len()
            invariant
                v0.wf(),
                handler_fits(v0, ws@),
                writes_valid(v0, ws@),
                self@.wf(),
                k <= ws@.len(),
                self@.values == values_after(v0.values, ws@, k as nat),
                self@.versions.len() == v0.versions.len(),
                forall|c: usize| c < v0.n_cells() ==> #[trigger] self@.versions[c as int] == v0.versions[c as int]
                    + change_count(v0.values, ws@, k as nat, c),
                self@.alive == v0.alive,
                self@.scopes == v0.scopes,
                self@.owners == v0.owners,
                self@.comp_owners == v0.comp_owners,
                self@.exprs == v0.exprs,
                self@.effect == v0.effect,
                self@.deps == v0.deps,
                self@.outputs == v0.outputs,
                self@.runs == v0.runs,
                self@.drains == v0.drains,
                forall|i: int| 0 <= i < v0.n_comps() ==> #[trigger] self@.dirty[i] == (v0.dirty[i] || touches(
                    v0.values,
                    ws@,
                    k as nat,
                    v0.deps[i],
                )),
            decreases ws@.len() - k,
        {
            let (c, x) = ws[k];
            let ghost before = self@;
            proof {
                assert(v0.live_cell(ws@[k as int].0));
                lemma_change_count_le(v0.values, ws@, k as nat, c);
                assert(self@.versions[c as int] == v0.versions[c as int] + change_count(v0.values, ws@, k as nat, c));
            }
            let _ = self.write(c, x);
            proof {
                let kk = (k + 1) as nat;
                assert(values_after(v0.values, ws@, kk) == before.values.update(c as int, x));
                assert(changes(v0.values, ws@, k as int) == (before.values[c as int] != x));
                assert(self@.values =~= values_after(v0.values, ws@, kk));
                assert forall|d: usize| d < v0.n_cells() implies #[trigger] self@.versions[d as int] == v0.versions[d as int]
                    + change_count(v0.values, ws@, kk, d) by {
                    assert(change_count(v0.values, ws@, kk, d) == change_count(v0.values, ws@, k as nat, d)
                        + if ws@[k as int].0 == d && changes(v0.values, ws@, k as int) { 1nat } else { 0nat });
                    if d != c {
                        assert(self@.versions[d as int] == before.versions[d as int]);
                    }
                }
                assert forall|i: int| 0 <= i < v0.n_comps() implies #[trigger] self@.dirty[i] == (v0.dirty[i] || touches(
                    v0.values,
                    ws@,
                    kk,
                    v0.deps[i],
                )) by {
                    let hit = changes(v0.values, ws@, k as int) && v0.deps[i].contains(ws@[k as int].0);
                    if touches(v0.values, ws@, k as nat, v0.deps[i]) {
                        let j = choose|j: int| 0 <= j < k && #[trigger] changes(v0.values, ws@, j)
                            && v0.deps[i].contains(ws@[j].0);
                        assert(touches(v0.values, ws@, kk, v0.deps[i]));
                    }
                    if hit {
                        assert(changes(v0.values, ws@, k as int));
                        assert(touches(v0.values, ws@, kk, v0.deps[i]));
                    }
                    if touches(v0.values, ws@, kk, v0.deps[i]) {
                        let j = choose|j: int| 0 <= j < kk && #[trigger] changes(v0.values, ws@, j)
                            && v0.deps[i].contains(ws@[j].0);
                        if j < k {
                            assert(touches(v0.values, ws@, k as nat, v0.deps[i]));
                        }
                    }
                }
            }
            k = k + 1;
        }
        let ghost mid = self@;
        let mut i: usize = 0;
        while i < self.exprs.len()
            invariant
                mid.wf(),
                forall|j: int| 0 <= j < mid.n_comps() && #[trigger] mid.effect[j] ==> mid.runs[j] < u64::MAX,
                self@.wf(),
                i <= mid.n_comps(),
                self@.values == mid.values,
                self@.versions == mid.versions,
                self@.alive == mid.alive,
                self@.scopes == mid.scopes,
                self@.owners == mid.owners,
                self@.comp_owners == mid.comp_owners,
                self@.exprs == mid.exprs,
                self@.effect == mid.effect,
                self@.drains == mid.drains,
                forall|j: int| 0 <= j < mid.n_comps() ==> #[trigger] drained(mid, self@, i as int, j),
            decreases mid.n_comps() - i,
        {
            let ghost pre = self@;
            if self.effect[i] && self.dirty[i] && self.scopes.is_live(self.comp_owners[i]) {
                proof {
                    assert(drained(mid, pre, i as int, i as int));
                }
                self.run(i);
            }
            proof {
                assert forall|j: int| 0 <= j < mid.n_comps() implies #[trigger] drained(mid, self@, i + 1, j) by {
                    assert(drained(mid, pre, i as int, j));
                }
            }
            i = i + 1;
        }
        let ghost fin = self@;
        proof {
            assert(i == mid.n_comps());
        }
        self.drains = self.drains + 1;
        proof {
            let w = self@;
            assert(w == RuntimeView { drains: w.drains, ..fin });
            assert forall|j: int| 0 <= j < v0.n_comps() && #[trigger] v0.effect[j] && v0.comp_live(j) implies {
                &&& w.runs[j] == v0.runs[j] + if due(v0, ws@, j) { 1int } else { 0int }
                &&& w.settled(j)
            } by {
                assert(mid.dirty[j] == due(v0, ws@, j));
                assert(drained(mid, fin, mid.n_comps() as int, j));
                if !mid.dirty[j] {
                    assert(mid.settled(j));
                }
            }
            assert forall|j: int| 0 <= j < v0.n_comps() && !(#[trigger] v0.effect[j] && v0.comp_live(j)) implies {
                &&& w.runs[j] == v0.runs[j]
                &&& w.dirty[j] == due(v0, ws@, j)
                &&& w.deps[j] == v0.deps[j]
                &&& w.outputs[j] == v0.outputs[j]
            } by {
                assert(mid.dirty[j] == due(v0, ws@, j));
                assert(drained(mid, fin, mid.n_comps() as int, j));
            }
        }
        Ok(())
    }

    /// The number of cells created so far.
    pub fn cell_count(&self) -> (r: usize)
        requires
            self@.wf(),
        ensures
            r == self@.n_cells(),
    {
        self.values.len()
    }

    /// The number of computations created so far.
    pub fn computation_count(&self) -> (r: usize)
        requires
            self@.wf(),
        ensures
            r == self@.n_comps(),
    {
        self.exprs.len()
    }

    /// The number of drain passes run so far.
    pub fn drain_count(&self) -> (r: u64)
        ensures
            r == self@.drains,
    {
        self.drains
    }
}

} // verus!
