//! Scopes and context: a tree of scopes, each holding key/value entries; a
//! lookup walks from a scope up through its ancestors.

use vstd::prelude::*;
use crate::error::ReactiveError;

verus! {

/// The scope tree as plain values: `parents[s]` is the parent of scope `s`
/// (none for a root), `entries[s]` what was provided at `s`, in order, and
/// `disposed[s]` whether `s` was torn down.
pub struct ScopeTreeView {
    pub parents: Seq<Option<usize>>,
    pub entries: Seq<Seq<(u64, i64)>>,
    pub disposed: Seq<bool>,
}

/// A tree of scopes. Scope 0 is the root; a parent is always created before
/// its children, so it has a smaller id and the tree has no cycle.
pub struct ScopeTree {
    parents: Vec<Option<usize>>,
    entries: Vec<Vec<(u64, i64)>>,
    disposed: Vec<bool>,
}

impl View for ScopeTree {
    type V = ScopeTreeView;

    closed spec fn view(&self) -> ScopeTreeView {
        ScopeTreeView {
            parents: self.parents@,
            entries: self.entries@.map_values(|e: Vec<(u64, i64)>| e@),
            disposed: self.disposed@,
        }
    }
}

/// The value last stored under `key` among `es`, if any.
pub open spec fn local(es: Seq<(u64, i64)>, key: u64) -> Option<i64>
    decreases es.len(),
{
    if es.len() == 0 {
        None
    } else if es.last().0 == key {
        Some(es.last().1)
    } else {
        local(es.drop_last(), key)
    }
}

impl ScopeTreeView {
    /// The number of scopes created so far.
    pub open spec fn len(self) -> nat {
        self.parents.len()
    }

    /// The sequences agree in length, the root exists, and every parent
    /// was created before its child.
    pub open spec fn wf(self) -> bool {
        &&& self.entries.len() == self.len()
        &&& self.disposed.len() == self.len()
        &&& self.len() > 0
        &&& forall|s: int| 0 <= s < self.len() && (#[trigger] self.parents[s]) is Some
            ==> self.parents[s]->Some_0 < s
    }

    /// The value that a lookup of `key` from scope `s` finds: the nearest
    /// scope on the path from `s` to its root that holds the key decides.
    pub open spec fn lookup(self, s: nat, key: u64) -> Option<i64>
        decreases s,
    {
        match local(self.entries[s as int], key) {
            Some(v) => Some(v),
            None => match self.parents[s as int] {
                Some(p) => if p < s {
                    self.lookup(p as nat, key)
                } else {
                    None
                },
                None => None,
            },
        }
    }

    /// Scope `s` exists and was not disposed.
    pub open spec fn live(self, s: usize) -> bool {
        s < self.len() && !self.disposed[s as int]
    }

    /// The error for an operation on scope `s`, which is not live.
    pub open spec fn scope_error(self, s: usize) -> ReactiveError {
        if s >= self.len() {
            ReactiveError::UnknownScope
        } else {
            ReactiveError::DisposedAccess
        }
    }

    /// Scope `a` is `d` or one of its ancestors.
    pub open spec fn is_ancestor(self, a: nat, d: nat) -> bool
        decreases d,
    {
        a == d || match self.parents[d as int] {
            Some(p) => p < d && self.is_ancestor(a, p as nat),
            None => false,
        }
    }
}

/// The value last stored under `key` in `es`, if any.
pub(crate) fn local_exec(es: &Vec<(u64, i64)>, key: u64) -> (r: Option<i64>)
    ensures
        r == local(es@, key),
{
    let mut i: usize = es.len();
    proof {
        assert(es@.subrange(0, i as int) =~= es@);
    }
    while i > 0
        invariant
            i <= es@.len(),
            local(es@, key) == local(es@.subrange(0, i as int), key),
        decreases i,
    {
        let ghost pre = es@.subrange(0, i as int);
        if es[i - 1].0 == key {
            return Some(es[i - 1].1);
        }
        proof {
            assert(pre.drop_last() =~= es@.subrange(0, i - 1));
        }
        i = i - 1;
    }
    None
}

impl ScopeTree {
    /// A tree that holds only the root scope 0, with no entries.
    pub fn new() -> (r: ScopeTree)
        ensures
            r@.wf(),
            r@.parents == seq![None::<usize>],
            r@.entries == seq![Seq::<(u64, i64)>::empty()],
            r@.disposed == seq![false],
    {
        let mut parents: Vec<Option<usize>> = Vec::new();
        parents.push(None);
        let mut entries: Vec<Vec<(u64, i64)>> = Vec::new();
        entries.push(Vec::new());
        let mut disposed: Vec<bool> = Vec::new();
        disposed.push(false);
        let r = ScopeTree { parents, entries, disposed };
        proof {
            assert(r@.disposed =~= seq![false]);
            assert(r@.parents =~= seq![None::<usize>]);
            assert(r@.entries =~= seq![Seq::<(u64, i64)>::empty()]);
        }
        r
    }

    /// The number of scopes.
    pub fn len(&self) -> (r: usize)
        requires
            self@.wf(),
        ensures
            r == self@.len(),
    {
        self.parents.len()
    }

    /// Whether scope `s` exists and was not disposed.
    pub fn is_live(&self, s: usize) -> (r: bool)
        requires
            self@.wf(),
        ensures
            r == self@.live(s),
    {
        s < self.parents.len() && !self.disposed[s]
    }

    /// Creates a child scope of `parent`, with no entries, and returns its id.
    pub fn create_child(&mut self, parent: usize) -> (r: Result<usize, ReactiveError>)
        requires
            old(self)@.wf(),
        ensures
            final(self)@.wf(),
            !old(self)@.live(parent) ==> r == Err::<usize, ReactiveError>(old(self)@.scope_error(parent))
                && final(self)@ == old(self)@,
            old(self)@.live(parent) ==> r == Ok::<usize, ReactiveError>(old(self)@.len() as usize)
                && final(self)@ == (ScopeTreeView {
                parents: old(self)@.parents.push(Some(parent)),
                entries: old(self)@.entries.push(Seq::empty()),
                disposed: old(self)@.disposed.push(false),
            }),
    {
        if parent >= self.parents.len() {
            return Err(ReactiveError::UnknownScope);
        }
        if self.disposed[parent] {
            return Err(ReactiveError::DisposedAccess);
        }
        let r = self.parents.len();
        self.parents.push(Some(parent));
        self.entries.push(Vec::new());
        self.disposed.push(false);
        proof {
            assert(self@.entries =~= old(self)@.entries.push(Seq::empty()));
        }
        Ok(r)
    }

    /// Stores `value` under `key` at scope `s`; it hides any earlier value of
    /// that key at `s`.
    pub fn provide(&mut self, s: usize, key: u64, value: i64) -> (r: Result<(), ReactiveError>)
        requires
            old(self)@.wf(),
        ensures
            final(self)@.wf(),
            !old(self)@.live(s) ==> r == Err::<(), ReactiveError>(old(self)@.scope_error(s))
                && final(self)@ == old(self)@,
            old(self)@.live(s) ==> r == Ok::<(), ReactiveError>(()) && final(self)@ == (ScopeTreeView {
                entries: old(self)@.entries.update(s as int, old(self)@.entries[s as int].push((key, value))),
                ..old(self)@
            }),
    {
        if s >= self.parents.len() {
            return Err(ReactiveError::UnknownScope);
        }
        if self.disposed[s] {
            return Err(ReactiveError::DisposedAccess);
        }
        let mut es = self.entries.remove(s);
        es.push((key, value));
        self.entries.insert(s, es);
        proof {
            assert(self@.entries =~= old(self)@.entries.update(s as int, old(self)@.entries[s as int].push((key, value))));
        }
        Ok(())
    }

    /// Disposes scope `s` and, transitively, every scope below it.
    pub fn dispose(&mut self, s: usize) -> (r: Result<(), ReactiveError>)
        requires
            old(self)@.wf(),
        ensures
            final(self)@.wf(),
            s >= old(self)@.len() ==> r == Err::<(), ReactiveError>(ReactiveError::UnknownScope)
                && final(self)@ == old(self)@,
            s < old(self)@.len() ==> r == Ok::<(), ReactiveError>(()) && final(self)@ == (ScopeTreeView {
                disposed: Seq::new(
                    old(self)@.len(),
                    |j: int| old(self)@.disposed[j] || old(self)@.is_ancestor(s as nat, j as nat),
                ),
                ..old(self)@
            }),
    {
        if s >= self.parents.len() {
            return Err(ReactiveError::UnknownScope);
        }
        let ghost v = self@;
        let mut below: Vec<bool> = Vec::new();
        let mut nd: Vec<bool> = Vec::new();
        let mut j: usize = 0;
        while j < self.parents.len()
            invariant
                v.wf(),
                self@ == v,
                j <= v.len(),
                below@.len() == j,
                nd@.len() == j,
                forall|k: int| 0 <= k < j ==> #[trigger] below@[k] == v.is_ancestor(s as nat, k as nat),
                forall|k: int| 0 <= k < j ==> #[trigger] nd@[k] == (v.disposed[k] || v.is_ancestor(s as nat, k as nat)),
            decreases v.len() - j,
        {
            let hit = if j == s {
                true
            } else {
                match self.parents[j] {
                    Some(p) => {
                        proof {
                            assert(v.parents[j as int] is Some);
                        }
                        below[p]
                    },
                    None => false,
                }
            };
            proof {
                assert(hit == v.is_ancestor(s as nat, j as nat));
            }
            below.push(hit);
            nd.push(self.disposed[j] || hit);
            j = j + 1;
        }
        self.disposed = nd;
        proof {
            assert(self@.disposed =~= Seq::new(
                v.len(),
                |j: int| v.disposed[j] || v.is_ancestor(s as nat, j as nat),
            ));
        }
        Ok(())
    }

    /// Looks `key` up from scope `s`, walking up through its ancestors.
    pub fn consume(&self, s: usize, key: u64) -> (r: Result<i64, ReactiveError>)
        requires
            self@.wf(),
        ensures
            !self@.live(s) ==> r == Err::<i64, ReactiveError>(self@.scope_error(s)),
            self@.live(s) && self@.lookup(s as nat, key) is None ==> r == Err::<i64, ReactiveError>(
                ReactiveError::ContextNotFound,
            ),
            self@.live(s) && self@.lookup(s as nat, key) is Some ==> r == Ok::<i64, ReactiveError>(
                self@.lookup(s as nat, key)->Some_0,
            ),
    {
        if s >= self.parents.len() {
            return Err(ReactiveError::UnknownScope);
        }
        if self.disposed[s] {
            return Err(ReactiveError::DisposedAccess);
        }
        let mut cur: usize = s;
        loop
            invariant
                self@.wf(),
                self@.live(s),
                cur < self@.len(),
                self@.lookup(s as nat, key) == self@.lookup(cur as nat, key),
            decreases cur,
        {
            proof {
                assert(self@.entries[cur as int] == self.entries@[cur as int]@);
            }
            match local_exec(&self.entries[cur], key) {
                Some(v) => {
                    return Ok(v);
                },
                None => {},
            }
            match self.parents[cur] {
                Some(p) => {
                    cur = p;
                },
                None => {
                    return Err(ReactiveError::ContextNotFound);
                },
            }
        }
    }
}

/// A value provided at scope `r`, under a key that no other scope holds, is
/// found from every scope of `r`'s subtree and from no other scope.
pub proof fn law_context_scoped(v: ScopeTreeView, r: nat, key: u64, d: nat)
    requires
        v.wf(),
        r < v.len(),
        d < v.len(),
        local(v.entries[r as int], key) is Some,
        forall|a: int| 0 <= a < v.len() && a != r ==> local(#[trigger] v.entries[a], key) is None,
    ensures
        v.lookup(d, key) == if v.is_ancestor(r, d) {
            local(v.entries[r as int], key)
        } else {
            None::<i64>
        },
    decreases d,
{
    if d != r {
        match v.parents[d as int] {
            Some(p) => {
                law_context_scoped(v, r, key, p as nat);
            },
            None => {},
        }
    }
}

} // verus!
