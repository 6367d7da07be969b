//! Keyed-list reconciliation: from the keys of the rows shown before and the
//! keys to show now, the patches that turn one list into the other while
//! keeping every row whose key survives.

use vstd::prelude::*;
use crate::context::{local, local_exec};
use crate::error::ReactiveError;
use crate::expr::lemma_contains_concat;
use crate::ordered_run::{count_true, increasing_run, longest_kept, longest_run};

verus! {

/// One change to a keyed list.
#[derive(Clone, Copy, Debug, PartialEq, Eq, Structural)]
pub enum Patch {
    /// Tear down the row of this key (and its scope).
    Dispose(u64),
    /// Build a new row for this key at the given position.
    Create(u64, usize),
    /// Move the kept row of this key to the given position.
    Move(u64, usize),
}

/// No key occurs twice.
pub open spec fn distinct(xs: Seq<u64>) -> bool {
    forall|i: int, j: int| 0 <= i < j < xs.len() ==> xs[i] != xs[j]
}

/// The position of key `k` in `old`, where `old` holds it.
pub open spec fn position(old: Seq<u64>, k: u64) -> int {
    choose|i: int| 0 <= i < old.len() && old[i] == k
}

/// For the first `n` keys of `new` that `old` holds too, in `new`'s order,
/// their positions in `old`.
pub open spec fn kept_positions(old: Seq<u64>, new: Seq<u64>, n: nat) -> Seq<usize>
    decreases n,
{
    if n == 0 {
        seq![]
    } else {
        let p = kept_positions(old, new, (n - 1) as nat);
        if old.contains(new[n - 1]) {
            p.push(position(old, new[n - 1]) as usize)
        } else {
            p
        }
    }
}

/// The disposals for the first `n` keys of `old`: one per key that `new` drops.
pub open spec fn disposals(old: Seq<u64>, new: Seq<u64>, n: nat) -> Seq<Patch>
    decreases n,
{
    if n == 0 {
        seq![]
    } else {
        let p = disposals(old, new, (n - 1) as nat);
        if new.contains(old[n - 1]) {
            p
        } else {
            p.push(Patch::Dispose(old[n - 1]))
        }
    }
}

/// How many of the first `j` keys of `new` were already in `old`.
pub open spec fn kept_before(old: Seq<u64>, new: Seq<u64>, j: nat) -> nat
    decreases j,
{
    if j == 0 {
        0
    } else {
        kept_before(old, new, (j - 1) as nat) + if old.contains(new[j - 1]) { 1nat } else { 0nat }
    }
}

/// What position `j` of `new` needs: a new row for a new key; for a kept
/// key, a move unless `keep` marks it (by its rank among the kept keys) as
/// staying where it is.
pub open spec fn placement(old: Seq<u64>, new: Seq<u64>, keep: Seq<bool>, j: int) -> Option<Patch> {
    if !old.contains(new[j]) {
        Some(Patch::Create(new[j], j as usize))
    } else if keep[kept_before(old, new, j as nat) as int] {
        None
    } else {
        Some(Patch::Move(new[j], j as usize))
    }
}

/// The placements for the first `n` positions of `new`, in order.
pub open spec fn placements(old: Seq<u64>, new: Seq<u64>, keep: Seq<bool>, n: nat) -> Seq<Patch>
    decreases n,
{
    if n == 0 {
        seq![]
    } else {
        let p = placements(old, new, keep, (n - 1) as nat);
        match placement(old, new, keep, n - 1) {
            Some(x) => p.push(x),
            None => p,
        }
    }
}

/// The patches from `old` to `new` when the kept rows marked in `keep` stay:
/// first the disposals in `old`'s order, then the creations and moves in
/// `new`'s order.
pub open spec fn reconciliation(old: Seq<u64>, new: Seq<u64>, keep: Seq<bool>) -> Seq<Patch> {
    disposals(old, new, old.len()) + placements(old, new, keep, new.len())
}

/// `keep` marks a longest run of kept rows that are already in their old
/// relative order; every other kept row moves, so the moves are as few as
/// can be.
pub open spec fn fewest_moves(old: Seq<u64>, new: Seq<u64>, keep: Seq<bool>) -> bool {
    longest_kept(kept_positions(old, new, new.len()), keep)
}

proof fn lemma_push_contains<T>(s: Seq<T>, x: T, y: T)
    ensures
        s.push(x).contains(y) == (s.contains(y) || x == y),
{
    if s.contains(y) {
        let k = choose|k: int| 0 <= k < s.len() && s[k] == y;
        assert(s.push(x)[k] == y);
    }
    if x == y {
        assert(s.push(x)[s.len() as int] == y);
    }
    if s.push(x).contains(y) {
        let k = choose|k: int| 0 <= k < s.push(x).len() && s.push(x)[k] == y;
        if k < s.len() {
            assert(s[k] == y);
        }
    }
}

proof fn lemma_identity_prefix(xs: Seq<u64>, n: nat)
    requires
        distinct(xs),
        n <= xs.len(),
        xs.len() <= usize::MAX,
    ensures
        disposals(xs, xs, n).len() == 0,
        kept_before(xs, xs, n) == n,
        kept_positions(xs, xs, n) == Seq::new(n, |i: int| i as usize),
    decreases n,
{
    if n > 0 {
        lemma_identity_prefix(xs, (n - 1) as nat);
        assert(xs[n - 1] == xs[n - 1]);
        assert(xs.contains(xs[n - 1]));
        let q = position(xs, xs[n - 1]);
        assert(0 <= q < xs.len() && xs[q] == xs[n - 1]);
        assert(q == n - 1);
        assert(Seq::new((n - 1) as nat, |i: int| i as usize).push((n - 1) as usize) =~= Seq::new(n, |i: int| i as usize));
    } else {
        assert(Seq::new(0, |i: int| i as usize) =~= Seq::<usize>::empty());
    }
}

proof fn lemma_count_le(s: Seq<bool>)
    ensures
        count_true(s) <= s.len(),
        count_true(s) == s.len() ==> forall|i: int| 0 <= i < s.len() ==> #[trigger] s[i],
    decreases s.len(),
{
    if s.len() > 0 {
        lemma_count_le(s.drop_last());
        if count_true(s) == s.len() {
            assert forall|i: int| 0 <= i < s.len() implies #[trigger] s[i] by {
                if i < s.len() - 1 {
                    assert(s.drop_last()[i] == s[i]);
                }
            }
        }
    }
}

proof fn lemma_identity_placements(xs: Seq<u64>, keep: Seq<bool>, n: nat)
    requires
        distinct(xs),
        n <= xs.len(),
        xs.len() <= usize::MAX,
        keep.len() == xs.len(),
        forall|i: int| 0 <= i < keep.len() ==> #[trigger] keep[i],
    ensures
        placements(xs, xs, keep, n).len() == 0,
    decreases n,
{
    if n > 0 {
        lemma_identity_placements(xs, keep, (n - 1) as nat);
        lemma_identity_prefix(xs, (n - 1) as nat);
        assert(xs.contains(xs[n - 1]));
        assert(keep[n - 1]);
        assert(placement(xs, xs, keep, n - 1) is None);
    }
}

/// Reconciling a keyed list with an identical copy of itself gives no
/// patch: every row is kept and none needs to move.
pub proof fn law_reconcile_identity(xs: Seq<u64>, keep: Seq<bool>)
    requires
        distinct(xs),
        xs.len() <= usize::MAX,
        fewest_moves(xs, xs, keep),
    ensures
        reconciliation(xs, xs, keep).len() == 0,
{
    let n = xs.len();
    lemma_identity_prefix(xs, n);
    let p = kept_positions(xs, xs, n);
    let idx = Seq::new(n, |i: int| i);
    assert(increasing_run(p, idx));
    assert(idx.len() <= count_true(keep));
    lemma_count_le(keep);
    lemma_identity_placements(xs, keep, n);
}

proof fn lemma_disposals_members(old: Seq<u64>, new: Seq<u64>, n: nat, p: Patch)
    requires
        n <= old.len(),
    ensures
        disposals(old, new, n).contains(p) == (p is Dispose && !new.contains(p->Dispose_0)
            && old.take(n as int).contains(p->Dispose_0)),
    decreases n,
{
    if n == 0 {
        assert(disposals(old, new, n) =~= Seq::<Patch>::empty());
        assert(old.take(0) =~= Seq::<u64>::empty());
    } else {
        lemma_disposals_members(old, new, (n - 1) as nat, p);
        assert(old.take(n as int) =~= old.take(n - 1).push(old[n - 1]));
        if p is Dispose {
            lemma_push_contains(old.take(n - 1), old[n - 1], p->Dispose_0);
        }
        if !new.contains(old[n - 1]) {
            lemma_push_contains(disposals(old, new, (n - 1) as nat), Patch::Dispose(old[n - 1]), p);
        } else if p is Dispose && p->Dispose_0 == old[n - 1] {
            assert(new.contains(p->Dispose_0));
        }
    }
}

proof fn lemma_placements_members(old: Seq<u64>, new: Seq<u64>, keep: Seq<bool>, n: nat, p: Patch)
    requires
        n <= new.len(),
        new.len() <= usize::MAX,
    ensures
        p is Dispose ==> !placements(old, new, keep, n).contains(p),
        p is Create ==> placements(old, new, keep, n).contains(p) == (p->Create_1 < n && new[p->Create_1 as int]
            == p->Create_0 && !old.contains(p->Create_0)),
    decreases n,
{
    if n == 0 {
        assert(placements(old, new, keep, n) =~= Seq::<Patch>::empty());
    } else {
        lemma_placements_members(old, new, keep, (n - 1) as nat, p);
        let prev = placements(old, new, keep, (n - 1) as nat);
        match placement(old, new, keep, n - 1) {
            Some(x) => {
                lemma_push_contains(prev, x, p);
            },
            None => {
                assert(old.contains(new[n - 1]));
            },
        }
    }
}

/// Keyed-list reuse: whichever kept rows stay in place, a row is disposed
/// exactly when its key leaves the list, a row is created exactly when its
/// key is new, and a key kept from the old list is never disposed nor
/// created again: its row is reused.
pub proof fn law_keyed_reuse(old: Seq<u64>, new: Seq<u64>, keep: Seq<bool>, k: u64)
    requires
        new.len() <= usize::MAX,
    ensures
        reconciliation(old, new, keep).contains(Patch::Dispose(k)) == (old.contains(k) && !new.contains(k)),
        (exists|j: usize| #[trigger] reconciliation(old, new, keep).contains(Patch::Create(k, j))) == (new.contains(k)
            && !old.contains(k)),
{
    let ps = reconciliation(old, new, keep);
    let d = disposals(old, new, old.len());
    let q = placements(old, new, keep, new.len());
    assert(old.take(old.len() as int) =~= old);
    lemma_contains_concat(d, q, Patch::Dispose(k));
    lemma_disposals_members(old, new, old.len(), Patch::Dispose(k));
    lemma_placements_members(old, new, keep, new.len(), Patch::Dispose(k));
    if new.contains(k) && !old.contains(k) {
        let j = choose|j: int| 0 <= j < new.len() && new[j] == k;
        let c = Patch::Create(k, j as usize);
        lemma_contains_concat(d, q, c);
        lemma_placements_members(old, new, keep, new.len(), c);
        assert(c->Create_1 == j);
        assert(q.contains(c));
        assert(ps.contains(c));
    }
    assert forall|j: usize| #[trigger] ps.contains(Patch::Create(k, j)) implies new.contains(k) && !old.contains(k) by {
        let c = Patch::Create(k, j);
        lemma_contains_concat(d, q, c);
        lemma_disposals_members(old, new, old.len(), c);
        lemma_placements_members(old, new, keep, new.len(), c);
        assert(new[j as int] == k);
    }
}

fn contains_key(xs: &Vec<u64>, k: u64) -> (r: bool)
    ensures
        r == xs@.contains(k),
{
    let mut i: usize = 0;
    while i < xs.len()
        invariant
            i <= xs@.len(),
            forall|j: int| 0 <= j < i ==> xs@[j] != k,
        decreases xs@.len() - i,
    {
        if xs[i] == k {
            return true;
        }
        i = i + 1;
    }
    false
}

/// Whether no key occurs twice in `xs`.
pub fn all_distinct(xs: &Vec<u64>) -> (r: bool)
    ensures
        r == distinct(xs@),
{
    let mut i: usize = 0;
    while i < xs.len()
        invariant
            i <= xs@.len(),
            forall|a: int, b: int| 0 <= a < b < xs@.len() && a < i ==> xs@[a] != xs@[b],
        decreases xs@.len() - i,
    {
        let mut j: usize = i + 1;
        while j < xs.len()
            invariant
                i < xs@.len(),
                i + 1 <= j <= xs@.len(),
                forall|a: int, b: int| 0 <= a < b < xs@.len() && a < i ==> xs@[a] != xs@[b],
                forall|b: int| i < b < j ==> xs@[i as int] != xs@[b],
            decreases xs@.len() - j,
        {
            if xs[i] == xs[j] {
                return false;
            }
            j = j + 1;
        }
        i = i + 1;
    }
    true
}

/// One change to the attributes of an element kept in place.
#[derive(Clone, Copy, Debug, PartialEq, Eq, Structural)]
pub enum AttrPatch {
    /// Remove the attribute of this name.
    Remove(u64),
    /// Set the attribute of this name to this value.
    Assign(u64, i64),
}

/// The removals for the first `n` attributes of `old`: one per name that
/// `new` no longer has.
pub open spec fn attr_removals(old: Seq<(u64, i64)>, new: Seq<(u64, i64)>, n: nat) -> Seq<AttrPatch>
    decreases n,
{
    if n == 0 {
        seq![]
    } else {
        let p = attr_removals(old, new, (n - 1) as nat);
        if local(new, old[n - 1].0) is None {
            p.push(AttrPatch::Remove(old[n - 1].0))
        } else {
            p
        }
    }
}

/// The settings for the first `n` attributes of `new`: one per attribute
/// that `old` lacks or holds with another value.
pub open spec fn attr_settings(old: Seq<(u64, i64)>, new: Seq<(u64, i64)>, n: nat) -> Seq<AttrPatch>
    decreases n,
{
    if n == 0 {
        seq![]
    } else {
        let p = attr_settings(old, new, (n - 1) as nat);
        if local(old, new[n - 1].0) == Some(new[n - 1].1) {
            p
        } else {
            p.push(AttrPatch::Assign(new[n - 1].0, new[n - 1].1))
        }
    }
}

/// The patches that turn the attributes `old` into `new`: removals in
/// `old`'s order, then settings in `new`'s order.
pub open spec fn attr_reconciliation(old: Seq<(u64, i64)>, new: Seq<(u64, i64)>) -> Seq<AttrPatch> {
    attr_removals(old, new, old.len()) + attr_settings(old, new, new.len())
}

/// The attribute names, in order.
pub open spec fn attr_names(attrs: Seq<(u64, i64)>) -> Seq<u64> {
    attrs.map_values(|a: (u64, i64)| a.0)
}

proof fn lemma_local_at(a: Seq<(u64, i64)>, j: int)
    requires
        distinct(attr_names(a)),
        0 <= j < a.len(),
    ensures
        local(a, a[j].0) == Some(a[j].1),
    decreases a.len(),
{
    let n = a.len() as int;
    assert(attr_names(a)[j] == a[j].0);
    assert(attr_names(a)[n - 1] == a[n - 1].0);
    if j < n - 1 {
        assert(a[n - 1].0 != a[j].0);
        let b = a.drop_last();
        assert(attr_names(b) =~= attr_names(a).drop_last());
        assert forall|x: int, y: int| 0 <= x < y < attr_names(b).len() implies attr_names(b)[x] != attr_names(b)[y] by {
            assert(attr_names(b)[x] == attr_names(a)[x]);
            assert(attr_names(b)[y] == attr_names(a)[y]);
        }
        lemma_local_at(b, j);
    }
}

proof fn lemma_attrs_identity(a: Seq<(u64, i64)>, n: nat)
    requires
        distinct(attr_names(a)),
        n <= a.len(),
    ensures
        attr_removals(a, a, n).len() == 0,
        attr_settings(a, a, n).len() == 0,
    decreases n,
{
    if n > 0 {
        lemma_attrs_identity(a, (n - 1) as nat);
        lemma_local_at(a, n - 1);
    }
}

/// Patching the attributes of an element against an identical copy of
/// itself gives no patch.
pub proof fn law_attrs_identity(a: Seq<(u64, i64)>)
    requires
        distinct(attr_names(a)),
    ensures
        attr_reconciliation(a, a).len() == 0,
{
    lemma_attrs_identity(a, a.len());
}

fn attr_names_exec(attrs: &Vec<(u64, i64)>) -> (r: Vec<u64>)
    ensures
        r@ == attr_names(attrs@),
{
    let mut r: Vec<u64> = Vec::new();
    let mut i: usize = 0;
    while i < attrs.len()
        invariant
            i <= attrs@.len(),
            r@ == attr_names(attrs@.subrange(0, i as int)),
        decreases attrs@.len() - i,
    {
        r.push(attrs[i].0);
        proof {
            assert(attr_names(attrs@.subrange(0, i + 1)) =~= attr_names(attrs@.subrange(0, i as int)).push(attrs@[i as int].0));
        }
        i = i + 1;
    }
    proof {
        assert(attrs@.subrange(0, attrs@.len() as int) =~= attrs@);
    }
    r
}

/// Patches the attributes of an element whose tag did not change. Fails when
/// either side names an attribute twice.
pub fn reconcile_attrs(old: &Vec<(u64, i64)>, new: &Vec<(u64, i64)>) -> (r: Result<Vec<AttrPatch>, ReactiveError>)
    ensures
        !(distinct(attr_names(old@)) && distinct(attr_names(new@))) ==> r is Err && r->Err_0
            == ReactiveError::DuplicateKey,
        distinct(attr_names(old@)) && distinct(attr_names(new@)) ==> r is Ok && r->Ok_0@ == attr_reconciliation(
            old@,
            new@,
        ),
{
    let on = attr_names_exec(old);
    let nn = attr_names_exec(new);
    if !all_distinct(&on) || !all_distinct(&nn) {
        return Err(ReactiveError::DuplicateKey);
    }
    let mut out: Vec<AttrPatch> = Vec::new();
    let mut i: usize = 0;
    while i < old.len()
        invariant
            i <= old@.len(),
            out@ == attr_removals(old@, new@, i as nat),
        decreases old@.len() - i,
    {
        let (name, _) = old[i];
        if local_exec(new, name).is_none() {
            out.push(AttrPatch::Remove(name));
        }
        i = i + 1;
    }
    let mut j: usize = 0;
    while j < new.len()
        invariant
            j <= new@.len(),
            out@ == attr_removals(old@, new@, old@.len()) + attr_settings(old@, new@, j as nat),
        decreases new@.len() - j,
    {
        let (name, value) = new[j];
        let before = local_exec(old, name);
        let same = match before {
            Some(v) => v == value,
            None => false,
        };
        if !same {
            out.push(AttrPatch::Assign(name, value));
        }
        proof {
            assert(out@ =~= attr_removals(old@, new@, old@.len()) + attr_settings(old@, new@, (j + 1) as nat));
        }
        j = j + 1;
    }
    Ok(out)
}

proof fn lemma_kept_before_mono(old: Seq<u64>, new: Seq<u64>, j: nat, n: nat)
    requires
        j <= n,
    ensures
        kept_before(old, new, j) <= kept_before(old, new, n),
    decreases n,
{
    if j < n {
        lemma_kept_before_mono(old, new, j, (n - 1) as nat);
    }
}

proof fn lemma_kept_positions_len(old: Seq<u64>, new: Seq<u64>, n: nat)
    ensures
        kept_positions(old, new, n).len() == kept_before(old, new, n),
    decreases n,
{
    if n > 0 {
        lemma_kept_positions_len(old, new, (n - 1) as nat);
    }
}

/// How many patches of `ps` are moves.
pub open spec fn move_count(ps: Seq<Patch>) -> nat
    decreases ps.len(),
{
    if ps.len() == 0 {
        0
    } else {
        move_count(ps.drop_last()) + if ps.last() is Move { 1nat } else { 0nat }
    }
}

proof fn lemma_move_count_concat(a: Seq<Patch>, b: Seq<Patch>)
    ensures
        move_count(a + b) == move_count(a) + move_count(b),
    decreases b.len(),
{
    if b.len() == 0 {
        assert(a + b =~= a);
    } else {
        assert((a + b).drop_last() =~= a + b.drop_last());
        lemma_move_count_concat(a, b.drop_last());
    }
}

proof fn lemma_disposals_no_move(old: Seq<u64>, new: Seq<u64>, n: nat)
    ensures
        move_count(disposals(old, new, n)) == 0,
    decreases n,
{
    if n > 0 {
        lemma_disposals_no_move(old, new, (n - 1) as nat);
        let p = disposals(old, new, (n - 1) as nat);
        if !new.contains(old[n - 1]) {
            assert(p.push(Patch::Dispose(old[n - 1])).drop_last() =~= p);
        }
    }
}

proof fn lemma_placements_moves(old: Seq<u64>, new: Seq<u64>, keep: Seq<bool>, n: nat)
    requires
        n <= new.len(),
        keep.len() == kept_before(old, new, new.len()),
    ensures
        kept_before(old, new, n) <= keep.len(),
        move_count(placements(old, new, keep, n)) + count_true(keep.take(kept_before(old, new, n) as int))
            == kept_before(old, new, n),
    decreases n,
{
    lemma_kept_before_mono(old, new, n, new.len());
    if n == 0 {
        assert(keep.take(0) =~= Seq::<bool>::empty());
    } else {
        let m = (n - 1) as nat;
        lemma_placements_moves(old, new, keep, m);
        let p = placements(old, new, keep, m);
        let t = kept_before(old, new, m);
        match placement(old, new, keep, m as int) {
            Some(x) => {
                assert(p.push(x).drop_last() =~= p);
            },
            None => {},
        }
        if old.contains(new[m as int]) {
            assert(keep.take(t as int + 1).drop_last() =~= keep.take(t as int));
        }
    }
}

/// The moves are as few as can be: their number is the number of kept rows
/// less the length of a longest run of kept rows already in their old
/// relative order, and no such run is longer than the rows that stay.
pub proof fn law_fewest_moves(old: Seq<u64>, new: Seq<u64>, keep: Seq<bool>, run: Seq<int>)
    requires
        fewest_moves(old, new, keep),
        increasing_run(kept_positions(old, new, new.len()), run),
    ensures
        move_count(reconciliation(old, new, keep)) + count_true(keep) == kept_positions(old, new, new.len()).len(),
        run.len() <= count_true(keep),
{
    lemma_kept_positions_len(old, new, new.len());
    lemma_placements_moves(old, new, keep, new.len());
    assert(keep.take(keep.len() as int) =~= keep);
    lemma_move_count_concat(disposals(old, new, old.len()), placements(old, new, keep, new.len()));
    lemma_disposals_no_move(old, new, old.len());
}

fn find_key(xs: &Vec<u64>, k: u64) -> (r: Option<usize>)
    ensures
        r is None <==> !xs@.contains(k),
        r is Some ==> r->Some_0 < xs@.len() && xs@[r->Some_0 as int] == k,
{
    let mut i: usize = 0;
    while i < xs.len()
        invariant
            i <= xs@.len(),
            forall|j: int| 0 <= j < i ==> xs@[j] != k,
        decreases xs@.len() - i,
    {
        if xs[i] == k {
            return Some(i);
        }
        i = i + 1;
    }
    None
}

/// Reconciles a keyed list whose rows had the keys `old` with the keys
/// `new`: rows of dropped keys are disposed, rows of new keys created, and
/// of the kept rows a longest run already in order stays while the others
/// move. Fails when either list holds a key twice.
pub fn reconcile_keys(old: &Vec<u64>, new: &Vec<u64>) -> (r: Result<Vec<Patch>, ReactiveError>)
    ensures
        !(distinct(old@) && distinct(new@)) ==> r is Err && r->Err_0 == ReactiveError::DuplicateKey,
        distinct(old@) && distinct(new@) ==> r is Ok && exists|keep: Seq<bool>|
            #[trigger] fewest_moves(old@, new@, keep) && r->Ok_0@ == reconciliation(old@, new@, keep),
{
    if !all_distinct(old) || !all_distinct(new) {
        return Err(ReactiveError::DuplicateKey);
    }
    let mut out: Vec<Patch> = Vec::new();
    let mut i: usize = 0;
    while i < old.len()
        invariant
            i <= old@.len(),
            out@ == disposals(old@, new@, i as nat),
        decreases old@.len() - i,
    {
        let k = old[i];
        if !contains_key(new, k) {
            out.push(Patch::Dispose(k));
        }
        i = i + 1;
    }
    let mut kp: Vec<usize> = Vec::new();
    let mut j: usize = 0;
    while j < new.len()
        invariant
            distinct(old@),
            j <= new@.len(),
            kp@ == kept_positions(old@, new@, j as nat),
        decreases new@.len() - j,
    {
        match find_key(old, new[j]) {
            Some(q) => {
                proof {
                    let c = position(old@, new@[j as int]);
                    assert(old@.contains(new@[j as int]));
                    assert(0 <= c < old@.len() && old@[c] == new@[j as int]);
                    assert(c == q as int);
                }
                kp.push(q);
            },
            None => {},
        }
        j = j + 1;
    }
    let keep = longest_run(&kp);
    proof {
        lemma_kept_positions_len(old@, new@, new@.len());
    }
    let mut t: usize = 0;
    let mut j: usize = 0;
    while j < new.len()
        invariant
            j <= new@.len(),
            t == kept_before(old@, new@, j as nat),
            keep@.len() == kept_before(old@, new@, new@.len()),
            out@ == disposals(old@, new@, old@.len()) + placements(old@, new@, keep@, j as nat),
        decreases new@.len() - j,
    {
        let k = new[j];
        if !contains_key(old, k) {
            out.push(Patch::Create(k, j));
        } else {
            proof {
                lemma_kept_before_mono(old@, new@, (j + 1) as nat, new@.len());
            }
            if !keep[t] {
                out.push(Patch::Move(k, j));
            }
            t = t + 1;
        }
        proof {
            assert(out@ =~= disposals(old@, new@, old@.len()) + placements(old@, new@, keep@, (j + 1) as nat));
        }
        j = j + 1;
    }
    proof {
        assert(fewest_moves(old@, new@, keep@));
    }
    Ok(out)
}

} // verus!
