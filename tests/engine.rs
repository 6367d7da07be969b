use reactive_core::context::ScopeTree;
use reactive_core::error::ReactiveError;
use reactive_core::expr::Expr;
use reactive_core::reconcile::{reconcile_attrs, reconcile_keys, AttrPatch, Patch};
use reactive_core::runtime::Runtime;

const ROOT: usize = 0;

fn read(c: usize) -> Expr {
    Expr::Read(c)
}

fn add(a: Expr, b: Expr) -> Expr {
    Expr::Add(Box::new(a), Box::new(b))
}

#[test]
fn counter_end_to_end() {
    let mut rt = Runtime::new();
    let count = rt.create_cell(ROOT, 0).unwrap();
    let display = rt.create_effect(ROOT, read(count)).unwrap();
    for _ in 0..3 {
        let now = rt.read(count).unwrap();
        rt.handle(&vec![(count, now + 10)]).unwrap();
    }
    assert_eq!(rt.output(display), Ok(30));
    assert_eq!(rt.drain_count(), 3);
    assert_eq!(rt.run_count(display), Ok(4));
    assert_eq!(rt.version(count), Ok(3));
}

#[test]
fn three_writes_one_pass() {
    let mut rt = Runtime::new();
    let a = rt.create_cell(ROOT, 1).unwrap();
    let b = rt.create_cell(ROOT, 2).unwrap();
    let c = rt.create_cell(ROOT, 3).unwrap();
    let all = rt.create_effect(ROOT, add(read(a), add(read(b), read(c)))).unwrap();
    let only_a = rt.create_effect(ROOT, read(a)).unwrap();
    let only_b = rt.create_effect(ROOT, read(b)).unwrap();
    rt.handle(&vec![(a, 10), (b, 20), (c, 30)]).unwrap();
    assert_eq!(rt.drain_count(), 1);
    assert_eq!(rt.run_count(all), Ok(2));
    assert_eq!(rt.run_count(only_a), Ok(2));
    assert_eq!(rt.run_count(only_b), Ok(2));
    assert_eq!(rt.output(all), Ok(60));
}

#[test]
fn unrelated_write_does_not_rerun() {
    let mut rt = Runtime::new();
    let a = rt.create_cell(ROOT, 5).unwrap();
    let b = rt.create_cell(ROOT, 7).unwrap();
    let derived = rt.create_derived(ROOT, add(read(b), Expr::Lit(1))).unwrap();
    let effect = rt.create_effect(ROOT, read(b)).unwrap();
    rt.handle(&vec![(a, 6), (a, 8)]).unwrap();
    assert_eq!(rt.get(derived), Ok(8));
    assert_eq!(rt.run_count(derived), Ok(1));
    assert_eq!(rt.run_count(effect), Ok(1));
}

#[test]
fn derived_is_lazy() {
    let mut rt = Runtime::new();
    let a = rt.create_cell(ROOT, 2).unwrap();
    let d = rt.create_derived(ROOT, add(read(a), read(a))).unwrap();
    assert_eq!(rt.write(a, 5), Ok(true));
    assert_eq!(rt.write(a, 6), Ok(true));
    assert_eq!(rt.run_count(d), Ok(1));
    assert_eq!(rt.get(d), Ok(12));
    assert_eq!(rt.run_count(d), Ok(2));
    assert_eq!(rt.get(d), Ok(12));
    assert_eq!(rt.run_count(d), Ok(2));
}

#[test]
fn conditional_dependencies_follow_the_branch() {
    let mut rt = Runtime::new();
    let flag = rt.create_cell(ROOT, 1).unwrap();
    let a = rt.create_cell(ROOT, 10).unwrap();
    let b = rt.create_cell(ROOT, 20).unwrap();
    let sel = Expr::Select(Box::new(read(flag)), Box::new(read(a)), Box::new(read(b)));
    let d = rt.create_derived(ROOT, sel).unwrap();
    assert_eq!(rt.dependencies(d), Ok(vec![flag, a]));
    rt.write(flag, 0).unwrap();
    assert_eq!(rt.get(d), Ok(20));
    assert_eq!(rt.dependencies(d), Ok(vec![flag, b]));
    rt.write(a, 11).unwrap();
    assert_eq!(rt.get(d), Ok(20));
    assert_eq!(rt.run_count(d), Ok(2));
    rt.write(b, 21).unwrap();
    assert_eq!(rt.get(d), Ok(21));
    assert_eq!(rt.run_count(d), Ok(3));
}

#[test]
fn equal_write_changes_nothing() {
    let mut rt = Runtime::new();
    let a = rt.create_cell(ROOT, 4).unwrap();
    let e = rt.create_effect(ROOT, read(a)).unwrap();
    assert_eq!(rt.write(a, 4), Ok(false));
    assert_eq!(rt.version(a), Ok(0));
    rt.handle(&vec![(a, 4)]).unwrap();
    assert_eq!(rt.run_count(e), Ok(1));
    assert_eq!(rt.drain_count(), 1);
}

#[test]
fn write_back_to_original_value_still_runs() {
    let mut rt = Runtime::new();
    let a = rt.create_cell(ROOT, 4).unwrap();
    let e = rt.create_effect(ROOT, read(a)).unwrap();
    rt.handle(&vec![(a, 5), (a, 4)]).unwrap();
    assert_eq!(rt.run_count(e), Ok(2));
    assert_eq!(rt.version(a), Ok(2));
    assert_eq!(rt.output(e), Ok(4));
}

#[test]
fn equality_and_wrapping_sum() {
    let mut rt = Runtime::new();
    let a = rt.create_cell(ROOT, i64::MAX).unwrap();
    let eq = Expr::Equal(Box::new(read(a)), Box::new(Expr::Lit(i64::MAX)));
    let d = rt.create_derived(ROOT, eq).unwrap();
    assert_eq!(rt.get(d), Ok(1));
    let s = rt.create_derived(ROOT, add(read(a), Expr::Lit(1))).unwrap();
    assert_eq!(rt.get(s), Ok(i64::MIN));
}

#[test]
fn runtime_errors() {
    let mut rt = Runtime::new();
    let a = rt.create_cell(ROOT, 1).unwrap();
    let e = rt.create_effect(ROOT, read(a)).unwrap();
    assert_eq!(rt.read(9), Err(ReactiveError::UnknownCell));
    assert_eq!(rt.write(9, 1), Err(ReactiveError::UnknownCell));
    assert_eq!(rt.create_derived(ROOT, read(9)), Err(ReactiveError::UnknownCell));
    assert_eq!(rt.get(e), Err(ReactiveError::UnknownComputation));
    assert_eq!(rt.get(7), Err(ReactiveError::UnknownComputation));
    assert_eq!(rt.dispose_cell(a), Ok(()));
    assert_eq!(rt.read(a), Err(ReactiveError::DisposedAccess));
    assert_eq!(rt.write(a, 3), Err(ReactiveError::DisposedAccess));
    assert_eq!(rt.handle(&vec![(a, 3)]), Err(ReactiveError::DisposedAccess));
    assert_eq!(rt.handle(&vec![(5, 3), (a, 3)]), Err(ReactiveError::UnknownCell));
    assert_eq!(rt.drain_count(), 0);
    assert_eq!(rt.cell_count(), 1);
    assert_eq!(rt.computation_count(), 1);
}

#[test]
fn keyed_list_reuses_rows() {
    let (ka, kb, kc, kd) = (1u64, 2u64, 3u64, 4u64);
    let patches = reconcile_keys(&vec![ka, kb, kc], &vec![kb, kc, kd]).unwrap();
    let mut disposed = [0u32; 5];
    let mut created = [0u32; 5];
    let mut moved = [0u32; 5];
    for p in &patches {
        match *p {
            Patch::Dispose(k) => disposed[k as usize] += 1,
            Patch::Create(k, _) => created[k as usize] += 1,
            Patch::Move(k, _) => moved[k as usize] += 1,
        }
    }
    assert_eq!(disposed, [0, 1, 0, 0, 0]);
    assert_eq!(created, [0, 0, 0, 0, 1]);
    assert_eq!(moved, [0, 0, 0, 0, 0]);
    assert_eq!(patches, vec![Patch::Dispose(ka), Patch::Create(kd, 2)]);
}

#[test]
fn keyed_list_reorder_moves() {
    let patches = reconcile_keys(&vec![1, 2, 3], &vec![3, 1, 2]).unwrap();
    assert_eq!(patches, vec![Patch::Move(3, 0)]);
}

#[test]
fn keyed_list_identity_has_no_patch() {
    let keys = vec![7, 3, 9, 1];
    assert_eq!(reconcile_keys(&keys, &keys.clone()), Ok(vec![]));
    assert_eq!(reconcile_keys(&vec![], &vec![]), Ok(vec![]));
}

#[test]
fn keyed_list_duplicate_key() {
    assert_eq!(reconcile_keys(&vec![1, 2, 1], &vec![2]), Err(ReactiveError::DuplicateKey));
    assert_eq!(reconcile_keys(&vec![1], &vec![2, 2]), Err(ReactiveError::DuplicateKey));
}

#[test]
fn context_scoped_to_subtree() {
    let mut tree = ScopeTree::new();
    let r = tree.create_child(0).unwrap();
    let sibling = tree.create_child(0).unwrap();
    let mid = tree.create_child(r).unwrap();
    let leaf = tree.create_child(mid).unwrap();
    tree.provide(r, 42, 7).unwrap();
    assert_eq!(tree.consume(r, 42), Ok(7));
    assert_eq!(tree.consume(leaf, 42), Ok(7));
    assert_eq!(tree.consume(sibling, 42), Err(ReactiveError::ContextNotFound));
    assert_eq!(tree.consume(0, 42), Err(ReactiveError::ContextNotFound));
    tree.provide(mid, 42, 8).unwrap();
    assert_eq!(tree.consume(leaf, 42), Ok(8));
    assert_eq!(tree.consume(r, 42), Ok(7));
    tree.provide(r, 42, 9).unwrap();
    assert_eq!(tree.consume(r, 42), Ok(9));
    assert_eq!(tree.len(), 5);
}

#[test]
fn context_errors() {
    let mut tree = ScopeTree::new();
    assert_eq!(tree.create_child(3), Err(ReactiveError::UnknownScope));
    assert_eq!(tree.provide(3, 1, 1), Err(ReactiveError::UnknownScope));
    assert_eq!(tree.consume(3, 1), Err(ReactiveError::UnknownScope));
}

#[test]
fn disposing_a_scope_kills_its_subtree() {
    let mut rt = Runtime::new();
    let list = rt.create_scope(ROOT).unwrap();
    let row = rt.create_scope(list).unwrap();
    let other = rt.create_scope(ROOT).unwrap();
    let kept = rt.create_cell(other, 1).unwrap();
    let row_cell = rt.create_cell(row, 2).unwrap();
    let row_effect = rt.create_effect(row, read(kept)).unwrap();
    let row_derived = rt.create_derived(row, read(kept)).unwrap();
    let watcher = rt.create_effect(other, read(kept)).unwrap();
    let before = rt.run_count(row_effect);
    assert_eq!(before, Ok(1));
    assert_eq!(rt.dispose_scope(list), Ok(()));
    assert_eq!(rt.read(row_cell), Err(ReactiveError::DisposedAccess));
    assert_eq!(rt.write(row_cell, 3), Err(ReactiveError::DisposedAccess));
    assert_eq!(rt.read(kept), Ok(1));
    assert_eq!(rt.create_cell(row, 0), Err(ReactiveError::DisposedAccess));
    assert_eq!(rt.create_scope(list), Err(ReactiveError::DisposedAccess));
    assert_eq!(rt.get(row_derived), Err(ReactiveError::DisposedAccess));
    rt.handle(&vec![(kept, 5)]).unwrap();
    assert_eq!(rt.run_count(row_effect), Err(ReactiveError::DisposedAccess));
    assert_eq!(rt.output(row_effect), Err(ReactiveError::DisposedAccess));
    assert_eq!(rt.dependencies(row_derived), Err(ReactiveError::DisposedAccess));
    assert_eq!(rt.run_count(watcher), Ok(2));
    assert_eq!(rt.output(watcher), Ok(5));
    assert_eq!(rt.dispose_scope(99), Err(ReactiveError::UnknownScope));
    assert_eq!(rt.create_cell(99, 0), Err(ReactiveError::UnknownScope));
}

#[test]
fn context_hands_a_setter_down() {
    let mut rt = Runtime::new();
    let parent = rt.create_scope(ROOT).unwrap();
    let toggled = rt.create_cell(parent, 0).unwrap();
    let shown = rt.create_effect(parent, read(toggled)).unwrap();
    rt.provide(parent, 1, toggled as i64).unwrap();
    let layout = rt.create_scope(parent).unwrap();
    let content = rt.create_scope(layout).unwrap();
    let button = rt.create_scope(content).unwrap();
    let setter = rt.consume(button, 1).unwrap() as usize;
    let now = rt.read(setter).unwrap();
    let flipped = Expr::Equal(Box::new(Expr::Lit(now)), Box::new(Expr::Lit(0)));
    let d = rt.create_derived(button, flipped).unwrap();
    let next = rt.get(d).unwrap();
    rt.handle(&vec![(setter, next)]).unwrap();
    assert_eq!(rt.output(shown), Ok(1));
    let sibling = rt.create_scope(ROOT).unwrap();
    assert_eq!(rt.consume(sibling, 1), Err(ReactiveError::ContextNotFound));
    rt.dispose_scope(parent).unwrap();
    assert_eq!(rt.consume(button, 1), Err(ReactiveError::DisposedAccess));
}

#[test]
fn context_disposed_scope() {
    let mut tree = ScopeTree::new();
    let a = tree.create_child(0).unwrap();
    let b = tree.create_child(a).unwrap();
    tree.provide(0, 5, 50).unwrap();
    assert_eq!(tree.dispose(a), Ok(()));
    assert_eq!(tree.is_live(b), false);
    assert_eq!(tree.is_live(0), true);
    assert_eq!(tree.consume(b, 5), Err(ReactiveError::DisposedAccess));
    assert_eq!(tree.provide(a, 5, 1), Err(ReactiveError::DisposedAccess));
    assert_eq!(tree.consume(0, 5), Ok(50));
    assert_eq!(tree.dispose(7), Err(ReactiveError::UnknownScope));
}

#[test]
fn flow_branches_on_parity() {
    let mut rt = Runtime::new();
    let value = rt.create_cell(ROOT, 0).unwrap();
    let one = rt.create_cell(ROOT, 100).unwrap();
    let other = rt.create_cell(ROOT, 200).unwrap();
    let is_odd = Expr::Odd(Box::new(read(value)));
    let view = rt.create_effect(
        ROOT,
        Expr::Select(Box::new(is_odd), Box::new(read(one)), Box::new(read(other))),
    )
    .unwrap();
    assert_eq!(rt.output(view), Ok(200));
    rt.handle(&vec![(value, 1)]).unwrap();
    assert_eq!(rt.output(view), Ok(100));
    assert_eq!(rt.dependencies(view), Ok(vec![value, one]));
    rt.handle(&vec![(other, 201)]).unwrap();
    assert_eq!(rt.run_count(view), Ok(2));
    rt.handle(&vec![(value, -3)]).unwrap();
    assert_eq!(rt.output(view), Ok(100));
    rt.handle(&vec![(value, -4)]).unwrap();
    assert_eq!(rt.output(view), Ok(201));
    assert_eq!(rt.drain_count(), 4);
}

#[test]
fn attributes_patched_in_place() {
    let old = vec![(1, 10), (2, 20), (3, 30)];
    let new = vec![(3, 30), (2, 21), (4, 40)];
    assert_eq!(
        reconcile_attrs(&old, &new),
        Ok(vec![AttrPatch::Remove(1), AttrPatch::Assign(2, 21), AttrPatch::Assign(4, 40)])
    );
    assert_eq!(reconcile_attrs(&old, &old.clone()), Ok(vec![]));
    assert_eq!(reconcile_attrs(&vec![(1, 1), (1, 2)], &vec![]), Err(ReactiveError::DuplicateKey));
    assert_eq!(reconcile_attrs(&vec![], &vec![(5, 1), (5, 1)]), Err(ReactiveError::DuplicateKey));
}

#[test]
fn plain_write_waits_for_the_next_pass() {
    let mut rt = Runtime::new();
    let a = rt.create_cell(ROOT, 1).unwrap();
    let e = rt.create_effect(ROOT, read(a)).unwrap();
    assert_eq!(rt.write(a, 2), Ok(true));
    assert_eq!(rt.output(e), Ok(1));
    assert_eq!(rt.run_count(e), Ok(1));
    rt.handle(&vec![]).unwrap();
    assert_eq!(rt.output(e), Ok(2));
    assert_eq!(rt.run_count(e), Ok(2));
    rt.handle(&vec![]).unwrap();
    assert_eq!(rt.run_count(e), Ok(2));
    assert_eq!(rt.drain_count(), 2);
}

#[test]
fn keyed_list_moves_only_rows_out_of_order() {
    let patches = reconcile_keys(&vec![1, 2, 3, 4, 5], &vec![2, 1, 3, 5, 4]).unwrap();
    let moves = patches.iter().filter(|p| matches!(p, Patch::Move(_, _))).count();
    assert_eq!(moves, 2);
    let patches = reconcile_keys(&vec![1, 2, 3, 4], &vec![4, 3, 2, 1]).unwrap();
    let moves = patches.iter().filter(|p| matches!(p, Patch::Move(_, _))).count();
    assert_eq!(moves, 3);
    let patches = reconcile_keys(&vec![1, 2, 3], &vec![9, 1, 3, 2]).unwrap();
    assert_eq!(patches, vec![Patch::Create(9, 0), Patch::Move(2, 3)]);
}
