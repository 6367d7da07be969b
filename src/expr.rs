//! Computations are described as expressions over cells, so that the cells a
//! run reads (its dependencies) are a function of the expression and of the
//! current cell values. An expression reads cells only, never another
//! computation, so no dependency cycle can arise.

use vstd::prelude::*;

verus! {

/// A tracked computation body.
pub enum Expr {
    /// A constant.
    Lit(i64),
    /// The current value of a cell, read with tracking.
    Read(usize),
    /// Two's-complement sum of two sub-expressions.
    Add(Box<Expr>, Box<Expr>),
    /// `1` when both sides are equal, `0` otherwise.
    Equal(Box<Expr>, Box<Expr>),
    /// `1` when the value is odd, `0` when it is even.
    Odd(Box<Expr>),
    /// Evaluates the condition; a non-zero value takes the first branch.
    /// Only the branch taken is read.
    Select(Box<Expr>, Box<Expr>, Box<Expr>),
}

/// Every cell that `e` may read is below `n`.
pub open spec fn cells_below(e: Expr, n: nat) -> bool
    decreases e,
{
    match e {
        Expr::Lit(_) => true,
        Expr::Read(c) => c < n,
        Expr::Add(a, b) => cells_below(*a, n) && cells_below(*b, n),
        Expr::Equal(a, b) => cells_below(*a, n) && cells_below(*b, n),
        Expr::Odd(a) => cells_below(*a, n),
        Expr::Select(c, t, f) => cells_below(*c, n) && cells_below(*t, n) && cells_below(*f, n),
    }
}

/// The value of `e` when cell `i` holds `vals[i]`.
pub open spec fn eval(e: Expr, vals: Seq<i64>) -> i64
    decreases e,
{
    match e {
        Expr::Lit(v) => v,
        Expr::Read(c) => vals[c as int],
        Expr::Add(a, b) => eval(*a, vals).wrapping_add(eval(*b, vals)),
        Expr::Equal(a, b) => if eval(*a, vals) == eval(*b, vals) { 1 } else { 0 },
        Expr::Odd(a) => if eval(*a, vals) % 2 == 1 { 1 } else { 0 },
        Expr::Select(c, t, f) => if eval(*c, vals) != 0 { eval(*t, vals) } else { eval(*f, vals) },
    }
}

/// The cells read while evaluating `e`, in the order they are read.
pub open spec fn reads(e: Expr, vals: Seq<i64>) -> Seq<usize>
    decreases e,
{
    match e {
        Expr::Lit(_) => seq![],
        Expr::Read(c) => seq![c],
        Expr::Add(a, b) => reads(*a, vals) + reads(*b, vals),
        Expr::Equal(a, b) => reads(*a, vals) + reads(*b, vals),
        Expr::Odd(a) => reads(*a, vals),
        Expr::Select(c, t, f) => reads(*c, vals) + if eval(*c, vals) != 0 {
            reads(*t, vals)
        } else {
            reads(*f, vals)
        },
    }
}

/// What a run reads is below the bound of the expression.
pub proof fn lemma_reads_below(e: Expr, vals: Seq<i64>, n: nat)
    requires
        cells_below(e, n),
    ensures
        forall|k: int| 0 <= k < reads(e, vals).len() ==> (#[trigger] reads(e, vals)[k]) < n,
    decreases e,
{
    let r = reads(e, vals);
    match e {
        Expr::Lit(_) => {
            assert(r =~= Seq::<usize>::empty());
        },
        Expr::Read(_) => {},
        Expr::Add(a, b) => {
            lemma_reads_below(*a, vals, n);
            lemma_reads_below(*b, vals, n);
            lemma_concat_below(reads(*a, vals), reads(*b, vals), n);
        },
        Expr::Equal(a, b) => {
            lemma_reads_below(*a, vals, n);
            lemma_reads_below(*b, vals, n);
            lemma_concat_below(reads(*a, vals), reads(*b, vals), n);
        },
        Expr::Odd(a) => {
            lemma_reads_below(*a, vals, n);
            assert(r == reads(*a, vals));
        },
        Expr::Select(c, t, f) => {
            lemma_reads_below(*c, vals, n);
            lemma_reads_below(*t, vals, n);
            lemma_reads_below(*f, vals, n);
            if eval(*c, vals) != 0 {
                lemma_concat_below(reads(*c, vals), reads(*t, vals), n);
            } else {
                lemma_concat_below(reads(*c, vals), reads(*f, vals), n);
            }
        },
    }
}

proof fn lemma_concat_below(x: Seq<usize>, y: Seq<usize>, n: nat)
    requires
        forall|k: int| 0 <= k < x.len() ==> (#[trigger] x[k]) < n,
        forall|k: int| 0 <= k < y.len() ==> (#[trigger] y[k]) < n,
    ensures
        forall|k: int| 0 <= k < (x + y).len() ==> (#[trigger] (x + y)[k]) < n,
{
    assert forall|k: int| 0 <= k < (x + y).len() implies (#[trigger] (x + y)[k]) < n by {
        if k >= x.len() {
            assert((x + y)[k] == y[k - x.len()]);
        }
    }
}

/// An element is in a concatenation exactly when it is in one of the parts.
pub proof fn lemma_contains_concat<T>(x: Seq<T>, y: Seq<T>, c: T)
    ensures
        (x + y).contains(c) == (x.contains(c) || y.contains(c)),
{
    if x.contains(c) {
        let k = choose|k: int| 0 <= k < x.len() && x[k] == c;
        assert((x + y)[k] == c);
    }
    if y.contains(c) {
        let k = choose|k: int| 0 <= k < y.len() && y[k] == c;
        assert((x + y)[x.len() + k] == c);
    }
    if (x + y).contains(c) {
        let k = choose|k: int| 0 <= k < (x + y).len() && (x + y)[k] == c;
        if k < x.len() {
            assert(x[k] == c);
        } else {
            assert(y[k - x.len()] == c);
        }
    }
}

/// Changing a cell that a run does not read changes neither its value nor
/// what it reads.
pub proof fn lemma_unread_frame(e: Expr, vals: Seq<i64>, c: usize, x: i64)
    requires
        cells_below(e, vals.len()),
        c < vals.len(),
        !reads(e, vals).contains(c),
    ensures
        eval(e, vals.update(c as int, x)) == eval(e, vals),
        reads(e, vals.update(c as int, x)) == reads(e, vals),
    decreases e,
{
    let w = vals.update(c as int, x);
    match e {
        Expr::Lit(_) => {},
        Expr::Read(d) => {
            assert(reads(e, vals)[0] == d);
            assert(d != c);
            assert(w[d as int] == vals[d as int]);
        },
        Expr::Add(a, b) => {
            lemma_contains_concat(reads(*a, vals), reads(*b, vals), c);
            lemma_unread_frame(*a, vals, c, x);
            lemma_unread_frame(*b, vals, c, x);
        },
        Expr::Equal(a, b) => {
            lemma_contains_concat(reads(*a, vals), reads(*b, vals), c);
            lemma_unread_frame(*a, vals, c, x);
            lemma_unread_frame(*b, vals, c, x);
        },
        Expr::Odd(a) => {
            lemma_unread_frame(*a, vals, c, x);
        },
        Expr::Select(g, t, f) => {
            if eval(*g, vals) != 0 {
                lemma_contains_concat(reads(*g, vals), reads(*t, vals), c);
                lemma_unread_frame(*g, vals, c, x);
                lemma_unread_frame(*t, vals, c, x);
            } else {
                lemma_contains_concat(reads(*g, vals), reads(*f, vals), c);
                lemma_unread_frame(*g, vals, c, x);
                lemma_unread_frame(*f, vals, c, x);
            }
        },
    }
}

/// Adding a cell changes no run of an expression that names only earlier cells.
pub proof fn lemma_extend_frame(e: Expr, vals: Seq<i64>, x: i64)
    requires
        cells_below(e, vals.len()),
    ensures
        eval(e, vals.push(x)) == eval(e, vals),
        reads(e, vals.push(x)) == reads(e, vals),
    decreases e,
{
    match e {
        Expr::Lit(_) => {},
        Expr::Read(d) => {},
        Expr::Add(a, b) => {
            lemma_extend_frame(*a, vals, x);
            lemma_extend_frame(*b, vals, x);
        },
        Expr::Equal(a, b) => {
            lemma_extend_frame(*a, vals, x);
            lemma_extend_frame(*b, vals, x);
        },
        Expr::Odd(a) => {
            lemma_extend_frame(*a, vals, x);
        },
        Expr::Select(g, t, f) => {
            lemma_extend_frame(*g, vals, x);
            lemma_extend_frame(*t, vals, x);
            lemma_extend_frame(*f, vals, x);
        },
    }
}

/// Checks that every cell the expression names is below `n`.
pub fn check_cells_below(e: &Expr, n: usize) -> (r: bool)
    ensures
        r == cells_below(*e, n as nat),
    decreases e,
{
    match e {
        Expr::Lit(_) => true,
        Expr::Read(c) => *c < n,
        Expr::Add(a, b) => check_cells_below(a, n) && check_cells_below(b, n),
        Expr::Equal(a, b) => check_cells_below(a, n) && check_cells_below(b, n),
        Expr::Odd(a) => check_cells_below(a, n),
        Expr::Select(c, t, f) => check_cells_below(c, n) && check_cells_below(t, n)
            && check_cells_below(f, n),
    }
}

/// Evaluates `e` over `vals`, appending every cell read to `log`.
pub fn evaluate(e: &Expr, vals: &Vec<i64>, log: &mut Vec<usize>) -> (r: i64)
    requires
        cells_below(*e, vals@.len()),
    ensures
        r == eval(*e, vals@),
        final(log)@ == old(log)@ + reads(*e, vals@),
    decreases e,
{
    match e {
        Expr::Lit(v) => *v,
        Expr::Read(c) => {
            log.push(*c);
            vals[*c]
        },
        Expr::Add(a, b) => {
            let x = evaluate(a, vals, log);
            let y = evaluate(b, vals, log);
            proof {
                assert(final(log)@ =~= old(log)@ + reads(*e, vals@));
            }
            x.wrapping_add(y)
        },
        Expr::Equal(a, b) => {
            let x = evaluate(a, vals, log);
            let y = evaluate(b, vals, log);
            proof {
                assert(final(log)@ =~= old(log)@ + reads(*e, vals@));
            }
            if x == y { 1 } else { 0 }
        },
        Expr::Odd(a) => {
            let x = evaluate(a, vals, log);
            let m = x % 2;
            proof {
                assert(m == 0 <==> x % 2 == 0);
            }
            if m != 0 { 1 } else { 0 }
        },
        Expr::Select(c, t, f) => {
            let x = evaluate(c, vals, log);
            let r = if x != 0 { evaluate(t, vals, log) } else { evaluate(f, vals, log) };
            proof {
                assert(final(log)@ =~= old(log)@ + reads(*e, vals@));
            }
            r
        },
    }
}

} // verus!
