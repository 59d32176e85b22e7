//! Equations in which every variable occurs exactly twice: their generalized
//! equations satisfy C1 and C2, and every step of the search keeps them so.
use vstd::prelude::*;
use crate::word::{apply, image, lookup, Label, Letter};
use crate::ge::{
    base_occurrences, c1_violation_of, c1_violations, c2_violations, id_span, labelled_vars, laid_out, mentions,
    var_index, Boundary,
    C1Violation, C2Violation, GeneralizedEquation,
};
use crate::engine::{accepting, moved_side, moves, same_front, tail_of};

verus! {

/// How many times the letter `l` occurs in `w`.
pub open spec fn count(w: Seq<Letter>, l: Letter) -> nat
    decreases w.len(),
{
    if w.len() == 0 {
        0
    } else {
        count(w.drop_last(), l) + if w.last() == l {
            1nat
        } else {
            0nat
        }
    }
}

/// Every variable of `w` occurs in it exactly twice.
pub open spec fn quadratic(w: Seq<Letter>) -> bool {
    forall|x: u64|
        #[trigger] count(w, Label::Variable(x)) == 0 || count(w, Label::Variable(x)) == 2
}

proof fn lemma_count_concat(a: Seq<Letter>, b: Seq<Letter>, l: Letter)
    ensures
        count(a + b, l) == count(a, l) + count(b, l),
    decreases b.len(),
{
    if b.len() == 0 {
        assert(a + b =~= a);
    } else {
        assert((a + b).drop_last() =~= a + b.drop_last());
        lemma_count_concat(a, b.drop_last(), l);
    }
}

proof fn lemma_count_single(a: Letter, l: Letter)
    ensures
        count(seq![a], l) == if a == l {
            1nat
        } else {
            0nat
        },
{
    assert(seq![a].drop_last() =~= Seq::<Letter>::empty());
    assert(count(Seq::<Letter>::empty(), l) == 0);
    assert(seq![a].last() == a);
}

proof fn lemma_count_pos(w: Seq<Letter>, k: int)
    requires
        0 <= k < w.len(),
    ensures
        count(w, w[k]) >= 1,
    decreases w.len(),
{
    if k < w.len() - 1 {
        lemma_count_pos(w.drop_last(), k);
    }
}

/// Counting the first letter apart from the rest.
proof fn lemma_count_front(w: Seq<Letter>, l: Letter)
    requires
        w.len() > 0,
    ensures
        count(w, l) == count(w.drop_first(), l) + if w[0] == l {
            1nat
        } else {
            0nat
        },
{
    assert(w =~= seq![w[0]] + w.drop_first());
    lemma_count_concat(seq![w[0]], w.drop_first(), l);
    lemma_count_single(w[0], l);
}

pub(crate) proof fn lemma_apply_concat(b: Seq<(u64, Seq<Letter>)>, u: Seq<Letter>, v: Seq<Letter>)
    ensures
        apply(b, u + v) == apply(b, u) + apply(b, v),
    decreases v.len(),
{
    if v.len() == 0 {
        assert(u + v =~= u);
        assert(apply(b, u) + apply(b, v) =~= apply(b, u));
    } else {
        assert((u + v).drop_last() =~= u + v.drop_last());
        lemma_apply_concat(b, u, v.drop_last());
        assert(apply(b, u + v) =~= apply(b, u) + apply(b, v));
    }
}

pub(crate) proof fn lemma_apply_front(b: Seq<(u64, Seq<Letter>)>, w: Seq<Letter>)
    requires
        w.len() > 0,
    ensures
        apply(b, w) == image(b, w[0]) + apply(b, w.drop_first()),
{
    assert(w =~= seq![w[0]] + w.drop_first());
    lemma_apply_concat(b, seq![w[0]], w.drop_first());
    assert(seq![w[0]].drop_last() =~= Seq::<Letter>::empty());
    assert(apply(b, seq![w[0]]) == apply(b, Seq::<Letter>::empty()) + image(b, w[0]));
    assert(apply(b, seq![w[0]]) =~= image(b, w[0]));
}

/// What one binding does to a letter: the bound variable becomes its word, the
/// rest stay.
pub(crate) proof fn lemma_image_single(x: u64, rho: Seq<Letter>, l: Letter)
    ensures
        image(seq![(x, rho)], l) == if l == Label::<u64, u64>::Variable(x) {
            rho
        } else {
            seq![l]
        },
{
    let b = seq![(x, rho)];
    assert(b.drop_last() =~= Seq::<(u64, Seq<Letter>)>::empty());
    match l {
        Label::Constant(_) => {},
        Label::Variable(y) => {
            if y != x {
                assert(lookup(b, y) == lookup(b.drop_last(), y));
            }
        },
    }
}

/// Counting after substituting `rho` for `x`.
proof fn lemma_apply_count(x: u64, rho: Seq<Letter>, w: Seq<Letter>, z: Letter)
    ensures
        count(apply(seq![(x, rho)], w), z) == (if z == Label::<u64, u64>::Variable(x) {
            0
        } else {
            count(w, z)
        }) + count(w, Label::Variable(x)) * count(rho, z),
    decreases w.len(),
{
    let xl = Label::<u64, u64>::Variable(x);
    if w.len() == 0 {
        assert(count(w, xl) * count(rho, z) == 0) by (nonlinear_arith)
            requires
                count(w, xl) == 0,
        ;
    } else {
        let p = w.drop_last();
        lemma_apply_count(x, rho, p, z);
        lemma_image_single(x, rho, w.last());
        lemma_count_concat(apply(seq![(x, rho)], p), image(seq![(x, rho)], w.last()), z);
        let cp = count(p, xl);
        let cr = count(rho, z);
        if w.last() == xl {
            assert(count(w, xl) == cp + 1);
            assert((cp + 1) * cr == cp * cr + cr) by (nonlinear_arith);
        } else {
            assert(count(w, xl) == cp);
            lemma_count_single(w.last(), z);
        }
    }
}

/// Counting over both sides after a step's substitution, before any cancellation.
proof fn lemma_sides_count(x: u64, rho: Seq<Letter>, l: Seq<Letter>, r: Seq<Letter>, z: Letter)
    ensures
        count(apply(seq![(x, rho)], l) + apply(seq![(x, rho)], r), z) == (if z
            == Label::<u64, u64>::Variable(x) {
            0
        } else {
            count(l + r, z)
        }) + count(l + r, Label::Variable(x)) * count(rho, z),
{
    let b = seq![(x, rho)];
    lemma_apply_concat(b, l, r);
    lemma_apply_count(x, rho, l + r, z);
}

/// The first letter of a side after substituting `rho` for `x`.
pub(crate) proof fn lemma_front_after(x: u64, rho: Seq<Letter>, w: Seq<Letter>)
    requires
        w.len() > 0,
        rho.len() > 0,
    ensures
        apply(seq![(x, rho)], w).len() > 0,
        apply(seq![(x, rho)], w)[0] == if w[0] == Label::<u64, u64>::Variable(x) {
            rho[0]
        } else {
            w[0]
        },
{
    lemma_apply_front(seq![(x, rho)], w);
    lemma_image_single(x, rho, w[0]);
}

/// A step of the search keeps every variable occurring exactly twice: a
/// substitution that erases a variable removes both its occurrences, and one that
/// grows a variable adds as many letters as the cancellation of the fronts takes away.
pub proof fn lemma_step_keeps_quadratic(l: Seq<Letter>, r: Seq<Letter>, i: int)
    requires
        quadratic(l + r),
        !accepting(l, r),
        !same_front(l, r),
        0 <= i < moves(l, r).len(),
    ensures
        quadratic(moved_side(l, moves(l, r)[i]) + moved_side(r, moves(l, r)[i])),
{
    let mv = moves(l, r)[i];
    let x = mv.0;
    let rho = mv.1;
    let xl = Label::<u64, u64>::Variable(x);
    let b = seq![(x, rho)];
    let a1 = apply(b, l);
    let a2 = apply(b, r);
    let s = l + r;
    if l.len() > 0 && l[0] == xl {
        lemma_count_concat(l, r, xl);
        lemma_count_pos(l, 0);
    }
    if r.len() > 0 && r[0] == xl {
        lemma_count_concat(l, r, xl);
        lemma_count_pos(r, 0);
    }
    if rho.len() == 0 {
        assert forall|y: u64|
            #[trigger] count(moved_side(l, mv) + moved_side(r, mv), Label::Variable(y)) == 0
                || count(moved_side(l, mv) + moved_side(r, mv), Label::Variable(y)) == 2 by {
            lemma_sides_count(x, rho, l, r, Label::Variable(y));
            assert(count(s, Label::Variable(y)) == 0 || count(s, Label::Variable(y)) == 2);
        }
    } else {
        assert(l.len() > 0 && r.len() > 0);
        lemma_front_after(x, rho, l);
        lemma_front_after(x, rho, r);
        let f = rho[0];
        assert(a1[0] == f && a2[0] == f);
        // the grown variable occurs at a front, and so does the front letter of `rho`
        assert(count(s, xl) == 2);
        assert(f is Variable ==> count(s, f) == 2) by {
            if f is Variable {
                if l[0] == f {
                    lemma_count_concat(l, r, f);
                    lemma_count_pos(l, 0);
                } else {
                    lemma_count_concat(l, r, f);
                    lemma_count_pos(r, 0);
                }
                let fx = f->Variable_0;
                assert(count(s, Label::Variable(fx)) == 0 || count(s, Label::Variable(fx)) == 2);
            }
        }
        assert(f != xl);
        assert(rho.len() == 2 && rho[1] == xl);
        assert forall|y: u64|
            #[trigger] count(moved_side(l, mv) + moved_side(r, mv), Label::Variable(y)) == 0
                || count(moved_side(l, mv) + moved_side(r, mv), Label::Variable(y)) == 2 by {
            let z = Label::<u64, u64>::Variable(y);
            lemma_sides_count(x, rho, l, r, z);
            lemma_count_front(a1, z);
            lemma_count_front(a2, z);
            lemma_count_concat(a1, a2, z);
            lemma_count_concat(a1.drop_first(), a2.drop_first(), z);
            assert(rho =~= seq![rho[0], rho[1]]);
            assert(count(rho, z) == (if f == z { 1nat } else { 0nat }) + if xl == z {
                1nat
            } else {
                0nat
            }) by {
                assert(rho.drop_last() =~= seq![rho[0]]);
                lemma_count_single(rho[0], z);
            }
            assert(count(s, z) == 0 || count(s, z) == 2);
        }
    }
}

proof fn lemma_var_index_entries(w: Seq<Letter>)
    requires
        w.len() < usize::MAX,
    ensures
        forall|i: int|
            0 <= i < var_index(w).len() ==> (#[trigger] var_index(w)[i]).2.0 < w.len() && w[var_index(
                w,
            )[i].2.0 as int] == Label::<u64, u64>::Variable(var_index(w)[i].0),
    decreases w.len(),
{
    if w.len() > 0 {
        let p = w.drop_last();
        lemma_var_index_entries(p);
        assert forall|i: int| 0 <= i < var_index(w).len() implies (#[trigger] var_index(w)[i]).2.0
            < w.len() && w[var_index(w)[i].2.0 as int] == Label::<u64, u64>::Variable(
            var_index(w)[i].0,
        ) by {
            if i < var_index(p).len() {
                assert(var_index(w)[i] == var_index(p)[i]);
            }
        }
    }
}

proof fn lemma_base_occurrences_laid(
    left: Seq<Letter>,
    right: Seq<Letter>,
    ge: GeneralizedEquation<u64, u64>,
    x: u64,
    n: nat,
)
    requires
        laid_out(left, right, ge),
        left.len() + right.len() < usize::MAX,
        n <= ge.bases@.len(),
    ensures
        base_occurrences(ge.bases@, x, n).len() == count((left + right).take(n as int), Label::Variable(x)),
        forall|j: int|
            0 <= j < base_occurrences(ge.bases@, x, n).len() ==> (#[trigger] base_occurrences(ge.bases@, x, n)[j]).0
                < n && (left + right)[base_occurrences(ge.bases@, x, n)[j].0 as int] == Label::<u64, u64>::Variable(x),
    decreases n,
{
    let w = left + right;
    if n > 0 {
        lemma_base_occurrences_laid(left, right, ge, x, (n - 1) as nat);
        assert(w.take(n as int).drop_last() =~= w.take(n - 1));
        let o = base_occurrences(ge.bases@, x, n);
        let op = base_occurrences(ge.bases@, x, (n - 1) as nat);
        assert(ge.bases@[n - 1].label == w[n - 1]);
        assert forall|j: int| 0 <= j < o.len() implies (#[trigger] o[j]).0 < n && w[o[j].0 as int]
            == Label::<u64, u64>::Variable(x) by {
            if j < op.len() {
                assert(o[j] == op[j]);
            }
        }
    } else {
        assert(w.take(0) =~= Seq::<Letter>::empty());
    }
}

proof fn lemma_labelled_laid(left: Seq<Letter>, right: Seq<Letter>, ge: GeneralizedEquation<u64, u64>, n: nat)
    requires
        laid_out(left, right, ge),
        n <= ge.bases@.len(),
    ensures
        forall|j: int|
            0 <= j < labelled_vars(ge.bases@, n).len() ==> exists|k: int|
                0 <= k < n && (left + right)[k] == Label::<u64, u64>::Variable(
                    #[trigger] labelled_vars(ge.bases@, n)[j],
                ),
    decreases n,
{
    let w = left + right;
    if n > 0 {
        lemma_labelled_laid(left, right, ge, (n - 1) as nat);
        let lv = labelled_vars(ge.bases@, n);
        let lp = labelled_vars(ge.bases@, (n - 1) as nat);
        assert(ge.bases@[n - 1].label == w[n - 1]);
        assert forall|j: int| 0 <= j < lv.len() implies exists|k: int|
            0 <= k < n && w[k] == Label::<u64, u64>::Variable(#[trigger] lv[j]) by {
            if j < lp.len() {
                assert(lv[j] == lp[j]);
                let k = choose|k: int| 0 <= k < n - 1 && w[k] == Label::<u64, u64>::Variable(lp[j]);
                assert(0 <= k < n && w[k] == Label::<u64, u64>::Variable(lv[j]));
            } else {
                assert(w[n - 1] == Label::<u64, u64>::Variable(lv[j]));
            }
        }
    }
}

proof fn lemma_no_c2(left: Seq<Letter>, right: Seq<Letter>, ge: GeneralizedEquation<u64, u64>, n: nat)
    requires
        laid_out(left, right, ge),
        n <= ge.bases@.len(),
    ensures
        c2_violations(ge.bases@, n) == Seq::<C2Violation<u64>>::empty(),
    decreases n,
{
    if n > 0 {
        lemma_no_c2(left, right, ge, (n - 1) as nat);
        let b = ge.bases@[n - 1];
        assert(b.boundaries@.len() == 2);
        assert(c2_violations(ge.bases@, n) =~= Seq::<C2Violation<u64>>::empty());
    }
}

proof fn lemma_no_c1(left: Seq<Letter>, right: Seq<Letter>, ge: GeneralizedEquation<u64, u64>, n: nat)
    requires
        laid_out(left, right, ge),
        quadratic(left + right),
        left.len() + right.len() < usize::MAX,
        n <= mentions(ge).len(),
    ensures
        c1_violations(ge, n) == Seq::<C1Violation<u64>>::empty(),
    decreases n,
{
    if n > 0 {
        let w = left + right;
        lemma_no_c1(left, right, ge, (n - 1) as nat);
        let m = mentions(ge);
        let x = m[n - 1];
        let xl = Label::<u64, u64>::Variable(x);
        let lv = labelled_vars(ge.bases@, ge.bases@.len());
        let k: int = if n - 1 < lv.len() {
            lemma_labelled_laid(left, right, ge, ge.bases@.len());
            assert(lv[n - 1] == x);
            choose|k: int| 0 <= k < ge.bases@.len() && w[k] == Label::<u64, u64>::Variable(lv[n - 1])
        } else {
            lemma_var_index_entries(w);
            let e = ge.var2base@[n - 1 - lv.len()];
            assert(x == e.0);
            e.2.0 as int
        };
        assert(0 <= k < w.len() && w[k] == xl);
        lemma_count_pos(w, k);
        assert(count(w, xl) == 0 || count(w, xl) == 2);
        lemma_base_occurrences_laid(left, right, ge, x, ge.bases@.len());
        assert(w.take(w.len() as int) =~= w);
        let o = base_occurrences(ge.bases@, x, ge.bases@.len());
        assert(o.len() == 2);
        let k0 = o[0].0 as int;
        let k1 = o[1].0 as int;
        assert(ge.bases@[k0].boundaries@ == seq![Boundary(k0 as usize), Boundary((k0 + 1) as usize)]);
        assert(ge.bases@[k1].boundaries@ == seq![Boundary(k1 as usize), Boundary((k1 + 1) as usize)]);
        assert(id_span(ge.bases@, o[0]) == Some(1int));
        assert(id_span(ge.bases@, o[1]) == Some(1int));
        assert(c1_violation_of(ge, x) is None);
        assert(c1_violations(ge, n) =~= Seq::<C1Violation<u64>>::empty());
    }
}

/// The generalized equation laid out from an equation in which every variable
/// occurs exactly twice has no C1 and no C2 violation.
pub proof fn lemma_quadratic_consistent(
    left: Seq<Letter>,
    right: Seq<Letter>,
    ge: GeneralizedEquation<u64, u64>,
)
    requires
        laid_out(left, right, ge),
        quadratic(left + right),
        left.len() + right.len() < usize::MAX,
    ensures
        c1_violations(ge, mentions(ge).len()) == Seq::<C1Violation<u64>>::empty(),
        c2_violations(ge.bases@, ge.bases@.len()) == Seq::<C2Violation<u64>>::empty(),
{
    lemma_no_c1(left, right, ge, mentions(ge).len());
    lemma_no_c2(left, right, ge, ge.bases@.len());
}

/// Cancelling a common first letter keeps every variable occurring exactly twice.
pub proof fn lemma_cancel_keeps_quadratic(l: Seq<Letter>, r: Seq<Letter>)
    requires
        quadratic(l + r),
        same_front(l, r),
    ensures
        quadratic(tail_of(l) + tail_of(r)),
{
    let f = l[0];
    let s = l + r;
    lemma_count_concat(l, r, f);
    lemma_count_pos(l, 0);
    if f is Variable {
        let fx = f->Variable_0;
        assert(count(s, Label::Variable(fx)) == 0 || count(s, Label::Variable(fx)) == 2);
    }
    assert forall|y: u64|
        #[trigger] count(tail_of(l) + tail_of(r), Label::Variable(y)) == 0 || count(
            tail_of(l) + tail_of(r),
            Label::Variable(y),
        ) == 2 by {
        let z = Label::<u64, u64>::Variable(y);
        lemma_count_front(l, z);
        lemma_count_front(r, z);
        lemma_count_concat(l, r, z);
        lemma_count_concat(l.drop_first(), r.drop_first(), z);
        assert(count(s, z) == 0 || count(s, z) == 2);
    }
}

/// A substitution that does not erase its variable makes both fronts its first letter.
pub(crate) proof fn lemma_fronts_agree(l: Seq<Letter>, r: Seq<Letter>, i: int)
    requires
        !accepting(l, r),
        !same_front(l, r),
        0 <= i < moves(l, r).len(),
        moves(l, r)[i].1.len() > 0,
    ensures
        apply(seq![moves(l, r)[i]], l).len() > 0,
        apply(seq![moves(l, r)[i]], r).len() > 0,
        apply(seq![moves(l, r)[i]], l)[0] == moves(l, r)[i].1[0],
        apply(seq![moves(l, r)[i]], r)[0] == moves(l, r)[i].1[0],
{
    let mv = moves(l, r)[i];
    assert(l.len() > 0 && r.len() > 0);
    lemma_front_after(mv.0, mv.1, l);
    lemma_front_after(mv.0, mv.1, r);
}

/// The length of a word after substituting `rho` for `x`.
proof fn lemma_apply_len(x: u64, rho: Seq<Letter>, w: Seq<Letter>)
    ensures
        apply(seq![(x, rho)], w).len() + count(w, Label::Variable(x)) == w.len() + count(
            w,
            Label::Variable(x),
        ) * rho.len(),
    decreases w.len(),
{
    let xl = Label::<u64, u64>::Variable(x);
    if w.len() == 0 {
        assert(count(w, xl) * rho.len() == 0) by (nonlinear_arith)
            requires
                count(w, xl) == 0,
        ;
    } else {
        let p = w.drop_last();
        lemma_apply_len(x, rho, p);
        lemma_image_single(x, rho, w.last());
        let cp = count(p, xl);
        if w.last() == xl {
            assert((cp + 1) * rho.len() == cp * rho.len() + rho.len()) by (nonlinear_arith);
        }
    }
}

/// A step of the search never makes an equation in which every variable occurs
/// exactly twice longer, so the bound on the length of the line never cuts such
/// a search short.
pub proof fn lemma_step_keeps_length(l: Seq<Letter>, r: Seq<Letter>, i: int)
    requires
        quadratic(l + r),
        !accepting(l, r),
        !same_front(l, r),
        0 <= i < moves(l, r).len(),
    ensures
        moved_side(l, moves(l, r)[i]).len() + moved_side(r, moves(l, r)[i]).len() <= l.len() + r.len(),
{
    let mv = moves(l, r)[i];
    let xl = Label::<u64, u64>::Variable(mv.0);
    lemma_apply_len(mv.0, mv.1, l);
    lemma_apply_len(mv.0, mv.1, r);
    lemma_count_concat(l, r, xl);
    assert(count(l + r, xl) == 0 || count(l + r, xl) == 2);
    let cl = count(l, xl);
    let cr = count(r, xl);
    if mv.1.len() == 0 {
        assert(cl * mv.1.len() == 0 && cr * mv.1.len() == 0) by (nonlinear_arith)
            requires
                mv.1.len() == 0,
        ;
    } else {
        lemma_fronts_agree(l, r, i);
        assert(mv.1.len() == 2);
        assert(cl * mv.1.len() == 2 * cl && cr * mv.1.len() == 2 * cr) by (nonlinear_arith)
            requires
                mv.1.len() == 2,
        ;
    }
}

} // verus!
