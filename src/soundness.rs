//! Why a node of the search that is reached from an equation and accepted yields
//! a unifier of that equation: the images of the variables take both original
//! sides to words that agree on a prefix and continue with the node's two sides.
use vstd::prelude::*;
use crate::word::{apply, image, lookup, Label, Letter};
use crate::engine::{accepting, constants_of, moved_side, moves, rebind, same_front, tail_of};
use crate::invariants::{lemma_apply_concat, lemma_fronts_agree, lemma_image_single};

verus! {

/// Every variable of `w` has a binding in `b`.
pub open spec fn covers(b: Seq<(u64, Seq<Letter>)>, w: Seq<Letter>) -> bool {
    forall|k: int| 0 <= k < w.len() && (#[trigger] w[k]) is Variable ==> lookup(b, w[k]->Variable_0) is Some
}

/// `b` binds every variable of `left = right` and takes the two sides to a common
/// prefix followed by `l` and by `r`.
pub open spec fn tracks(
    left: Seq<Letter>,
    right: Seq<Letter>,
    b: Seq<(u64, Seq<Letter>)>,
    l: Seq<Letter>,
    r: Seq<Letter>,
) -> bool {
    &&& covers(b, left)
    &&& covers(b, right)
    &&& exists|p: Seq<Letter>| apply(b, left) == p + l && apply(b, right) == p + r
}

/// Each bound word reduced to its constants.
pub open spec fn erase_all(b: Seq<(u64, Seq<Letter>)>) -> Seq<(u64, Seq<Letter>)> {
    b.map_values(|p: (u64, Seq<Letter>)| (p.0, constants_of(p.1)))
}

/// Every binding binds a variable to itself.
pub open spec fn identity(b: Seq<(u64, Seq<Letter>)>) -> bool {
    forall|i: int| 0 <= i < b.len() ==> (#[trigger] b[i]).1 == seq![Label::<u64, u64>::Variable(b[i].0)]
}

pub proof fn lemma_lookup_push(b: Seq<(u64, Seq<Letter>)>, e: (u64, Seq<Letter>), y: u64)
    ensures
        lookup(b.push(e), y) == if e.0 == y {
            Some(e.1)
        } else {
            lookup(b, y)
        },
{
    assert(b.push(e).drop_last() =~= b);
}

proof fn lemma_lookup_rebind(b: Seq<(u64, Seq<Letter>)>, m: (u64, Seq<Letter>), y: u64)
    ensures
        lookup(rebind(b, m), y) == match lookup(b, y) {
            Some(w) => Some(apply(seq![m], w)),
            None => None,
        },
    decreases b.len(),
{
    if b.len() > 0 {
        assert(rebind(b, m).drop_last() =~= rebind(b.drop_last(), m));
        lemma_lookup_rebind(b.drop_last(), m, y);
    }
}

proof fn lemma_lookup_erase(b: Seq<(u64, Seq<Letter>)>, y: u64)
    ensures
        lookup(erase_all(b), y) == match lookup(b, y) {
            Some(w) => Some(constants_of(w)),
            None => None,
        },
    decreases b.len(),
{
    if b.len() > 0 {
        assert(erase_all(b).drop_last() =~= erase_all(b.drop_last()));
        lemma_lookup_erase(b.drop_last(), y);
    }
}

proof fn lemma_lookup_identity(b: Seq<(u64, Seq<Letter>)>, y: u64)
    requires
        identity(b),
        lookup(b, y) is Some,
    ensures
        lookup(b, y) == Some(seq![Label::<u64, u64>::Variable(y)]),
    decreases b.len(),
{
    if b.last().0 != y {
        lemma_lookup_identity(b.drop_last(), y);
    }
}

proof fn lemma_apply_single(b: Seq<(u64, Seq<Letter>)>, l: Letter)
    ensures
        apply(b, seq![l]) == image(b, l),
{
    assert(seq![l].drop_last() =~= Seq::<Letter>::empty());
    assert(apply(b, seq![l]) == apply(b, Seq::<Letter>::empty()) + image(b, l));
    assert(apply(b, seq![l]) =~= image(b, l));
}

proof fn lemma_constants_concat(u: Seq<Letter>, v: Seq<Letter>)
    ensures
        constants_of(u + v) == constants_of(u) + constants_of(v),
    decreases v.len(),
{
    if v.len() == 0 {
        assert(u + v =~= u);
        assert(constants_of(u) + constants_of(v) =~= constants_of(u));
    } else {
        assert((u + v).drop_last() =~= u + v.drop_last());
        lemma_constants_concat(u, v.drop_last());
        assert(constants_of(u + v) =~= constants_of(u) + constants_of(v));
    }
}

proof fn lemma_covers_prefix(b: Seq<(u64, Seq<Letter>)>, w: Seq<Letter>)
    requires
        covers(b, w),
        w.len() > 0,
    ensures
        covers(b, w.drop_last()),
{
    assert forall|k: int| 0 <= k < w.drop_last().len() && (#[trigger] w.drop_last()[k]) is Variable implies lookup(
        b,
        w.drop_last()[k]->Variable_0,
    ) is Some by {
        assert(w.drop_last()[k] == w[k]);
    }
}

/// Substituting after the images is the same as taking the substituted images.
proof fn lemma_compose(b: Seq<(u64, Seq<Letter>)>, m: (u64, Seq<Letter>), w: Seq<Letter>)
    requires
        covers(b, w),
    ensures
        apply(seq![m], apply(b, w)) == apply(rebind(b, m), w),
    decreases w.len(),
{
    if w.len() == 0 {
        assert(apply(seq![m], Seq::<Letter>::empty()) == Seq::<Letter>::empty());
    } else {
        let p = w.drop_last();
        let l = w.last();
        lemma_covers_prefix(b, w);
        lemma_compose(b, m, p);
        lemma_apply_concat(seq![m], apply(b, p), image(b, l));
        match l {
            Label::Constant(_) => {
                lemma_apply_single(seq![m], l);
                lemma_image_single(m.0, m.1, l);
            },
            Label::Variable(y) => {
                assert(w[w.len() - 1] is Variable);
                lemma_lookup_rebind(b, m, y);
            },
        }
    }
}

/// Erasing the variables of the images is the same as keeping the constants of the image.
proof fn lemma_erase(b: Seq<(u64, Seq<Letter>)>, w: Seq<Letter>)
    requires
        covers(b, w),
    ensures
        apply(erase_all(b), w) == constants_of(apply(b, w)),
    decreases w.len(),
{
    if w.len() == 0 {
        assert(constants_of(Seq::<Letter>::empty()) == Seq::<Letter>::empty());
    } else {
        let p = w.drop_last();
        let l = w.last();
        lemma_covers_prefix(b, w);
        lemma_erase(b, p);
        lemma_constants_concat(apply(b, p), image(b, l));
        match l {
            Label::Constant(_) => {
                assert(seq![l].drop_last() =~= Seq::<Letter>::empty());
                assert(constants_of(Seq::<Letter>::empty()) == Seq::<Letter>::empty());
                assert(constants_of(seq![l]) =~= seq![l]);
            },
            Label::Variable(y) => {
                assert(w[w.len() - 1] is Variable);
                lemma_lookup_erase(b, y);
            },
        }
    }
}

/// Images that bind every variable to itself leave a word unchanged.
proof fn lemma_identity_apply(b: Seq<(u64, Seq<Letter>)>, w: Seq<Letter>)
    requires
        covers(b, w),
        identity(b),
    ensures
        apply(b, w) == w,
    decreases w.len(),
{
    if w.len() > 0 {
        let p = w.drop_last();
        lemma_covers_prefix(b, w);
        lemma_identity_apply(b, p);
        if let Label::Variable(y) = w.last() {
            assert(w[w.len() - 1] is Variable);
            lemma_lookup_identity(b, y);
        }
        assert(w =~= p + seq![w.last()]);
    }
}

/// At the root, the identity images track the equation with an empty prefix.
pub proof fn lemma_root_tracks(left: Seq<Letter>, right: Seq<Letter>, b: Seq<(u64, Seq<Letter>)>)
    requires
        covers(b, left),
        covers(b, right),
        identity(b),
    ensures
        tracks(left, right, b, left, right),
{
    lemma_identity_apply(b, left);
    lemma_identity_apply(b, right);
    let p = Seq::<Letter>::empty();
    assert(apply(b, left) == p + left);
    assert(apply(b, right) == p + right);
}

/// Cancelling a common front moves it into the common prefix.
pub proof fn lemma_cancel_tracks(
    left: Seq<Letter>,
    right: Seq<Letter>,
    b: Seq<(u64, Seq<Letter>)>,
    l: Seq<Letter>,
    r: Seq<Letter>,
)
    requires
        tracks(left, right, b, l, r),
        same_front(l, r),
    ensures
        tracks(left, right, b, tail_of(l), tail_of(r)),
{
    let p = choose|p: Seq<Letter>| apply(b, left) == p + l && apply(b, right) == p + r;
    let q = p.push(l[0]);
    assert(p + l =~= q + tail_of(l));
    assert(p + r =~= q + tail_of(r));
}

/// A substitution step keeps the images tracking the equation.
pub proof fn lemma_move_tracks(
    left: Seq<Letter>,
    right: Seq<Letter>,
    b: Seq<(u64, Seq<Letter>)>,
    l: Seq<Letter>,
    r: Seq<Letter>,
    i: int,
)
    requires
        tracks(left, right, b, l, r),
        !accepting(l, r),
        !same_front(l, r),
        0 <= i < moves(l, r).len(),
    ensures
        tracks(left, right, rebind(b, moves(l, r)[i]), moved_side(l, moves(l, r)[i]), moved_side(r, moves(l, r)[i])),
{
    let mv = moves(l, r)[i];
    let nb = rebind(b, mv);
    let p = choose|p: Seq<Letter>| apply(b, left) == p + l && apply(b, right) == p + r;
    assert forall|k: int| 0 <= k < left.len() && (#[trigger] left[k]) is Variable implies lookup(
        nb,
        left[k]->Variable_0,
    ) is Some by {
        lemma_lookup_rebind(b, mv, left[k]->Variable_0);
    }
    assert forall|k: int| 0 <= k < right.len() && (#[trigger] right[k]) is Variable implies lookup(
        nb,
        right[k]->Variable_0,
    ) is Some by {
        lemma_lookup_rebind(b, mv, right[k]->Variable_0);
    }
    lemma_compose(b, mv, left);
    lemma_compose(b, mv, right);
    let s = seq![mv];
    lemma_apply_concat(s, p, l);
    lemma_apply_concat(s, p, r);
    let a1 = apply(s, l);
    let a2 = apply(s, r);
    if mv.1.len() == 0 {
        assert(apply(nb, left) == apply(s, p) + moved_side(l, mv));
        assert(apply(nb, right) == apply(s, p) + moved_side(r, mv));
    } else {
        lemma_fronts_agree(l, r, i);
        let q = apply(s, p).push(mv.1[0]);
        assert(apply(s, p) + a1 =~= q + moved_side(l, mv));
        assert(apply(s, p) + a2 =~= q + moved_side(r, mv));
    }
}

/// Images that track an equation to an accepting node, with their variables
/// erased, unify the equation.
pub proof fn lemma_accepted_unifies(left: Seq<Letter>, right: Seq<Letter>, b: Seq<(u64, Seq<Letter>)>)
    requires
        tracks(left, right, b, Seq::empty(), Seq::empty()),
    ensures
        apply(erase_all(b), left) == apply(erase_all(b), right),
{
    let p = choose|p: Seq<Letter>|
        apply(b, left) == p + Seq::<Letter>::empty() && apply(b, right) == p + Seq::<Letter>::empty();
    assert(apply(b, left) =~= apply(b, right));
    lemma_erase(b, left);
    lemma_erase(b, right);
}

/// Every letter of `w` is a constant.
pub open spec fn constant_word(w: Seq<Letter>) -> bool {
    forall|k: int| 0 <= k < w.len() ==> (#[trigger] w[k]) is Constant
}

proof fn lemma_constants_only(w: Seq<Letter>)
    ensures
        constant_word(constants_of(w)),
    decreases w.len(),
{
    if w.len() > 0 {
        lemma_constants_only(w.drop_last());
        let p = constants_of(w.drop_last());
        assert forall|k: int| 0 <= k < constants_of(w).len() implies (#[trigger] constants_of(w)[k]) is Constant by {
            if k < p.len() {
                assert(constants_of(w)[k] == p[k]);
            }
        }
    }
}

/// With its variables erased, the substitution binds every variable the images
/// bind, each to a word of constants.
pub proof fn lemma_erased_bindings(b: Seq<(u64, Seq<Letter>)>, left: Seq<Letter>, right: Seq<Letter>)
    requires
        covers(b, left),
        covers(b, right),
    ensures
        covers(erase_all(b), left),
        covers(erase_all(b), right),
        forall|i: int| 0 <= i < erase_all(b).len() ==> constant_word(#[trigger] erase_all(b)[i].1),
{
    assert forall|k: int| 0 <= k < left.len() && (#[trigger] left[k]) is Variable implies lookup(
        erase_all(b),
        left[k]->Variable_0,
    ) is Some by {
        lemma_lookup_erase(b, left[k]->Variable_0);
    }
    assert forall|k: int| 0 <= k < right.len() && (#[trigger] right[k]) is Variable implies lookup(
        erase_all(b),
        right[k]->Variable_0,
    ) is Some by {
        lemma_lookup_erase(b, right[k]->Variable_0);
    }
    assert forall|i: int| 0 <= i < erase_all(b).len() implies constant_word(#[trigger] erase_all(b)[i].1) by {
        lemma_constants_only(b[i].1);
    }
}

/// Erasing every variable of the identity images leaves the constants of a word.
pub proof fn lemma_identity_erased(b: Seq<(u64, Seq<Letter>)>, w: Seq<Letter>)
    requires
        covers(b, w),
        identity(b),
    ensures
        apply(erase_all(b), w) == constants_of(w),
{
    lemma_identity_apply(b, w);
    lemma_erase(b, w);
}

} // verus!
