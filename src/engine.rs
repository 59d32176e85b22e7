//! Elementary transformations of an equation and the bounded search over them.
//!
//! A node holds the current equation and, for every variable of the original
//! equation, the word that variable has become through the substitutions made
//! on the way from the root. A step looks at the first letters of both sides:
//! equal letters are cancelled; otherwise the step branches over the ways the
//! two fronts can align (a variable empty, or one side's front a prefix of the
//! other's), each branch a substitution of one variable.
//!
//! The nodes are word pairs, not generalized equations; `invariants` shows that
//! the generalized equation laid out from any node of an equation in which each
//! variable occurs twice passes C1 and C2. The search is depth-first, with the
//! equations of the current path as a cycle guard, a bound on the length of a
//! node and a bound on the depth; `reaches` states exactly what it explores.
use vstd::prelude::*;
use crate::soundness::{
    constant_word, lemma_erased_bindings, lemma_identity_erased, covers, erase_all, identity, lemma_accepted_unifies, lemma_cancel_tracks, lemma_lookup_push,
    lemma_move_tracks, lemma_root_tracks, tracks,
};
use crate::word::{apply, lookup, unifies, Label, Letter, Unifier, Word, WordEquation, copy_letters, words_eq};

verus! {

/// The current equation and the images of the original variables.
#[derive(Debug)]
pub struct Node {
    pub lhs: Vec<Letter>,
    pub rhs: Vec<Letter>,
    pub images: Unifier<u64, u64>,
}

/// Outcome of the search.
#[derive(Debug)]
pub enum SatResult<C, X> {
    Sat(Unifier<C, X>),
    Unsat,
    /// The substitution read off an accepting node failed the final check against
    /// the original equation: an unsound transformation, never a legitimate answer.
    /// `solve` is proved never to return it.
    InvariantFailure,
}

/// Both sides are empty: every remaining variable may be taken empty.
pub open spec fn accepting(l: Seq<Letter>, r: Seq<Letter>) -> bool {
    l.len() == 0 && r.len() == 0
}

/// Both sides start with the same letter.
pub open spec fn same_front(l: Seq<Letter>, r: Seq<Letter>) -> bool {
    l.len() > 0 && r.len() > 0 && l[0] == r[0]
}

/// The substitutions a step branches over, for fronts that differ.
pub open spec fn moves(l: Seq<Letter>, r: Seq<Letter>) -> Seq<(u64, Seq<Letter>)> {
    if l.len() == 0 && r.len() == 0 {
        Seq::empty()
    } else if l.len() == 0 || r.len() == 0 {
        let f = if l.len() == 0 { r[0] } else { l[0] };
        match f {
            Label::Variable(x) => seq![(x, Seq::<Letter>::empty())],
            Label::Constant(_) => Seq::empty(),
        }
    } else {
        match (l[0], r[0]) {
            (Label::Constant(_), Label::Constant(_)) => Seq::empty(),
            (Label::Variable(x), Label::Constant(a)) => seq![
                (x, Seq::<Letter>::empty()),
                (x, seq![Label::Constant(a), Label::Variable(x)]),
            ],
            (Label::Constant(a), Label::Variable(x)) => seq![
                (x, Seq::<Letter>::empty()),
                (x, seq![Label::Constant(a), Label::Variable(x)]),
            ],
            (Label::Variable(x), Label::Variable(y)) => seq![
                (x, Seq::<Letter>::empty()),
                (y, Seq::<Letter>::empty()),
                (x, seq![Label::Variable(y), Label::Variable(x)]),
                (y, seq![Label::Variable(x), Label::Variable(y)]),
            ],
        }
    }
}

/// The images after substituting `m` into each of them.
pub open spec fn rebind(b: Seq<(u64, Seq<Letter>)>, m: (u64, Seq<Letter>)) -> Seq<(u64, Seq<Letter>)> {
    b.map_values(|p: (u64, Seq<Letter>)| (p.0, apply(seq![m], p.1)))
}

/// The constants of a word, in order.
pub open spec fn constants_of(w: Seq<Letter>) -> Seq<Letter>
    decreases w.len(),
{
    if w.len() == 0 {
        Seq::empty()
    } else {
        constants_of(w.drop_last()) + if w.last() is Constant {
            seq![w.last()]
        } else {
            Seq::empty()
        }
    }
}

/// A word without its first letter; the empty word stays empty.
pub open spec fn tail_of(w: Seq<Letter>) -> Seq<Letter> {
    if w.len() > 0 {
        w.drop_first()
    } else {
        w
    }
}

/// One side after the substitution `mv`; a substitution that does not erase its
/// variable makes both fronts equal, and that letter is cancelled at once.
pub open spec fn moved_side(w: Seq<Letter>, mv: (u64, Seq<Letter>)) -> Seq<Letter> {
    if mv.1.len() == 0 {
        apply(seq![mv], w)
    } else {
        tail_of(apply(seq![mv], w))
    }
}

/// `m` is the node that the substitution `mv` turns `n` into.
pub open spec fn moved(n: Node, mv: (u64, Seq<Letter>), m: Node) -> bool {
    &&& m.lhs@ == moved_side(n.lhs@, mv)
    &&& m.rhs@ == moved_side(n.rhs@, mv)
    &&& m.images.bindings() == rebind(n.images.bindings(), mv)
}

/// `m` is `n` with the first letter of each side removed.
pub open spec fn cancelled(n: Node, m: Node) -> bool {
    &&& m.lhs@ == tail_of(n.lhs@)
    &&& m.rhs@ == tail_of(n.rhs@)
    &&& m.images.bindings() == n.images.bindings()
}

/// A word with every occurrence of `x` replaced by `r`.
fn substitute(w: &Vec<Letter>, x: u64, r: &Vec<Letter>) -> (o: Vec<Letter>)
    ensures
        o@ == apply(seq![(x, r@)], w@),
{
    let mut u = Unifier::new();
    u.bind(x, Word(copy_letters(r)));
    assert(u.bindings() =~= seq![(x, r@)]);
    u.apply_word(w)
}

impl Unifier<u64, u64> {
    /// A copy with the same bindings.
    pub fn duplicate(&self) -> (r: Self)
        ensures
            r.bindings() == self.bindings(),
    {
        let mut r = Unifier::new();
        let mut i: usize = 0;
        while i < self.unifications.len()
            invariant
                0 <= i <= self.unifications@.len(),
                self.bindings().len() == self.unifications@.len(),
                r.bindings() == self.bindings().take(i as int),
            decreases self.unifications@.len() - i,
        {
            let p = &self.unifications[i];
            r.bind(p.0, Word(copy_letters(&p.1.0)));
            i = i + 1;
            assert(r.bindings() =~= self.bindings().take(i as int));
        }
        assert(self.bindings().take(i as int) =~= self.bindings());
        r
    }
}

/// The node that substituting `r` for `x` turns `n` into.
fn apply_move(n: &Node, x: u64, r: &Vec<Letter>) -> (m: Node)
    ensures
        moved(*n, (x, r@), m),
{
    let raw = substitute_node(n, x, r);
    if r.len() == 0 {
        raw
    } else {
        cancel(&raw)
    }
}

/// `n` with `r` substituted for `x` on both sides and in every image.
fn substitute_node(n: &Node, x: u64, r: &Vec<Letter>) -> (m: Node)
    ensures
        m.lhs@ == apply(seq![(x, r@)], n.lhs@),
        m.rhs@ == apply(seq![(x, r@)], n.rhs@),
        m.images.bindings() == rebind(n.images.bindings(), (x, r@)),
{
    let lhs = substitute(&n.lhs, x, r);
    let rhs = substitute(&n.rhs, x, r);
    let mut images = Unifier::new();
    let ghost b = n.images.bindings();
    let mut i: usize = 0;
    while i < n.images.unifications.len()
        invariant
            b == n.images.bindings(),
            0 <= i <= b.len(),
            b.len() == n.images.unifications@.len(),
            images.bindings() == rebind(b, (x, r@)).take(i as int),
        decreases b.len() - i,
    {
        let p = &n.images.unifications[i];
        let w = substitute(&p.1.0, x, r);
        images.bind(p.0, Word(w));
        i = i + 1;
        assert(images.bindings() =~= rebind(b, (x, r@)).take(i as int));
    }
    assert(rebind(b, (x, r@)).take(i as int) =~= rebind(b, (x, r@)));
    Node { lhs, rhs, images }
}

/// `n` with the first letter of each side removed.
fn cancel(n: &Node) -> (m: Node)
    ensures
        cancelled(*n, m),
{
    if n.lhs.len() == 0 || n.rhs.len() == 0 {
        let lhs = if n.lhs.len() == 0 { Vec::new() } else { tail_letters(&n.lhs) };
        let rhs = if n.rhs.len() == 0 { Vec::new() } else { tail_letters(&n.rhs) };
        assert(n.lhs@.len() == 0 ==> lhs@ =~= n.lhs@);
        assert(n.rhs@.len() == 0 ==> rhs@ =~= n.rhs@);
        return Node { lhs, rhs, images: n.images.duplicate() };
    }
    Node { lhs: tail_letters(&n.lhs), rhs: tail_letters(&n.rhs), images: n.images.duplicate() }
}

/// A word without its first letter.
fn tail_letters(w: &Vec<Letter>) -> (r: Vec<Letter>)
    requires
        w@.len() > 0,
    ensures
        r@ == w@.drop_first(),
{
    let mut lhs: Vec<Letter> = Vec::new();
    let mut i: usize = 1;
    while i < w.len()
        invariant
            1 <= i <= w@.len(),
            lhs@ == w@.subrange(1, i as int),
        decreases w@.len() - i,
    {
        lhs.push(w[i]);
        i = i + 1;
        assert(lhs@ =~= w@.subrange(1, i as int));
    }
    assert(lhs@ =~= w@.drop_first());
    lhs
}

/// The successors of a node that is not accepting: the cancelled node where both
/// fronts agree, else one node per substitution of `moves`, in that order.
pub fn successors(n: &Node) -> (r: Vec<Node>)
    requires
        !accepting(n.lhs@, n.rhs@),
    ensures
        same_front(n.lhs@, n.rhs@) ==> r@.len() == 1 && cancelled(*n, r@[0]),
        !same_front(n.lhs@, n.rhs@) ==> r@.len() == moves(n.lhs@, n.rhs@).len() && forall|i: int|
            0 <= i < r@.len() ==> moved(*n, moves(n.lhs@, n.rhs@)[i], #[trigger] r@[i]),
{
    let ghost ms = moves(n.lhs@, n.rhs@);
    let mut r: Vec<Node> = Vec::new();
    let empty: Vec<Letter> = Vec::new();
    if n.lhs.len() > 0 && n.rhs.len() > 0 && crate::word::letter_eq(&n.lhs[0], &n.rhs[0]) {
        r.push(cancel(n));
        return r;
    }
    if n.lhs.len() == 0 || n.rhs.len() == 0 {
        let f = if n.lhs.len() == 0 { n.rhs[0] } else { n.lhs[0] };
        match f {
            Label::Variable(x) => {
                r.push(apply_move(n, x, &empty));
                assert(empty@ =~= Seq::<Letter>::empty());
            },
            Label::Constant(_) => {},
        }
        return r;
    }
    match (n.lhs[0], n.rhs[0]) {
        (Label::Constant(_), Label::Constant(_)) => {},
        (Label::Variable(x), Label::Constant(a)) | (Label::Constant(a), Label::Variable(x)) => {
            r.push(apply_move(n, x, &empty));
            let grown: Vec<Letter> = vec![Label::Constant(a), Label::Variable(x)];
            r.push(apply_move(n, x, &grown));
            assert(empty@ =~= Seq::<Letter>::empty());
            assert(grown@ =~= seq![Label::Constant(a), Label::Variable(x)]);
        },
        (Label::Variable(x), Label::Variable(y)) => {
            r.push(apply_move(n, x, &empty));
            r.push(apply_move(n, y, &empty));
            let yx: Vec<Letter> = vec![Label::Variable(y), Label::Variable(x)];
            r.push(apply_move(n, x, &yx));
            let xy: Vec<Letter> = vec![Label::Variable(x), Label::Variable(y)];
            r.push(apply_move(n, y, &xy));
            assert(empty@ =~= Seq::<Letter>::empty());
            assert(yx@ =~= seq![Label::Variable(y), Label::Variable(x)]);
            assert(xy@ =~= seq![Label::Variable(x), Label::Variable(y)]);
        },
    }
    r
}


/// Sides of the equations on the current path of the search.
pub type Path = Vec<(Vec<Letter>, Vec<Letter>)>;

/// The equations on a path, as pairs of sides.
pub open spec fn sides_of(path: Seq<(Vec<Letter>, Vec<Letter>)>) -> Seq<(Seq<Letter>, Seq<Letter>)> {
    path.map_values(|p: (Vec<Letter>, Vec<Letter>)| (p.0@, p.1@))
}

/// How many successors a node that is not accepting has.
pub open spec fn child_count(l: Seq<Letter>, r: Seq<Letter>) -> nat {
    if same_front(l, r) {
        1
    } else {
        moves(l, r).len()
    }
}

/// The sides of successor `i` of a node that is not accepting.
pub open spec fn child_sides(l: Seq<Letter>, r: Seq<Letter>, i: int) -> (Seq<Letter>, Seq<Letter>) {
    if same_front(l, r) {
        (tail_of(l), tail_of(r))
    } else {
        (moved_side(l, moves(l, r)[i]), moved_side(r, moves(l, r)[i]))
    }
}

/// An accepting node can be reached from `l = r` through successors, with
/// `fuel` steps at most, through equations no longer than `bound` that repeat
/// neither one another nor an equation of `seen`. A node has at most four
/// successors.
pub open spec fn reaches(
    l: Seq<Letter>,
    r: Seq<Letter>,
    seen: Seq<(Seq<Letter>, Seq<Letter>)>,
    bound: nat,
    fuel: nat,
) -> bool
    decreases fuel,
{
    if accepting(l, r) {
        true
    } else if fuel == 0 || l.len() + r.len() > bound || seen.contains((l, r)) {
        false
    } else {
        let s = seen.push((l, r));
        let f = (fuel - 1) as nat;
        ||| (0 < child_count(l, r) && reaches(child_sides(l, r, 0).0, child_sides(l, r, 0).1, s, bound, f))
        ||| (1 < child_count(l, r) && reaches(child_sides(l, r, 1).0, child_sides(l, r, 1).1, s, bound, f))
        ||| (2 < child_count(l, r) && reaches(child_sides(l, r, 2).0, child_sides(l, r, 2).1, s, bound, f))
        ||| (3 < child_count(l, r) && reaches(child_sides(l, r, 3).0, child_sides(l, r, 3).1, s, bound, f))
    }
}

/// Whether `(l, r)` already stands on the path.
fn on_path(path: &Path, l: &Vec<Letter>, r: &Vec<Letter>) -> (found: bool)
    ensures
        found == exists|k: int| 0 <= k < path@.len() && (#[trigger] path@[k]).0@ == l@ && path@[k].1@ == r@,
{
    let mut k: usize = 0;
    while k < path.len()
        invariant
            0 <= k <= path@.len(),
            forall|m: int| 0 <= m < k ==> !((#[trigger] path@[m]).0@ == l@ && path@[m].1@ == r@),
        decreases path@.len() - k,
    {
        if words_eq(&path[k].0, l) && words_eq(&path[k].1, r) {
            return true;
        }
        k = k + 1;
    }
    false
}

/// Depth-first search from `n` for an accepting node; returns its images.
/// A node longer than `bound`, one that repeats an equation of the path, and
/// one reached when `fuel` has run out are dead. Accepting nodes are never expanded.
/// Images found track every equation that the images of `n` track, to an
/// accepting node.
pub fn search(n: &Node, path: &mut Path, bound: usize, fuel: u64) -> (r: Option<Unifier<u64, u64>>)
    ensures
        r matches Some(u) ==> forall|left: Seq<Letter>, right: Seq<Letter>|
            #[trigger] tracks(left, right, n.images.bindings(), n.lhs@, n.rhs@) ==> tracks(
                left,
                right,
                u.bindings(),
                Seq::empty(),
                Seq::empty(),
            ),
        r is None ==> !reaches(n.lhs@, n.rhs@, sides_of(old(path)@), bound as nat, fuel as nat),
        final(path)@ == old(path)@,
        accepting(n.lhs@, n.rhs@) ==> (r matches Some(u) && u.bindings() == n.images.bindings()),
        !accepting(n.lhs@, n.rhs@) && (fuel == 0 || n.lhs@.len() + n.rhs@.len() > bound) ==> r is None,
    decreases fuel,
{
    if n.lhs.len() == 0 && n.rhs.len() == 0 {
        assert(n.lhs@ =~= Seq::<Letter>::empty() && n.rhs@ =~= Seq::<Letter>::empty());
        return Some(n.images.duplicate());
    }
    if fuel == 0 || n.lhs.len() > bound || n.rhs.len() > bound - n.lhs.len() {
        return None;
    }
    if on_path(path, &n.lhs, &n.rhs) {
        proof {
            let k = choose|k: int| 0 <= k < path@.len() && (#[trigger] path@[k]).0@ == n.lhs@ && path@[k].1@ == n.rhs@;
            assert(sides_of(path@)[k] == (n.lhs@, n.rhs@));
        }
        return None;
    }
    proof {
        if sides_of(path@).contains((n.lhs@, n.rhs@)) {
            let k = choose|k: int| 0 <= k < sides_of(path@).len() && sides_of(path@)[k] == (n.lhs@, n.rhs@);
            assert(path@[k].0@ == n.lhs@ && path@[k].1@ == n.rhs@);
        }
    }
    let children = successors(n);
    let ghost before = path@;
    path.push((copy_letters(&n.lhs), copy_letters(&n.rhs)));
    let ghost pushed = path@;
    let ghost seen = sides_of(before).push((n.lhs@, n.rhs@));
    assert(sides_of(pushed) =~= seen);
    let mut i: usize = 0;
    while i < children.len()
        invariant
            path@ == pushed,
            pushed.len() == before.len() + 1,
            pushed.drop_last() == before,
            sides_of(pushed) == seen,
            seen == sides_of(before).push((n.lhs@, n.rhs@)),
            !sides_of(before).contains((n.lhs@, n.rhs@)),
            children@.len() == child_count(n.lhs@, n.rhs@),
            forall|k: int|
                0 <= k < i ==> !#[trigger] reaches(
                    child_sides(n.lhs@, n.rhs@, k).0,
                    child_sides(n.lhs@, n.rhs@, k).1,
                    seen,
                    bound as nat,
                    (fuel - 1) as nat,
                ),
            before == old(path)@,
            !accepting(n.lhs@, n.rhs@),
            n.lhs@.len() + n.rhs@.len() <= bound,
            0 <= i <= children@.len(),
            fuel > 0,
            same_front(n.lhs@, n.rhs@) ==> children@.len() == 1 && cancelled(*n, children@[0]),
            !same_front(n.lhs@, n.rhs@) ==> children@.len() == moves(n.lhs@, n.rhs@).len() && forall|
                k: int,
            |
                0 <= k < children@.len() ==> moved(*n, moves(n.lhs@, n.rhs@)[k], #[trigger] children@[k]),
        decreases children@.len() - i,
    {
        let found = search(&children[i], path, bound, fuel - 1);
        proof {
            let c = children@[i as int];
            assert(c.lhs@ == child_sides(n.lhs@, n.rhs@, i as int).0);
            assert(c.rhs@ == child_sides(n.lhs@, n.rhs@, i as int).1);
        }
        if found.is_some() {
            proof {
                let c = children@[i as int];
                assert forall|left: Seq<Letter>, right: Seq<Letter>|
                    #[trigger] tracks(left, right, n.images.bindings(), n.lhs@, n.rhs@) implies tracks(
                    left,
                    right,
                    found->Some_0.bindings(),
                    Seq::empty(),
                    Seq::empty(),
                ) by {
                    if same_front(n.lhs@, n.rhs@) {
                        lemma_cancel_tracks(left, right, n.images.bindings(), n.lhs@, n.rhs@);
                    } else {
                        lemma_move_tracks(left, right, n.images.bindings(), n.lhs@, n.rhs@, i as int);
                    }
                    assert(tracks(left, right, c.images.bindings(), c.lhs@, c.rhs@));
                }
            }
            let _ = path.pop();
            return found;
        }
        i = i + 1;
    }
    proof {
        assert(child_count(n.lhs@, n.rhs@) <= 4);
        assert forall|k: int| 0 <= k < 4 && k < child_count(n.lhs@, n.rhs@) implies !reaches(
            child_sides(n.lhs@, n.rhs@, k).0,
            child_sides(n.lhs@, n.rhs@, k).1,
            seen,
            bound as nat,
            (fuel - 1) as nat,
        ) by {}
    }
    let _ = path.pop();
    None
}

/// The substitution with each image reduced to its constants: every variable
/// left in an accepting node is taken empty.
fn read_off(images: &Unifier<u64, u64>) -> (u: Unifier<u64, u64>)
    ensures
        u.bindings() == erase_all(images.bindings()),
{
    let mut u = Unifier::new();
    let mut i: usize = 0;
    while i < images.unifications.len()
        invariant
            0 <= i <= images.unifications@.len(),
            images.bindings().len() == images.unifications@.len(),
            u.bindings().len() == i,
            forall|k: int|
                0 <= k < i ==> (#[trigger] u.bindings()[k]).0 == images.bindings()[k].0
                    && u.bindings()[k].1 == constants_of(images.bindings()[k].1),
        decreases images.unifications@.len() - i,
    {
        let w = &images.unifications[i].1.0;
        let mut c: Vec<Letter> = Vec::new();
        let mut j: usize = 0;
        while j < w.len()
            invariant
                0 <= j <= w@.len(),
                c@ == constants_of(w@.take(j as int)),
            decreases w@.len() - j,
        {
            assert(w@.take(j + 1).drop_last() =~= w@.take(j as int));
            if let Label::Constant(_) = w[j] {
                c.push(w[j]);
            }
            j = j + 1;
        }
        assert(w@.take(j as int) =~= w@);
        let ghost old_u = u.bindings();
        u.bind(images.unifications[i].0, Word(c));
        assert(forall|k: int| 0 <= k < i ==> u.bindings()[k] == old_u[k]);
        i = i + 1;
    }
    assert(u.bindings() =~= erase_all(images.bindings()));
    u
}

/// Binds each variable of `w` that has no binding yet to itself.
fn add_identity(u: &mut Unifier<u64, u64>, w: &Vec<Letter>)
    requires
        identity(old(u).bindings()),
    ensures
        identity(final(u).bindings()),
        covers(final(u).bindings(), w@),
        forall|y: u64| lookup(old(u).bindings(), y) is Some ==> #[trigger] lookup(final(u).bindings(), y) is Some,
{
    let ghost start = u.bindings();
    let mut k: usize = 0;
    while k < w.len()
        invariant
            0 <= k <= w@.len(),
            identity(u.bindings()),
            forall|m: int|
                0 <= m < k && (#[trigger] w@[m]) is Variable ==> lookup(u.bindings(), w@[m]->Variable_0) is Some,
            forall|y: u64| lookup(start, y) is Some ==> #[trigger] lookup(u.bindings(), y) is Some,
            start == old(u).bindings(),
        decreases w@.len() - k,
    {
        if let Label::Variable(x) = w[k] {
            if u.get(x).is_none() {
                let me: Vec<Letter> = vec![Label::Variable(x)];
                let ghost old_u = u.bindings();
                u.bind(x, Word(me));
                assert(me@ =~= seq![Label::<u64, u64>::Variable(x)]);
                assert(forall|i: int| 0 <= i < old_u.len() ==> u.bindings()[i] == old_u[i]);
                assert forall|y: u64| lookup(old_u, y) is Some implies #[trigger] lookup(u.bindings(), y) is Some by {
                    lemma_lookup_push(old_u, (x, me@), y);
                }
                proof {
                    lemma_lookup_push(old_u, (x, me@), x);
                }
            }
        }
        k = k + 1;
    }
}

/// Each variable of the equation, once, bound to itself.
fn identity_images(eq: &WordEquation<u64, u64>) -> (u: Unifier<u64, u64>)
    ensures
        identity(u.bindings()),
        covers(u.bindings(), eq.left@),
        covers(u.bindings(), eq.right@),
{
    let mut u = Unifier::new();
    add_identity(&mut u, &eq.left.0);
    add_identity(&mut u, &eq.right.0);
    u
}

/// Some letter of `w` is a variable.
pub open spec fn has_variable(w: Seq<Letter>) -> bool {
    exists|k: int| 0 <= k < w.len() && (#[trigger] w[k]) is Variable
}

fn contains_variable(w: &Vec<Letter>) -> (r: bool)
    ensures
        r == has_variable(w@),
{
    let mut k: usize = 0;
    while k < w.len()
        invariant
            0 <= k <= w@.len(),
            forall|m: int| 0 <= m < k ==> !((#[trigger] w@[m]) is Variable),
        decreases w@.len() - k,
    {
        if let Label::Variable(_) = w[k] {
            assert(w@[k as int] is Variable);
            return true;
        }
        k = k + 1;
    }
    false
}

/// Decides the equation. It first takes every variable empty, which settles every
/// equation whose sides have the same constants; sides without variables are
/// then unsatisfiable. Otherwise it runs the bounded search. A substitution is
/// reported only after it has been checked against the equation, and binds every
/// variable of the equation to a word of constants.
pub fn solve(equation: WordEquation<u64, u64>) -> (r: SatResult<u64, u64>)
    ensures
        r matches SatResult::Sat(u) ==> unifies(u.bindings(), equation) && covers(u.bindings(), equation.left@)
            && covers(u.bindings(), equation.right@) && forall|i: int|
            0 <= i < u.bindings().len() ==> constant_word(#[trigger] u.bindings()[i].1),
        !(r is InvariantFailure),
        constants_of(equation.left@) == constants_of(equation.right@) ==> r is Sat,
        equation.left@ == equation.right@ ==> r is Sat,
        !has_variable(equation.left@) && !has_variable(equation.right@) ==> (r is Sat
            <==> equation.left@ == equation.right@),
        r is Unsat ==> (!has_variable(equation.left@) && !has_variable(equation.right@)) || !reaches(
            equation.left@,
            equation.right@,
            Seq::empty(),
            line_bound(equation.left@, equation.right@),
            depth_from(line_bound(equation.left@, equation.right@), 1),
        ),
{
    let ghost left = equation.left@;
    let ghost right = equation.right@;
    let start = identity_images(&equation);
    let empty = read_off(&start);
    proof {
        lemma_identity_erased(start.bindings(), left);
        lemma_identity_erased(start.bindings(), right);
        lemma_erased_bindings(start.bindings(), left, right);
        if !has_variable(left) && !has_variable(right) {
            lemma_no_variable_constants(left);
            lemma_no_variable_constants(right);
        }
    }
    if crate::word::verify(&empty, &equation) {
        return SatResult::Sat(empty);
    }
    if !contains_variable(&equation.left.0) && !contains_variable(&equation.right.0) {
        proof {
            lemma_no_variable_constants(left);
            lemma_no_variable_constants(right);
        }
        return SatResult::Unsat;
    }
    let n = equation.left.0.len() as u128 + equation.right.0.len() as u128;
    let bound: usize = if 2 * n <= usize::MAX as u128 {
        (2 * n) as usize
    } else {
        usize::MAX
    };
    let root = Node {
        lhs: copy_letters(&equation.left.0),
        rhs: copy_letters(&equation.right.0),
        images: start,
    };
    let mut path: Path = Vec::new();
    proof {
        lemma_root_tracks(left, right, root.images.bindings());
        assert(sides_of(path@) =~= Seq::<(Seq<Letter>, Seq<Letter>)>::empty());
        assert(bound as nat == line_bound(left, right));
    }
    match search(&root, &mut path, bound, depth_limit(bound)) {
        Some(images) => {
            proof {
                lemma_accepted_unifies(left, right, images.bindings());
                lemma_erased_bindings(images.bindings(), left, right);
            }
            let u = read_off(&images);
            if crate::word::verify(&u, &equation) {
                SatResult::Sat(u)
            } else {
                SatResult::InvariantFailure
            }
        },
        None => SatResult::Unsat,
    }
}

/// A word without variables is its own constants.
proof fn lemma_no_variable_constants(w: Seq<Letter>)
    requires
        !has_variable(w),
    ensures
        constants_of(w) == w,
    decreases w.len(),
{
    if w.len() > 0 {
        let p = w.drop_last();
        assert(!has_variable(p)) by {
            if has_variable(p) {
                let k = choose|k: int| 0 <= k < p.len() && (#[trigger] p[k]) is Variable;
                assert(w[k] is Variable);
            }
        }
        lemma_no_variable_constants(p);
        assert(w[w.len() - 1] is Constant);
        assert(w =~= p.push(w.last()));
    }
}

/// The longest equation the search of `solve` expands: twice the length of the
/// equation, capped at `usize::MAX`.
pub open spec fn line_bound(left: Seq<Letter>, right: Seq<Letter>) -> nat {
    if 2 * (left.len() + right.len()) <= usize::MAX {
        2 * (left.len() + right.len())
    } else {
        usize::MAX as nat
    }
}

/// `d` multiplied by eight `b` times, stopping once it passes an eighth of `u64::MAX`.
pub open spec fn depth_from(b: nat, d: nat) -> nat
    decreases b,
{
    if b == 0 || d >= u64::MAX / 8 {
        d
    } else {
        depth_from((b - 1) as nat, d * 8)
    }
}

/// How deep the search may go: eight to the power `bound`, stopped once it
/// passes an eighth of `u64::MAX`.
fn depth_limit(bound: usize) -> (d: u64)
    ensures
        d == depth_from(bound as nat, 1),
{
    let mut d: u64 = 1;
    let mut k: usize = 0;
    while k < bound && d < u64::MAX / 8
        invariant
            0 <= k <= bound,
            depth_from((bound - k) as nat, d as nat) == depth_from(bound as nat, 1),
        decreases bound - k,
    {
        d = d * 8;
        k = k + 1;
    }
    d
}

} // verus!
