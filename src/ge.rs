//! Generalized equations: both sides of a word equation laid over one line of
//! boundaries, each letter occurrence an interval ("base") on that line.
use vstd::prelude::*;
use crate::word::{Label, Letter, WordEquation};

verus! {

/// A cut point on the shared line.
#[derive(Debug, Clone, Copy, PartialEq, Eq, Hash)]
pub struct Boundary(pub usize);

/// One occurrence of a constant or a variable, with the boundaries it spans.
#[derive(Debug, Clone, PartialEq, Eq, Hash)]
pub struct Base<C, X> {
    pub label: Label<C, X>,
    pub boundaries: Vec<Boundary>,
}

/// An index into the bases of a generalized equation.
#[derive(Debug, Clone, Copy, PartialEq, Eq, Hash)]
pub struct BaseId(pub usize);

/// The bases, and an index of variable occurrences: entries (variable,
/// orientation, base), orientation `false` for the first occurrence of the
/// variable and `true` for later ones. The index may repeat a key; C1 is judged
/// by the labels of the bases, and the index only adds the variables it names.
#[derive(Debug, Clone, PartialEq, Eq)]
pub struct GeneralizedEquation<C, X> {
    pub bases: Vec<Base<C, X>>,
    pub var2base: Vec<(X, bool, BaseId)>,
}

#[derive(Debug, Clone, Copy, PartialEq, Eq, Hash)]
pub enum C1Violation<X> {
    NotEnoughDuals(X),
    TooManyDuals(X, BaseId, BaseId, BaseId),
    NotEqualBoundaryLength(X, BaseId, BaseId),
}

#[derive(Debug, Clone, Copy, PartialEq, Eq, Hash)]
pub enum C2Violation<C> {
    BoundaryLengthNotTwo(C, BaseId),
}

/// An equation with an empty side, which has no generalized equation.
#[derive(Debug, Clone, Copy, PartialEq, Eq, Hash)]
pub struct MalformedEquationError;

pub open spec fn pair_column(i: Boundary, j: Boundary) -> bool {
    i.0 <= j.0
}

pub open spec fn pair_indecomposable(i: Boundary, j: Boundary) -> bool {
    i.0 + 1 == j.0
}

pub open spec fn pair_empty(i: Boundary, j: Boundary) -> bool {
    i.0 == j.0
}

/// The pair forms a column.
pub fn is_boundary_pair_column(i: &Boundary, j: &Boundary) -> (r: bool)
    ensures
        r == pair_column(*i, *j),
{
    i.0 <= j.0
}

/// The pair is exactly one elementary interval.
pub fn is_boundary_pair_indecomposable(i: &Boundary, j: &Boundary) -> (r: bool)
    ensures
        r == pair_indecomposable(*i, *j),
{
    i.0 < usize::MAX && i.0 + 1 == j.0
}

/// The pair is a degenerate interval.
pub fn is_boundary_pair_empty(i: &Boundary, j: &Boundary) -> (r: bool)
    ensures
        r == pair_empty(*i, *j),
{
    i.0 == j.0
}

/// The number of elementary intervals from the first boundary of a base to its last.
pub open spec fn span(s: Seq<Boundary>) -> int {
    if s.len() == 0 {
        0
    } else {
        s.last().0 - s[0].0
    }
}

/// A base is empty when its interval has zero length.
pub open spec fn base_empty<C, X>(b: Base<C, X>) -> bool {
    span(b.boundaries@) == 0
}

/// Every column pair of adjacent boundaries is indecomposable or empty.
pub open spec fn pairs_settled(s: Seq<Boundary>) -> bool {
    forall|k: int|
        0 <= k < s.len() - 1 && (#[trigger] pair_column(s[k], s[k + 1])) ==> pair_indecomposable(
            s[k],
            s[k + 1],
        ) || pair_empty(s[k], s[k + 1])
}

pub open spec fn base_solved<C, X>(b: Base<C, X>) -> bool {
    b.label is Constant || pairs_settled(b.boundaries@)
}

/// Every variable base is empty.
pub open spec fn ge_solved<C, X>(bases: Seq<Base<C, X>>) -> bool {
    forall|k: int| 0 <= k < bases.len() && (#[trigger] bases[k]).label is Variable ==> base_empty(
        bases[k],
    )
}

impl<C, X> Base<C, X> {
    pub fn is_constant(&self) -> (r: bool)
        ensures
            r == self.label is Constant,
    {
        matches!(self.label, Label::Constant(_))
    }

    pub fn is_variable(&self) -> (r: bool)
        ensures
            r == self.label is Variable,
    {
        matches!(self.label, Label::Variable(_))
    }

    /// A constant base, or one whose column pairs are all indecomposable or empty.
    pub fn is_solved(&self) -> (r: bool)
        ensures
            r == base_solved(*self),
    {
        if self.is_constant() {
            return true;
        }
        let s = &self.boundaries;
        if s.len() < 2 {
            return true;
        }
        let mut k: usize = 0;
        while k < s.len() - 1
            invariant
                !(self.label is Constant),
                s@ == self.boundaries@,
                2 <= s@.len(),
                0 <= k < s@.len(),
                forall|m: int|
                    0 <= m < k && (#[trigger] pair_column(s@[m], s@[m + 1])) ==> pair_indecomposable(
                        s@[m],
                        s@[m + 1],
                    ) || pair_empty(s@[m], s@[m + 1]),
            decreases s@.len() - k,
        {
            if is_boundary_pair_column(&s[k], &s[k + 1]) {
                if !is_boundary_pair_indecomposable(&s[k], &s[k + 1]) && !is_boundary_pair_empty(
                    &s[k],
                    &s[k + 1],
                ) {
                    assert(pair_column(s@[k as int], s@[k + 1]));
                    return false;
                }
            }
            k = k + 1;
        }
        true
    }

    /// The interval of the base has zero length.
    pub fn is_empty(&self) -> (r: bool)
        ensures
            r == base_empty(*self),
    {
        let s = &self.boundaries;
        if s.len() == 0 {
            true
        } else {
            s[0].0 == s[s.len() - 1].0
        }
    }
}

impl<C, X> GeneralizedEquation<C, X> {
    /// Every variable base is empty.
    pub fn is_solved(&self) -> (r: bool)
        ensures
            r == ge_solved(self.bases@),
    {
        let mut k: usize = 0;
        while k < self.bases.len()
            invariant
                0 <= k <= self.bases@.len(),
                forall|m: int|
                    0 <= m < k && (#[trigger] self.bases@[m]).label is Variable ==> base_empty(
                        self.bases@[m],
                    ),
            decreases self.bases@.len() - k,
        {
            if self.bases[k].is_variable() && !self.bases[k].is_empty() {
                return false;
            }
            k = k + 1;
        }
        true
    }
}


/// Constant bases whose boundary sequence does not have length two, among the first `n` bases.
pub open spec fn c2_violations(bases: Seq<Base<u64, u64>>, n: nat) -> Seq<C2Violation<u64>>
    decreases n,
{
    if n == 0 || n > bases.len() {
        Seq::empty()
    } else {
        let b = bases[n - 1];
        c2_violations(bases, (n - 1) as nat) + match b.label {
            Label::Constant(c) => if b.boundaries@.len() != 2 {
                seq![C2Violation::BoundaryLengthNotTwo(c, BaseId((n - 1) as usize))]
            } else {
                Seq::empty()
            },
            Label::Variable(_) => Seq::empty(),
        }
    }
}

/// The bases among the first `n` that `x` labels, in base order.
pub open spec fn base_occurrences(bases: Seq<Base<u64, u64>>, x: u64, n: nat) -> Seq<BaseId>
    decreases n,
{
    if n == 0 || n > bases.len() {
        Seq::empty()
    } else {
        base_occurrences(bases, x, (n - 1) as nat) + if bases[n - 1].label == Label::<u64, u64>::Variable(x) {
            seq![BaseId((n - 1) as usize)]
        } else {
            Seq::empty()
        }
    }
}

/// The variables labelling the first `n` bases, in base order, with repeats.
pub open spec fn labelled_vars(bases: Seq<Base<u64, u64>>, n: nat) -> Seq<u64>
    decreases n,
{
    if n == 0 || n > bases.len() {
        Seq::empty()
    } else {
        labelled_vars(bases, (n - 1) as nat) + match bases[n - 1].label {
            Label::Variable(x) => seq![x],
            Label::Constant(_) => Seq::empty(),
        }
    }
}

/// Every variable the equation mentions: those labelling bases, in base order,
/// then those the index names, in entry order (with repeats).
pub open spec fn mentions(ge: GeneralizedEquation<u64, u64>) -> Seq<u64> {
    labelled_vars(ge.bases@, ge.bases@.len()) + ge.var2base@.map_values(|e: (u64, bool, BaseId)| e.0)
}

/// The length of the interval of the base `id` refers to; `None` if it refers to no base.
pub open spec fn id_span(bases: Seq<Base<u64, u64>>, id: BaseId) -> Option<int> {
    if id.0 < bases.len() {
        Some(span(bases[id.0 as int].boundaries@))
    } else {
        None
    }
}

/// What is wrong with the occurrence-bases of `x`, if anything: fewer than two,
/// more than two (the first three named), or two of different lengths.
pub open spec fn c1_violation_of(ge: GeneralizedEquation<u64, u64>, x: u64) -> Option<C1Violation<u64>> {
    let occ = base_occurrences(ge.bases@, x, ge.bases@.len());
    if occ.len() < 2 {
        Some(C1Violation::NotEnoughDuals(x))
    } else if occ.len() >= 3 {
        Some(C1Violation::TooManyDuals(x, occ[0], occ[1], occ[2]))
    } else if id_span(ge.bases@, occ[0]) != id_span(ge.bases@, occ[1]) {
        Some(C1Violation::NotEqualBoundaryLength(x, occ[0], occ[1]))
    } else {
        None
    }
}

/// No earlier mention names the same variable as mention `i`.
pub open spec fn first_mention(m: Seq<u64>, i: int) -> bool {
    forall|j: int| 0 <= j < i ==> #[trigger] m[j] != m[i]
}

/// The violations of the variables among the first `n` mentions, one for each
/// variable at its first mention.
pub open spec fn c1_violations(ge: GeneralizedEquation<u64, u64>, n: nat) -> Seq<C1Violation<u64>>
    decreases n,
{
    if n == 0 || n > mentions(ge).len() {
        Seq::empty()
    } else {
        let x = mentions(ge)[n - 1];
        c1_violations(ge, (n - 1) as nat) + if first_mention(mentions(ge), n - 1) && c1_violation_of(
            ge,
            x,
        ) is Some {
            seq![c1_violation_of(ge, x)->Some_0]
        } else {
            Seq::empty()
        }
    }
}

/// The entries of the variable index for a sequence of letters, one per variable
/// occurrence: orientation `true` where the variable occurred before.
pub open spec fn var_index(w: Seq<Letter>) -> Seq<(u64, bool, BaseId)>
    decreases w.len(),
{
    if w.len() == 0 {
        Seq::empty()
    } else {
        var_index(w.drop_last()) + match w.last() {
            Label::Variable(x) => seq![
                (x, w.drop_last().contains(w.last()), BaseId((w.len() - 1) as usize)),
            ],
            Label::Constant(_) => Seq::empty(),
        }
    }
}

/// The generalized equation of `left = right`: letter `k` of `left ++ right`
/// spans boundaries `k` and `k + 1`.
pub open spec fn laid_out(left: Seq<Letter>, right: Seq<Letter>, ge: GeneralizedEquation<u64, u64>) -> bool {
    let w = left + right;
    &&& ge.bases@.len() == w.len()
    &&& forall|k: int|
        0 <= k < w.len() ==> (#[trigger] ge.bases@[k]).label == w[k] && ge.bases@[k].boundaries@
            == seq![Boundary(k as usize), Boundary((k + 1) as usize)]
    &&& ge.var2base@ == var_index(w)
}

/// Whether `w[..n]` holds the letter `l`.
fn prefix_contains(w: &Vec<Letter>, n: usize, l: &Letter) -> (r: bool)
    requires
        n <= w@.len(),
    ensures
        r == w@.take(n as int).contains(*l),
{
    let mut j: usize = 0;
    while j < n
        invariant
            n <= w@.len(),
            0 <= j <= n,
            forall|m: int| 0 <= m < j ==> w@[m] != *l,
        decreases n - j,
    {
        if crate::word::letter_eq(&w[j], l) {
            assert(w@.take(n as int)[j as int] == *l);
            return true;
        }
        j = j + 1;
    }
    proof {
        if w@.take(n as int).contains(*l) {
            let m = choose|m: int| 0 <= m < n && w@.take(n as int)[m] == *l;
            assert(w@[m] == *l);
        }
    }
    false
}

/// The bases that `x` labels.
fn base_occurrences_of(bases: &Vec<Base<u64, u64>>, x: u64) -> (r: Vec<BaseId>)
    ensures
        r@ == base_occurrences(bases@, x, bases@.len()),
{
    let mut r: Vec<BaseId> = Vec::new();
    let mut i: usize = 0;
    while i < bases.len()
        invariant
            0 <= i <= bases@.len(),
            r@ == base_occurrences(bases@, x, i as nat),
        decreases bases@.len() - i,
    {
        let is_x = match bases[i].label {
            Label::Variable(y) => y == x,
            Label::Constant(_) => false,
        };
        if is_x {
            r.push(BaseId(i));
        }
        i = i + 1;
    }
    r
}

/// The variables the equation mentions, as `mentions` lists them.
fn mentions_of(ge: &GeneralizedEquation<u64, u64>) -> (r: Vec<u64>)
    ensures
        r@ == mentions(*ge),
{
    let mut r: Vec<u64> = Vec::new();
    let mut i: usize = 0;
    while i < ge.bases.len()
        invariant
            0 <= i <= ge.bases@.len(),
            r@ == labelled_vars(ge.bases@, i as nat),
        decreases ge.bases@.len() - i,
    {
        if let Label::Variable(x) = ge.bases[i].label {
            r.push(x);
        }
        i = i + 1;
        assert(r@ =~= labelled_vars(ge.bases@, i as nat));
    }
    let ghost lv = r@;
    let ghost names = ge.var2base@.map_values(|e: (u64, bool, BaseId)| e.0);
    let mut j: usize = 0;
    while j < ge.var2base.len()
        invariant
            0 <= j <= ge.var2base@.len(),
            names == ge.var2base@.map_values(|e: (u64, bool, BaseId)| e.0),
            r@ == lv + names.take(j as int),
        decreases ge.var2base@.len() - j,
    {
        r.push(ge.var2base[j].0);
        j = j + 1;
        assert(r@ =~= lv + names.take(j as int));
    }
    assert(names.take(j as int) =~= names);
    r
}

/// Whether two base references span intervals of the same length (both dangling counts as same).
fn same_span(bases: &Vec<Base<u64, u64>>, a: BaseId, b: BaseId) -> (r: bool)
    ensures
        r == (id_span(bases@, a) == id_span(bases@, b)),
{
    if a.0 >= bases.len() || b.0 >= bases.len() {
        return a.0 >= bases.len() && b.0 >= bases.len();
    }
    let s = &bases[a.0].boundaries;
    let t = &bases[b.0].boundaries;
    let (s0, s1): (u128, u128) = if s.len() == 0 {
        (0, 0)
    } else {
        (s[0].0 as u128, s[s.len() - 1].0 as u128)
    };
    let (t0, t1): (u128, u128) = if t.len() == 0 {
        (0, 0)
    } else {
        (t[0].0 as u128, t[t.len() - 1].0 as u128)
    };
    s1 + t0 == t1 + s0
}

impl GeneralizedEquation<u64, u64> {
    /// Lays both sides of an equation over one line: boundaries `0 ..= |left| + |right|`.
    /// An equation with an empty side is refused.
    pub fn from_equation(eq: &WordEquation<u64, u64>) -> (r: Result<Self, MalformedEquationError>)
        requires
            eq.left@.len() + eq.right@.len() < usize::MAX,
        ensures
            r is Err <==> (eq.left@.len() == 0 || eq.right@.len() == 0),
            r matches Ok(ge) ==> laid_out(eq.left@, eq.right@, ge),
    {
        if eq.left.0.len() == 0 || eq.right.0.len() == 0 {
            return Err(MalformedEquationError);
        }
        let mut w = crate::word::copy_letters(&eq.left.0);
        let mut tail = crate::word::copy_letters(&eq.right.0);
        w.append(&mut tail);
        let ghost ws = eq.left@ + eq.right@;
        assert(w@ =~= ws);
        let mut bases: Vec<Base<u64, u64>> = Vec::new();
        let mut var2base: Vec<(u64, bool, BaseId)> = Vec::new();
        let mut k: usize = 0;
        while k < w.len()
            invariant
                w@ == ws,
                ws.len() < usize::MAX,
                0 <= k <= ws.len(),
                bases@.len() == k,
                forall|m: int|
                    0 <= m < k ==> (#[trigger] bases@[m]).label == ws[m] && bases@[m].boundaries@
                        == seq![Boundary(m as usize), Boundary((m + 1) as usize)],
                var2base@ == var_index(ws.take(k as int)),
            decreases ws.len() - k,
        {
            let l = w[k];
            let ghost pre = ws.take(k as int);
            assert(ws.take(k + 1).drop_last() =~= pre);
            assert(ws.take(k + 1).last() == l);
            match l {
                Label::Variable(x) => {
                    let seen = prefix_contains(&w, k, &l);
                    var2base.push((x, seen, BaseId(k)));
                },
                Label::Constant(_) => {},
            }
            let mut bs: Vec<Boundary> = Vec::new();
            bs.push(Boundary(k));
            bs.push(Boundary(k + 1));
            assert(bs@ =~= seq![Boundary(k), Boundary((k + 1) as usize)]);
            bases.push(Base { label: l, boundaries: bs });
            k = k + 1;
            assert(var2base@ =~= var_index(ws.take(k as int)));
        }
        assert(ws.take(k as int) =~= ws);
        Ok(GeneralizedEquation { bases, var2base })
    }

    /// Every constant base whose boundary sequence does not have length two, in base order.
    #[allow(non_snake_case)]
    pub fn checkC2(&self) -> (r: Vec<C2Violation<u64>>)
        ensures
            r@ == c2_violations(self.bases@, self.bases@.len()),
    {
        let mut r: Vec<C2Violation<u64>> = Vec::new();
        let mut k: usize = 0;
        while k < self.bases.len()
            invariant
                0 <= k <= self.bases@.len(),
                r@ == c2_violations(self.bases@, k as nat),
            decreases self.bases@.len() - k,
        {
            let b = &self.bases[k];
            match b.label {
                Label::Constant(c) => {
                    if b.boundaries.len() != 2 {
                        r.push(C2Violation::BoundaryLengthNotTwo(c, BaseId(k)));
                    }
                },
                Label::Variable(_) => {},
            }
            k = k + 1;
        }
        r
    }

    /// For each variable that labels a base or that the index names, at its first
    /// mention: `NotEnoughDuals` if fewer than two bases carry it, `TooManyDuals`
    /// with its first three bases if three or more do, `NotEqualBoundaryLength` if
    /// its two bases span intervals of different lengths.
    #[allow(non_snake_case)]
    pub fn checkC1(&self) -> (r: Vec<C1Violation<u64>>)
        ensures
            r@ == c1_violations(*self, mentions(*self).len()),
    {
        let m = mentions_of(self);
        let mut r: Vec<C1Violation<u64>> = Vec::new();
        let mut i: usize = 0;
        while i < m.len()
            invariant
                m@ == mentions(*self),
                0 <= i <= m@.len(),
                r@ == c1_violations(*self, i as nat),
            decreases m@.len() - i,
        {
            let x = m[i];
            let mut first = true;
            let mut j: usize = 0;
            while j < i
                invariant
                    m@ == mentions(*self),
                    0 <= j <= i < m@.len(),
                    x == m@[i as int],
                    first == forall|k: int| 0 <= k < j ==> #[trigger] m@[k] != x,
                decreases i - j,
            {
                if m[j] == x {
                    first = false;
                }
                j = j + 1;
            }
            if first {
                let occ = base_occurrences_of(&self.bases, x);
                if occ.len() < 2 {
                    r.push(C1Violation::NotEnoughDuals(x));
                } else if occ.len() >= 3 {
                    r.push(C1Violation::TooManyDuals(x, occ[0], occ[1], occ[2]));
                } else if !same_span(&self.bases, occ[0], occ[1]) {
                    r.push(C1Violation::NotEqualBoundaryLength(x, occ[0], occ[1]));
                }
            }
            i = i + 1;
        }
        r
    }
}

} // verus!
