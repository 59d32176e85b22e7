//! Words over a labeled alphabet of constants and variables, substitutions,
//! and word equations.
use vstd::prelude::*;

verus! {

/// One letter of a word: a constant or a variable.
#[derive(Debug, Clone, Copy, PartialEq, Eq, Hash)]
pub enum Label<C, X> {
    Constant(C),
    Variable(X),
}

/// A finite sequence of letters.
#[derive(Debug, Clone, PartialEq, Eq, Hash)]
pub struct Word<A>(pub Vec<A>);

impl<A> View for Word<A> {
    type V = Seq<A>;

    open spec fn view(&self) -> Seq<A> {
        self.0@
    }
}

/// The letters over which the engine works: constants and variables named by integers.
pub type Letter = Label<u64, u64>;

/// A substitution: each entry binds a variable to a word. A later entry for the
/// same variable takes precedence over an earlier one; a variable without an
/// entry is left as it is.
#[derive(Debug, Clone)]
pub struct Unifier<C, X> {
    pub unifications: Vec<(X, Word<Label<C, X>>)>,
}

/// An equation between two words.
#[derive(Debug, Clone, PartialEq, Eq, Hash)]
pub struct WordEquation<C, X> {
    pub left: Word<Label<C, X>>,
    pub right: Word<Label<C, X>>,
}

/// The bindings of a substitution, as variables paired with words.
pub open spec fn bindings_of<C, X>(u: &Unifier<C, X>) -> Seq<(X, Seq<Label<C, X>>)> {
    u.unifications@.map_values(|p: (X, Word<Label<C, X>>)| (p.0, p.1@))
}

/// The word bound to `x`, by the last binding of `x`, if any.
pub open spec fn lookup<C, X>(b: Seq<(X, Seq<Label<C, X>>)>, x: X) -> Option<Seq<Label<C, X>>>
    decreases b.len(),
{
    if b.len() == 0 {
        None
    } else if b.last().0 == x {
        Some(b.last().1)
    } else {
        lookup(b.drop_last(), x)
    }
}

/// What one letter becomes under a substitution.
pub open spec fn image<C, X>(b: Seq<(X, Seq<Label<C, X>>)>, l: Label<C, X>) -> Seq<Label<C, X>> {
    match l {
        Label::Constant(_) => seq![l],
        Label::Variable(x) => match lookup(b, x) {
            Some(w) => w,
            None => seq![l],
        },
    }
}

/// A word with every letter replaced by its image.
pub open spec fn apply<C, X>(b: Seq<(X, Seq<Label<C, X>>)>, w: Seq<Label<C, X>>) -> Seq<Label<C, X>>
    decreases w.len(),
{
    if w.len() == 0 {
        Seq::empty()
    } else {
        apply(b, w.drop_last()) + image(b, w.last())
    }
}

/// The substitution makes both sides of the equation the same word.
pub open spec fn unifies<C, X>(b: Seq<(X, Seq<Label<C, X>>)>, eq: WordEquation<C, X>) -> bool {
    apply(b, eq.left@) == apply(b, eq.right@)
}

proof fn lemma_apply_push<C, X>(b: Seq<(X, Seq<Label<C, X>>)>, w: Seq<Label<C, X>>, i: int)
    requires
        0 <= i < w.len(),
    ensures
        apply(b, w.take(i + 1)) == apply(b, w.take(i)) + image(b, w[i]),
{
    assert(w.take(i + 1).drop_last() =~= w.take(i));
}

pub fn letter_eq(a: &Letter, b: &Letter) -> (r: bool)
    ensures
        r == (*a == *b),
{
    match (a, b) {
        (Label::Constant(x), Label::Constant(y)) => *x == *y,
        (Label::Variable(x), Label::Variable(y)) => *x == *y,
        _ => false,
    }
}

/// Whether two words are the same sequence of letters.
pub fn words_eq(a: &Vec<Letter>, b: &Vec<Letter>) -> (r: bool)
    ensures
        r == (a@ == b@),
{
    if a.len() != b.len() {
        return false;
    }
    let mut i: usize = 0;
    while i < a.len()
        invariant
            a@.len() == b@.len(),
            0 <= i <= a@.len(),
            forall|k: int| 0 <= k < i ==> a@[k] == b@[k],
        decreases a@.len() - i,
    {
        if !letter_eq(&a[i], &b[i]) {
            return false;
        }
        i = i + 1;
    }
    assert(a@ =~= b@);
    true
}

/// A fresh copy of a word.
pub fn copy_letters(w: &Vec<Letter>) -> (r: Vec<Letter>)
    ensures
        r@ == w@,
{
    let mut r: Vec<Letter> = Vec::new();
    let mut i: usize = 0;
    while i < w.len()
        invariant
            0 <= i <= w@.len(),
            r@ == w@.take(i as int),
        decreases w@.len() - i,
    {
        r.push(w[i]);
        i = i + 1;
        assert(r@ =~= w@.take(i as int));
    }
    assert(w@.take(w@.len() as int) =~= w@);
    r
}

impl Word<Letter> {
    pub fn new(letters: Vec<Letter>) -> (r: Self)
        ensures
            r@ == letters@,
    {
        Word(letters)
    }

    pub fn len(&self) -> (r: usize)
        ensures
            r == self@.len(),
    {
        self.0.len()
    }

    pub fn letters(&self) -> (r: &Vec<Letter>)
        ensures
            r@ == self@,
    {
        &self.0
    }
}

impl WordEquation<u64, u64> {
    pub fn new(left: Word<Letter>, right: Word<Letter>) -> (r: Self)
        ensures
            r.left@ == left@,
            r.right@ == right@,
    {
        WordEquation { left, right }
    }
}

impl Unifier<u64, u64> {
    pub open spec fn bindings(&self) -> Seq<(u64, Seq<Letter>)> {
        bindings_of(self)
    }

    /// The substitution with no bindings.
    pub fn new() -> (r: Self)
        ensures
            r.bindings().len() == 0,
    {
        Unifier { unifications: Vec::new() }
    }

    /// Adds a binding, which overrides any earlier one of the same variable.
    pub fn bind(&mut self, x: u64, w: Word<Letter>)
        ensures
            final(self).bindings() == old(self).bindings().push((x, w@)),
    {
        self.unifications.push((x, w));
        assert(final(self).bindings() =~= old(self).bindings().push((x, w@)));
    }

    /// The word bound to `x`, if any.
    pub fn get(&self, x: u64) -> (r: Option<Vec<Letter>>)
        ensures
            match r {
                Some(w) => lookup(self.bindings(), x) == Some(w@),
                None => lookup(self.bindings(), x).is_none(),
            },
    {
        let mut found: Option<Vec<Letter>> = None;
        let mut i: usize = 0;
        while i < self.unifications.len()
            invariant
                0 <= i <= self.unifications@.len(),
                self.bindings().len() == self.unifications@.len(),
                match found {
                    Some(w) => lookup(self.bindings().take(i as int), x) == Some(w@),
                    None => lookup(self.bindings().take(i as int), x).is_none(),
                },
            decreases self.unifications@.len() - i,
        {
            let ghost b = self.bindings();
            assert(b.take(i + 1).drop_last() =~= b.take(i as int));
            if self.unifications[i].0 == x {
                found = Some(copy_letters(&self.unifications[i].1.0));
            }
            i = i + 1;
        }
        assert(self.bindings().take(i as int) =~= self.bindings());
        found
    }

    /// The image of a word under this substitution.
    pub fn apply_word(&self, w: &Vec<Letter>) -> (r: Vec<Letter>)
        ensures
            r@ == apply(self.bindings(), w@),
    {
        let mut r: Vec<Letter> = Vec::new();
        let mut i: usize = 0;
        while i < w.len()
            invariant
                0 <= i <= w@.len(),
                r@ == apply(self.bindings(), w@.take(i as int)),
            decreases w@.len() - i,
        {
            proof {
                lemma_apply_push(self.bindings(), w@, i as int);
            }
            let l = w[i];
            let mut piece: Vec<Letter> = match l {
                Label::Constant(_) => vec![l],
                Label::Variable(x) => match self.get(x) {
                    Some(v) => v,
                    None => vec![l],
                },
            };
            r.append(&mut piece);
            i = i + 1;
        }
        assert(w@.take(w@.len() as int) =~= w@);
        r
    }
}

/// Whether the substitution makes both sides of the equation equal.
pub fn verify(u: &Unifier<u64, u64>, eq: &WordEquation<u64, u64>) -> (r: bool)
    ensures
        r == unifies(u.bindings(), *eq),
{
    let l = u.apply_word(&eq.left.0);
    let rr = u.apply_word(&eq.right.0);
    words_eq(&l, &rr)
}

/// The length of a word when each variable `x` counts `n(x)` and each constant one.
pub open spec fn len_under(n: spec_fn(u64) -> nat, w: Seq<Letter>) -> nat
    decreases w.len(),
{
    if w.len() == 0 {
        0
    } else {
        len_under(n, w.drop_last()) + match w.last() {
            Label::Constant(_) => 1nat,
            Label::Variable(x) => n(x),
        }
    }
}

/// The length of the word each variable stands for under a substitution.
pub open spec fn bound_len(b: Seq<(u64, Seq<Letter>)>) -> spec_fn(u64) -> nat {
    |x: u64| match lookup(b, x) {
        Some(w) => w.len(),
        None => 1nat,
    }
}

proof fn lemma_apply_len_under(b: Seq<(u64, Seq<Letter>)>, w: Seq<Letter>)
    ensures
        apply(b, w).len() == len_under(bound_len(b), w),
    decreases w.len(),
{
    if w.len() > 0 {
        lemma_apply_len_under(b, w.drop_last());
    }
}

/// A unifier gives both sides the same length when each variable counts the
/// length of its word; so an equation whose sides no such counting balances
/// has no unifier.
pub proof fn lemma_unifier_balances_lengths(b: Seq<(u64, Seq<Letter>)>, eq: WordEquation<u64, u64>)
    requires
        unifies(b, eq),
    ensures
        len_under(bound_len(b), eq.left@) == len_under(bound_len(b), eq.right@),
{
    lemma_apply_len_under(b, eq.left@);
    lemma_apply_len_under(b, eq.right@);
}

} // verus!
