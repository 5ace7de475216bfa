use vstd::prelude::*;

verus! {

/// The atom "variable `var` takes value `val`".
#[derive(Debug, Clone, Copy, PartialEq, Eq, Structural)]
pub struct Lit {
    pub var: usize,
    pub val: usize,
}

/// One constraint over the stripe variables. A solver backend reads these and
/// builds its own formulas from them.
#[derive(Debug, Clone, PartialEq, Eq)]
pub enum Constraint {
    /// `x[var] >= bound`
    AtLeast { var: usize, bound: usize },
    /// `x[var] <= bound`
    AtMost { var: usize, bound: usize },
    /// No literal holds.
    NoneOf { lits: Vec<Lit> },
    /// All of `group` hold if and only if none of `others` holds.
    ExactGroup { group: Vec<Lit>, others: Vec<Lit> },
    /// Not both literals hold.
    NotBoth { first: Lit, second: Lit },
    /// If `x[var] == sentinel`, some literal of `lits` holds.
    IfEmptyThenAny { var: usize, sentinel: usize, lits: Vec<Lit> },
    /// Never holds.
    Unsatisfiable,
}

pub open spec fn lit_holds(l: Lit, a: Seq<int>) -> bool {
    l.var < a.len() && a[l.var as int] == l.val
}

pub open spec fn all_hold(ls: Seq<Lit>, a: Seq<int>) -> bool {
    forall|k: int| 0 <= k < ls.len() ==> lit_holds(#[trigger] ls[k], a)
}

pub open spec fn any_holds(ls: Seq<Lit>, a: Seq<int>) -> bool {
    exists|k: int| 0 <= k < ls.len() && lit_holds(#[trigger] ls[k], a)
}

/// Whether the assignment `a` (one value per variable) satisfies `c`.
pub open spec fn holds(c: Constraint, a: Seq<int>) -> bool {
    match c {
        Constraint::AtLeast { var, bound } => var < a.len() && a[var as int] >= bound,
        Constraint::AtMost { var, bound } => var < a.len() && a[var as int] <= bound,
        Constraint::NoneOf { lits } => !any_holds(lits@, a),
        Constraint::ExactGroup { group, others } => all_hold(group@, a) == !any_holds(others@, a),
        Constraint::NotBoth { first, second } => !(lit_holds(first, a) && lit_holds(second, a)),
        Constraint::IfEmptyThenAny { var, sentinel, lits } => var < a.len() && (a[var as int]
            == sentinel ==> any_holds(lits@, a)),
        Constraint::Unsatisfiable => false,
    }
}

/// Whether `a` satisfies every constraint of `cs`.
pub open spec fn satisfies(cs: Seq<Constraint>, a: Seq<int>) -> bool {
    forall|i: int| 0 <= i < cs.len() ==> holds(#[trigger] cs[i], a)
}

/// Whether `a` satisfies `c`, on concrete values.
pub fn is_satisfied(c: &Constraint, a: &Vec<u64>) -> (r: bool)
    ensures
        r == holds(*c, a@.map_values(|v: u64| v as int)),
{
    let ghost ai = a@.map_values(|v: u64| v as int);
    match c {
        Constraint::AtLeast { var, bound } => *var < a.len() && a[*var] >= *bound as u64,
        Constraint::AtMost { var, bound } => *var < a.len() && a[*var] <= *bound as u64,
        Constraint::NoneOf { lits } => !any_satisfied(lits, a),
        Constraint::ExactGroup { group, others } => all_satisfied(group, a) == !any_satisfied(others, a),
        Constraint::NotBoth { first, second } => !(lit_satisfied(*first, a) && lit_satisfied(*second, a)),
        Constraint::IfEmptyThenAny { var, sentinel, lits } => *var < a.len() && (a[*var]
            != *sentinel as u64 || any_satisfied(lits, a)),
        Constraint::Unsatisfiable => false,
    }
}

fn lit_satisfied(l: Lit, a: &Vec<u64>) -> (r: bool)
    ensures
        r == lit_holds(l, a@.map_values(|v: u64| v as int)),
{
    l.var < a.len() && a[l.var] == l.val as u64
}

fn any_satisfied(ls: &Vec<Lit>, a: &Vec<u64>) -> (r: bool)
    ensures
        r == any_holds(ls@, a@.map_values(|v: u64| v as int)),
{
    let ghost ai = a@.map_values(|v: u64| v as int);
    let mut k: usize = 0;
    while k < ls.len()
        invariant
            k <= ls@.len(),
            ai == a@.map_values(|v: u64| v as int),
            forall|j: int| 0 <= j < k ==> !lit_holds(#[trigger] ls@[j], ai),
        decreases ls@.len() - k,
    {
        if lit_satisfied(ls[k], a) {
            return true;
        }
        k = k + 1;
    }
    false
}

fn all_satisfied(ls: &Vec<Lit>, a: &Vec<u64>) -> (r: bool)
    ensures
        r == all_hold(ls@, a@.map_values(|v: u64| v as int)),
{
    let ghost ai = a@.map_values(|v: u64| v as int);
    let mut k: usize = 0;
    while k < ls.len()
        invariant
            k <= ls@.len(),
            ai == a@.map_values(|v: u64| v as int),
            forall|j: int| 0 <= j < k ==> lit_holds(#[trigger] ls@[j], ai),
        decreases ls@.len() - k,
    {
        if !lit_satisfied(ls[k], a) {
            return false;
        }
        k = k + 1;
    }
    true
}

} // verus!
