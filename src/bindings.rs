//! The binding set of an expression: its variable names in order of first
//! occurrence, and how an old binding set maps onto a new one.

use vstd::prelude::*;

use crate::ast::{Expr, ExprView};

verus! {

/// The character sequences of a list of names.
pub open spec fn names(v: Seq<String>) -> Seq<Seq<char>> {
    v.map_values(|s: String| s@)
}

/// Appends to `acc` each variable of `e` that `acc` does not hold yet,
/// visiting the tree in pre-order, left operand before right.
pub open spec fn gather(acc: Seq<Seq<char>>, e: ExprView) -> Seq<Seq<char>>
    decreases e,
{
    match e {
        ExprView::Var(n) => if acc.contains(n) {
            acc
        } else {
            acc.push(n)
        },
        ExprView::Val(_) => acc,
        ExprView::Unary(_, x) => gather(acc, *x),
        ExprView::Binary(_, l, r) => gather(gather(acc, *l), *r),
    }
}

/// The binding set of `e`: its variables, each once, in order of first
/// occurrence.
pub open spec fn bindings_of(e: ExprView) -> Seq<Seq<char>> {
    gather(Seq::empty(), e)
}

/// Whether `x` names a variable somewhere in `e`.
pub open spec fn occurs(x: Seq<char>, e: ExprView) -> bool
    decreases e,
{
    match e {
        ExprView::Var(n) => n == x,
        ExprView::Val(_) => false,
        ExprView::Unary(_, a) => occurs(x, *a),
        ExprView::Binary(_, l, r) => occurs(x, *l) || occurs(x, *r),
    }
}

/// The first index of `x` in `s`, if `x` is there.
pub open spec fn index_in(s: Seq<Seq<char>>, x: Seq<char>) -> Option<int> {
    if s.contains(x) {
        Some(choose|i: int| 0 <= i < s.len() && s[i] == x && forall|j: int| 0 <= j < i ==> s[j] != x)
    } else {
        None
    }
}

/// Where `index_in` finds a name, the name stands there and nowhere before.
pub proof fn lemma_index_in(s: Seq<Seq<char>>, x: Seq<char>)
    ensures
        match index_in(s, x) {
            Some(i) => 0 <= i < s.len() && s[i] == x && forall|j: int| 0 <= j < i ==> s[j] != x,
            None => !s.contains(x),
        },
{
    if s.contains(x) {
        let k = choose|k: int| 0 <= k < s.len() && s[k] == x;
        lemma_first_index(s, x, k);
    }
}

proof fn lemma_first_index(s: Seq<Seq<char>>, x: Seq<char>, k: int)
    requires
        0 <= k < s.len(),
        s[k] == x,
    ensures
        exists|i: int| 0 <= i < s.len() && s[i] == x && forall|j: int| 0 <= j < i ==> s[j] != x,
    decreases k,
{
    if exists|j: int| 0 <= j < k && s[j] == x {
        let j = choose|j: int| 0 <= j < k && s[j] == x;
        lemma_first_index(s, x, j);
    } else {
        assert(forall|j: int| 0 <= j < k ==> s[j] != x);
    }
}

/// For each old binding, the index of its name among the new bindings.
pub open spec fn slot_map(old: Seq<Seq<char>>, new: Seq<Seq<char>>) -> Seq<Option<int>> {
    Seq::new(old.len(), |i: int| index_in(new, old[i]))
}

/// The values of the new bindings: a name that was bound before keeps its
/// value, a new name starts at `fresh`.
pub open spec fn carried<V>(old: Seq<Seq<char>>, vals: Seq<V>, new: Seq<Seq<char>>, fresh: V) -> Seq<V> {
    Seq::new(
        new.len(),
        |j: int|
            match index_in(old, new[j]) {
                Some(i) => vals[i],
                None => fresh,
            },
    )
}

pub open spec fn opt_int(o: Option<usize>) -> Option<int> {
    match o {
        Some(i) => Some(i as int),
        None => None,
    }
}

/// Gathering keeps what was gathered before, adds no name twice, and adds
/// exactly the variables of the tree.
pub proof fn lemma_gather(acc: Seq<Seq<char>>, e: ExprView)
    requires
        acc.no_duplicates(),
    ensures
        gather(acc, e).no_duplicates(),
        acc.len() <= gather(acc, e).len(),
        gather(acc, e).subrange(0, acc.len() as int) == acc,
        forall|x: Seq<char>| #[trigger] gather(acc, e).contains(x) <==> acc.contains(x) || occurs(x, e),
    decreases e,
{
    match e {
        ExprView::Var(n) => {
            if !acc.contains(n) {
                assert(acc.push(n).subrange(0, acc.len() as int) =~= acc);
                assert forall|x: Seq<char>| #[trigger] acc.push(n).contains(x) <==> acc.contains(x) || x == n by {
                    if x == n {
                        assert(acc.push(n)[acc.len() as int] == n);
                    }
                    if acc.contains(x) {
                        let k = choose|k: int| 0 <= k < acc.len() && acc[k] == x;
                        assert(acc.push(n)[k] == x);
                    }
                }
            } else {
                assert(acc.subrange(0, acc.len() as int) =~= acc);
            }
        },
        ExprView::Val(_) => {
            assert(acc.subrange(0, acc.len() as int) =~= acc);
        },
        ExprView::Unary(_, x) => {
            lemma_gather(acc, *x);
        },
        ExprView::Binary(_, l, r) => {
            lemma_gather(acc, *l);
            let mid = gather(acc, *l);
            lemma_gather(mid, *r);
            let fin = gather(mid, *r);
            assert(fin.subrange(0, acc.len() as int) =~= mid.subrange(0, mid.len() as int).subrange(0, acc.len() as int));
        },
    }
}

/// The binding set of a tree holds each of its variables once and nothing
/// else.
pub proof fn lemma_bindings_of(e: ExprView)
    ensures
        bindings_of(e).no_duplicates(),
        forall|x: Seq<char>| #[trigger] bindings_of(e).contains(x) <==> occurs(x, e),
{
    lemma_gather(Seq::empty(), e);
}

/// The first index of `name` among `list`, if it is there.
pub fn index_of(list: &Vec<String>, name: &String) -> (r: Option<usize>)
    ensures
        opt_int(r) == index_in(names(list@), name@),
{
    let ghost s = names(list@);
    let mut i: usize = 0;
    while i < list.len()
        invariant
            s == names(list@),
            i <= list@.len(),
            forall|j: int| 0 <= j < i ==> s[j] != name@,
        decreases list@.len() - i,
    {
        if list[i] == *name {
            proof {
                assert(s[i as int] == name@);
                assert(s.contains(name@));
                let c = choose|k: int| 0 <= k < s.len() && s[k] == name@ && forall|j: int| 0 <= j < k ==> s[j] != name@;
                assert(c == i) by {
                    if c < i {
                        assert(s[c] != name@);
                    }
                    if c > i {
                        assert(s[i as int] != name@);
                    }
                }
            }
            return Some(i);
        }
        i = i + 1;
    }
    assert(!s.contains(name@));
    None
}

fn gather_into(e: &Expr, out: &mut Vec<String>)
    ensures
        names(final(out)@) == gather(names(old(out)@), e@),
    decreases e,
{
    match e {
        Expr::Var(n) => {
            match index_of(out, n) {
                Some(_) => {},
                None => {
                    let ghost prev = names(out@);
                    out.push(n.clone());
                    assert(names(out@) =~= prev.push(n@));
                },
            }
        },
        Expr::Val(_) => {},
        Expr::Unary(_, x) => {
            gather_into(x, out);
        },
        Expr::Binary(_, l, r) => {
            gather_into(l, out);
            gather_into(r, out);
        },
    }
}

/// The binding set of `e`.
pub fn collect_bindings(e: &Expr) -> (r: Vec<String>)
    ensures
        names(r@) == bindings_of(e@),
{
    let mut out: Vec<String> = Vec::new();
    assert(names(out@) =~= Seq::<Seq<char>>::empty());
    gather_into(e, &mut out);
    out
}

/// For each old binding, the index of its name among the new bindings, or
/// `None` where the name is gone.
pub fn slot_mapping(old: &Vec<String>, new: &Vec<String>) -> (r: Vec<Option<usize>>)
    ensures
        r@.map_values(|o: Option<usize>| opt_int(o)) == slot_map(names(old@), names(new@)),
{
    let mut r: Vec<Option<usize>> = Vec::new();
    let mut i: usize = 0;
    while i < old.len()
        invariant
            i <= old@.len(),
            r@.len() == i,
            forall|k: int| 0 <= k < i ==> opt_int(#[trigger] r@[k]) == index_in(names(new@), names(old@)[k]),
        decreases old@.len() - i,
    {
        let j = index_of(new, &old[i]);
        r.push(j);
        i = i + 1;
    }
    assert(r@.map_values(|o: Option<usize>| opt_int(o)) =~= slot_map(names(old@), names(new@)));
    r
}

/// The values of the new bindings: a name bound before keeps its value, a new
/// name starts at `fresh`.
pub fn carry_values<V: Copy>(old: &Vec<String>, vals: &Vec<V>, new: &Vec<String>, fresh: V) -> (r: Vec<V>)
    requires
        vals@.len() == old@.len(),
    ensures
        r@ == carried(names(old@), vals@, names(new@), fresh),
{
    let mut r: Vec<V> = Vec::new();
    let mut j: usize = 0;
    while j < new.len()
        invariant
            j <= new@.len(),
            vals@.len() == old@.len(),
            r@.len() == j,
            forall|k: int| 0 <= k < j ==> #[trigger] r@[k] == carried(names(old@), vals@, names(new@), fresh)[k],
        decreases new@.len() - j,
    {
        let found = index_of(old, &new[j]);
        proof {
            lemma_index_in(names(old@), names(new@)[j as int]);
        }
        let v = match found {
            Some(i) => vals[i],
            None => fresh,
        };
        r.push(v);
        j = j + 1;
    }
    assert(r@ =~= carried(names(old@), vals@, names(new@), fresh));
    r
}

} // verus!
