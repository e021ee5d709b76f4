//! What a pivot keeps: the dictionary form of a tableau, and that no
//! defined variable is negative at the vertex.

use crate::constraint::Tableau;
use crate::linear::{
    lemma_coeff_wf, lemma_is_variable_unique, lemma_linear_minus, lemma_linear_solve_for,
    lemma_linear_substitute, lemma_variable, lemma_zero_canonical, lemma_zero_wf, Linear,
};
use crate::rational::{
    lemma_neg, lemma_order, lemma_plus, lemma_plus_zero, lemma_recip, lemma_times,
    lemma_times_zero, Ratio,
};
use vstd::prelude::*;

verus! {

/// `x < y` and `y <= z` give `x < z` and `z` not below `x`.
pub proof fn lemma_lt_chain(x: Ratio, y: Ratio, z: Ratio)
    requires
        x.den > 0,
        y.den > 0,
        z.den > 0,
        x.lt(y),
        !z.lt(y),
    ensures
        x.lt(z),
        !z.lt(x),
{
    lemma_order(x, y);
    lemma_order(z, y);
    lemma_order(x, z);
    lemma_order(z, x);
}

/// The bound that a row puts on a variable with a negative coefficient is
/// a fraction in lowest terms; its value is the row's constant over the
/// magnitude of the coefficient.
pub proof fn lemma_bound(right: Linear, name: Seq<char>)
    requires
        right.wf(),
        right.coeff(name).is_negative(),
    ensures
        right.coeff(name).wf(),
        right.coeff(name).neg().recip().wf(),
        right.constant.over(right.coeff(name).neg()).wf(),
        right.constant.over(right.coeff(name).neg()).value() * (-right.coeff(name).value())
            == right.constant.value(),
        right.coeff(name).value() < 0 as real,
{
    let a = right.coeff(name);
    let c = right.constant;
    lemma_coeff_wf(right, name);
    lemma_neg(a);
    lemma_recip(a.neg());
    lemma_times(c, a.neg().recip());
    lemma_order(a, a);
    let av = a.value();
    let cv = c.value();
    let iv = a.neg().recip().value();
    assert((cv * iv) * (-av) == cv) by (nonlinear_arith)
        requires
            iv * (-av) == 1 as real,
    ;
}

/// What the rows of a dictionary hold, for the row `r` and a variable
/// that the row can be solved for.
proof fn lemma_net(t: Tableau, r: int, name: Seq<char>)
    requires
        t.wf(),
        t.is_dictionary(),
        0 <= r < t.rows.len(),
    ensures
        t.rows[r].net().wf(),
        t.rows[r].net().constant == t.rows[r].right.constant.neg(),
        t.rows[r].net().coeff(t.rows[r].basic()) == Ratio::one(),
        forall|n: Seq<char>|
            n != t.rows[r].basic() ==> #[trigger] t.rows[r].net().coeff(n) == t.rows[r].right.coeff(
                n,
            ).neg(),
        forall|i: int|
            0 <= i < t.rows.len() && i != r ==> !t.rows[r].net().mentions(
                (#[trigger] t.rows[i]).basic(),
            ),
{
    let row = t.rows[r];
    let b = row.basic();
    assert(row.is_defining());
    assert(row.left.is_variable(b));
    lemma_linear_minus(row.left, row.right);
    lemma_zero_wf();
    lemma_zero_canonical(row.left.constant);
    lemma_neg(row.right.constant);
    lemma_plus_zero(row.right.constant.neg());
    assert(!row.right.mentions(b));
    assert(row.net().coeff(b) == row.left.coeff(b).minus(row.right.coeff(b)));
    lemma_plus_zero(Ratio::one());
    assert forall|n: Seq<char>| n != b implies #[trigger] row.net().coeff(n) == row.right.coeff(
        n,
    ).neg() by {
        assert(!row.left.terms.dom().contains(n));
        assert(row.net().coeff(n) == row.left.coeff(n).minus(row.right.coeff(n)));
        lemma_coeff_wf(row.right, n);
        lemma_neg(row.right.coeff(n));
        lemma_plus_zero(row.right.coeff(n).neg());
    }
    assert forall|i: int| 0 <= i < t.rows.len() && i != r implies !row.net().mentions(
        (#[trigger] t.rows[i]).basic(),
    ) by {
        let bi = t.rows[i].basic();
        assert(bi != b) by {
            if i < r {
                assert(t.rows[i].basic() != t.rows[r].basic());
            } else {
                assert(t.rows[r].basic() != t.rows[i].basic());
            }
        }
        assert(!t.rows[r].right.mentions(t.rows[i].basic()));
        assert(row.net().coeff(bi) == row.right.coeff(bi).neg());
        lemma_coeff_wf(row.net(), bi);
    }
}

/// A pivot on a variable that the row can be solved for leaves a dictionary
/// a dictionary.
pub proof fn lemma_pivot_dictionary(t: Tableau, r: int, name: Seq<char>)
    requires
        t.wf(),
        t.is_dictionary(),
        0 <= r < t.rows.len(),
        t.rows[r].net().mentions(name),
    ensures
        t.pivoted(r, name).wf(),
        t.pivoted(r, name).is_dictionary(),
        t.pivoted(r, name).rows.len() == t.rows.len(),
        t.pivoted(r, name).rows[r].basic() == name,
        forall|i: int|
            0 <= i < t.rows.len() && i != r ==> (#[trigger] t.pivoted(r, name).rows[i]).basic()
                == t.rows[i].basic(),
{
    let p = t.pivoted(r, name);
    let row = t.rows[r];
    let net = row.net();
    let solved = row.normalized(name);
    lemma_net(t, r, name);
    lemma_linear_solve_for(net, name);
    lemma_variable(name);
    lemma_zero_wf();
    assert(p.rows[r] == solved);
    assert(solved.left.is_variable(name));
    lemma_is_variable_unique(solved.left, name, solved.basic());
    let k = net.coeff(name).neg().recip();
    lemma_coeff_wf(net, name);
    lemma_neg(net.coeff(name));
    lemma_recip(net.coeff(name).neg());
    lemma_times_zero(k);
    assert forall|i: int| 0 <= i < t.rows.len() && i != r implies (#[trigger] p.rows[i]).basic()
        == t.rows[i].basic() && p.rows[i].is_defining() && p.rows[i].wf() && t.rows[i].basic()
        != name && !solved.right.mentions(t.rows[i].basic()) by {
        assert(p.rows[i].left == t.rows[i].left);
        assert(t.rows[i].is_defining());
        assert(t.rows[i].wf());
        lemma_linear_substitute(t.rows[i].right, name, solved.right);
        let bi = t.rows[i].basic();
        assert(!net.mentions(bi));
        lemma_coeff_wf(net, bi);
        lemma_coeff_wf(solved.right, bi);
        if bi != name {
            assert(solved.right.coeff(bi) == Ratio::zero().times(k)) by {
                lemma_zero_canonical(net.coeff(bi));
            }
        }
    }
    assert forall|i: int| 0 <= i < p.rows.len() implies (#[trigger] p.rows[i]).wf()
        && p.rows[i].is_defining() by {
        if i != r {
            assert(p.rows[i].basic() == t.rows[i].basic());
        }
    }
    assert forall|i: int, j: int| 0 <= i < j < p.rows.len() implies (#[trigger] p.rows[i]).basic()
        != (#[trigger] p.rows[j]).basic() by {
        if i != r {
            assert(p.rows[i].basic() == t.rows[i].basic());
        }
        if j != r {
            assert(p.rows[j].basic() == t.rows[j].basic());
        }
        if i != r && j != r {
            assert(t.rows[i].basic() != t.rows[j].basic());
        }
    }
    assert forall|i: int, j: int|
        0 <= i < p.rows.len() && 0 <= j < p.rows.len() implies !(#[trigger] p.rows[j]).right.mentions(
        (#[trigger] p.rows[i]).basic(),
    ) by {
        let b = p.rows[i].basic();
        if i != r {
            assert(p.rows[i].basic() == t.rows[i].basic());
        }
        assert(!solved.right.mentions(b));
        if j != r {
            let e = t.rows[j].right;
            assert(t.rows[j].wf());
            lemma_linear_substitute(e, name, solved.right);
            let kj = e.coeff(name);
            lemma_coeff_wf(e, name);
            lemma_coeff_wf(solved.right, b);
            lemma_zero_canonical(solved.right.coeff(b));
            lemma_times_zero(kj);
            lemma_plus_zero(Ratio::zero());
            if i != r {
                assert(!t.rows[j].right.mentions(t.rows[i].basic()));
                lemma_coeff_wf(e, b);
                lemma_zero_canonical(e.coeff(b));
            }
            assert(e.substitute(name, solved.right).coeff(b) == Ratio::zero());
            lemma_coeff_wf(e.substitute(name, solved.right), b);
        }
    }
}

/// No two rows are the most restrictive for one variable.
pub proof fn lemma_most_restrictive_unique(t: Tableau, i: int, j: int, name: Seq<char>)
    requires
        t.is_most_restrictive(i, name),
        t.is_most_restrictive(j, name),
    ensures
        i == j,
{
    if i < j {
        assert(t.restricts(i, name));
        assert(t.bound(j, name).lt(t.bound(i, name)));
    }
    if j < i {
        assert(t.restricts(j, name));
        assert(t.bound(i, name).lt(t.bound(j, name)));
    }
}

/// The most restrictive of the first `end` rows, and among such rows the
/// first; `-1` where none of them restricts the variable.
pub open spec fn first_least_bound(t: Tableau, name: Seq<char>, end: int) -> int
    decreases end,
{
    if end <= 0 {
        -1
    } else {
        let before = first_least_bound(t, name, end - 1);
        if !t.restricts(end - 1, name) {
            before
        } else if before == -1 || t.bound(end - 1, name).lt(t.bound(before, name)) {
            end - 1
        } else {
            before
        }
    }
}

proof fn lemma_first_least_bound(t: Tableau, name: Seq<char>, end: int)
    requires
        t.wf(),
        0 <= end <= t.rows.len(),
    ensures
        -1 <= first_least_bound(t, name, end) < end,
        first_least_bound(t, name, end) == -1 ==> forall|k: int|
            0 <= k < end ==> !#[trigger] t.restricts(k, name),
        first_least_bound(t, name, end) >= 0 ==> {
            let at = first_least_bound(t, name, end);
            &&& t.restricts(at, name)
            &&& forall|k: int|
                0 <= k < end && #[trigger] t.restricts(k, name) ==> {
                    &&& !t.bound(k, name).lt(t.bound(at, name))
                    &&& k < at ==> t.bound(at, name).lt(t.bound(k, name))
                }
        },
    decreases end,
{
    if end > 0 {
        lemma_first_least_bound(t, name, end - 1);
        let before = first_least_bound(t, name, end - 1);
        let at = first_least_bound(t, name, end);
        if t.restricts(end - 1, name) {
            assert(t.rows[end - 1].wf());
            lemma_bound(t.rows[end - 1].right, name);
            let last = t.bound(end - 1, name);
            if before >= 0 {
                assert(t.rows[before].wf());
                lemma_bound(t.rows[before].right, name);
                let least = t.bound(before, name);
                if last.lt(least) {
                    assert forall|k: int| 0 <= k < end && #[trigger] t.restricts(k, name) implies !t.bound(
                        k,
                        name,
                    ).lt(last) && (k < at ==> last.lt(t.bound(k, name))) by {
                        assert(t.rows[k].wf());
                        lemma_bound(t.rows[k].right, name);
                        if k < end - 1 {
                            lemma_lt_chain(last, least, t.bound(k, name));
                        } else {
                            lemma_lt_chain(last, least, least);
                        }
                    }
                }
            } else {
                lemma_order(last, last);
            }
        }
    }
}

/// Where some row restricts a variable, one row is the most restrictive.
pub proof fn lemma_most_restrictive_exists(t: Tableau, name: Seq<char>)
    requires
        t.wf(),
        !t.is_unrestricted(name),
    ensures
        exists|i: int| t.is_most_restrictive(i, name),
{
    lemma_first_least_bound(t, name, t.rows.len() as int);
    let at = first_least_bound(t, name, t.rows.len() as int);
    assert(t.is_most_restrictive(at, name));
}

/// A row that restricts a variable can be solved for it, and the constant
/// of the solved row is the bound that the row puts on the variable.
pub proof fn lemma_solved_constant(t: Tableau, r: int, name: Seq<char>)
    requires
        t.wf(),
        t.is_dictionary(),
        0 <= r < t.rows.len(),
        t.restricts(r, name),
    ensures
        t.rows[r].net().mentions(name),
        t.rows[r].normalized(name).right.wf(),
        t.rows[r].normalized(name).right.constant.wf(),
        t.bound(r, name).wf(),
        t.rows[r].normalized(name).right.constant.value() == t.bound(r, name).value(),
        t.bound(r, name).value() * (-t.rows[r].right.coeff(name).value())
            == t.rows[r].right.constant.value(),
        t.rows[r].right.coeff(name).value() < 0 as real,
{
    let row = t.rows[r];
    let a = row.right.coeff(name);
    let c = row.right.constant;
    let net = row.net();
    lemma_net(t, r, name);
    lemma_bound(row.right, name);
    assert(!row.right.mentions(row.basic()));
    assert(name != row.basic());
    assert(net.coeff(name) == a.neg());
    lemma_neg(a);
    lemma_coeff_wf(net, name);
    lemma_linear_solve_for(net, name);
    let k = net.coeff(name).neg().recip();
    assert(k == a.recip());
    lemma_recip(a);
    lemma_neg(c);
    lemma_times(c.neg(), k);
    let av = a.value();
    let cv = c.value();
    let iv = k.value();
    let bv = t.bound(r, name).value();
    assert((-cv) * iv == bv) by (nonlinear_arith)
        requires
            iv * av == 1 as real,
            bv * (-av) == cv,
            av < 0 as real,
    ;
}

/// A pivot on the most restrictive row keeps every constant of the tableau
/// from becoming negative.
pub proof fn lemma_pivot_valid(t: Tableau, r: int, name: Seq<char>)
    requires
        t.wf(),
        t.is_dictionary(),
        t.is_valid(),
        t.is_most_restrictive(r, name),
    ensures
        t.pivoted(r, name).is_valid(),
        !t.rows[r].normalized(name).right.constant.is_negative(),
{
    let p = t.pivoted(r, name);
    let solved = t.rows[r].normalized(name);
    lemma_solved_constant(t, r, name);
    let sv = solved.right.constant.value();
    let ar = t.rows[r].right.coeff(name).value();
    let cr = t.rows[r].right.constant.value();
    lemma_order(t.rows[r].right.constant, t.rows[r].right.constant);
    assert(!t.rows[r].right.constant.is_negative());
    assert(sv >= 0 as real) by (nonlinear_arith)
        requires
            sv * (-ar) == cr,
            ar < 0 as real,
            cr >= 0 as real,
    ;
    lemma_order(solved.right.constant, solved.right.constant);
    assert forall|j: int| 0 <= j < p.rows.len() implies !(#[trigger] p.rows[j]).right.constant.is_negative() by {
        if j != r {
            let e = t.rows[j].right;
            assert(t.rows[j].wf());
            lemma_linear_substitute(e, name, solved.right);
            let aj = e.coeff(name);
            let cj = e.constant;
            lemma_coeff_wf(e, name);
            lemma_times(solved.right.constant, aj);
            lemma_plus(cj, solved.right.constant.times(aj));
            let updated = cj.plus(solved.right.constant.times(aj));
            assert(p.rows[j].right.constant == updated);
            lemma_order(cj, cj);
            lemma_order(aj, aj);
            lemma_order(updated, updated);
            assert(!t.rows[j].right.constant.is_negative());
            let ajv = aj.value();
            let cjv = cj.value();
            if aj.is_negative() {
                assert(t.restricts(j, name));
                lemma_solved_constant(t, j, name);
                lemma_order(t.bound(j, name), t.bound(r, name));
                let bj = t.bound(j, name).value();
                assert(cjv + sv * ajv >= 0 as real) by (nonlinear_arith)
                    requires
                        bj * (-ajv) == cjv,
                        bj >= sv,
                        ajv < 0 as real,
                ;
            } else {
                assert(cjv + sv * ajv >= 0 as real) by (nonlinear_arith)
                    requires
                        cjv >= 0 as real,
                        sv >= 0 as real,
                        ajv >= 0 as real,
                ;
            }
        }
    }
}

/// Putting the solved row in the place of a variable whose coefficient in
/// the objective is positive does not lower the objective's constant, and
/// raises it where the row's constant is positive.
pub proof fn lemma_objective_grows(objective: Linear, t: Tableau, r: int, name: Seq<char>)
    requires
        objective.wf(),
        t.wf(),
        t.is_dictionary(),
        t.is_valid(),
        0 <= r < t.rows.len(),
        t.restricts(r, name),
        objective.coeff(name).is_positive(),
    ensures
        !objective.substitute(name, t.rows[r].normalized(name).right).constant.lt(
            objective.constant,
        ),
        t.rows[r].right.constant.is_positive() ==> objective.constant.lt(
            objective.substitute(name, t.rows[r].normalized(name).right).constant,
        ),
{
    let solved = t.rows[r].normalized(name);
    lemma_solved_constant(t, r, name);
    lemma_linear_substitute(objective, name, solved.right);
    let k = objective.coeff(name);
    lemma_coeff_wf(objective, name);
    lemma_times(solved.right.constant, k);
    lemma_plus(objective.constant, solved.right.constant.times(k));
    let updated = objective.constant.plus(solved.right.constant.times(k));
    lemma_order(updated, objective.constant);
    lemma_order(objective.constant, updated);
    lemma_order(k, k);
    lemma_order(t.rows[r].right.constant, t.rows[r].right.constant);
    assert(!t.rows[r].right.constant.is_negative());
    let sv = solved.right.constant.value();
    let ar = t.rows[r].right.coeff(name).value();
    let cr = t.rows[r].right.constant.value();
    let kv = k.value();
    let ov = objective.constant.value();
    assert(ov + sv * kv >= ov && (cr > 0 as real ==> ov + sv * kv > ov)) by (nonlinear_arith)
        requires
            sv * (-ar) == cr,
            ar < 0 as real,
            cr >= 0 as real,
            kv > 0 as real,
    ;
}

} // verus!
