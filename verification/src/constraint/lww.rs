//! The last-writer-wins constraints on a row
//! `[v_curr, ts_curr, v_event, ts_event, v_next, ts_next, s]`:
//! the selector `s` is Boolean, and the next value and timestamp are the
//! event's when `s = 1` and the current ones when `s = 0`.
use vstd::prelude::*;
use crate::field::{P, all_fe, fadd, fsub, fmul, fe_add, fe_sub, fe_mul, modulus, lemma_mod_range, lemma_fe_eq, lemma_no_zero_divisors};
use vstd::arithmetic::div_mod::lemma_small_mod;
use crate::constraint::{Constraint, CompositeConstraint, sum_of_squares};

verus! {

/// The rows of the last-writer-wins constraints: seven field elements
/// (or more; the first seven are read).
pub open spec fn lww_row(vars: Seq<u32>) -> bool {
    vars.len() >= 7 && all_fe(vars)
}

/// `s (s' - e) + (1 - s)(s' - c)` in the field: zero exactly when the
/// next entry is the event's (`s = 1`) or the current one (`s = 0`).
pub open spec fn select_update(s: int, curr: int, event: int, next: int) -> int {
    fadd(fmul(s, fsub(next, event)), fmul(fsub(1, s), fsub(next, curr)))
}

/// Booleanity of the selector: `s (1 - s) = 0`.
pub struct LwwBooleanity;

/// Value update: `s (v_next - v_event) + (1 - s)(v_next - v_curr) = 0`.
pub struct LwwValue;

/// Timestamp update: `s (ts_next - ts_event) + (1 - s)(ts_next - ts_curr) = 0`.
pub struct LwwTimestamp;

impl Constraint for LwwBooleanity {
    open spec fn spec_arity(&self) -> nat {
        7
    }

    open spec fn admits(&self, vars: Seq<u32>) -> bool {
        lww_row(vars)
    }

    open spec fn spec_evaluate(&self, vars: Seq<u32>) -> int {
        fmul(vars[6] as int, fsub(1, vars[6] as int))
    }

    fn arity(&self) -> (n: usize) {
        7
    }

    fn evaluate(&self, vars: &[u32]) -> (r: u32) {
        let s = vars[6];
        fe_mul(s, fe_sub(1, s))
    }
}

/// `s (next - event) + (1 - s)(next - curr)` on field elements.
fn select_update_exec(s: u32, curr: u32, event: u32, next: u32) -> (r: u32)
    requires
        s < P,
        curr < P,
        event < P,
        next < P,
    ensures
        r < P,
        r == select_update(s as int, curr as int, event as int, next as int),
{
    fe_add(fe_mul(s, fe_sub(next, event)), fe_mul(fe_sub(1, s), fe_sub(next, curr)))
}

impl Constraint for LwwValue {
    open spec fn spec_arity(&self) -> nat {
        7
    }

    open spec fn admits(&self, vars: Seq<u32>) -> bool {
        lww_row(vars)
    }

    open spec fn spec_evaluate(&self, vars: Seq<u32>) -> int {
        select_update(vars[6] as int, vars[0] as int, vars[2] as int, vars[4] as int)
    }

    fn arity(&self) -> (n: usize) {
        7
    }

    fn evaluate(&self, vars: &[u32]) -> (r: u32) {
        select_update_exec(vars[6], vars[0], vars[2], vars[4])
    }
}

impl Constraint for LwwTimestamp {
    open spec fn spec_arity(&self) -> nat {
        7
    }

    open spec fn admits(&self, vars: Seq<u32>) -> bool {
        lww_row(vars)
    }

    open spec fn spec_evaluate(&self, vars: Seq<u32>) -> int {
        select_update(vars[6] as int, vars[1] as int, vars[3] as int, vars[5] as int)
    }

    fn arity(&self) -> (n: usize) {
        7
    }

    fn evaluate(&self, vars: &[u32]) -> (r: u32) {
        select_update_exec(vars[6], vars[1], vars[3], vars[5])
    }
}

/// One of the three last-writer-wins rules.
pub enum LwwRule {
    Booleanity(LwwBooleanity),
    Value(LwwValue),
    Timestamp(LwwTimestamp),
}

impl Constraint for LwwRule {
    open spec fn spec_arity(&self) -> nat {
        7
    }

    open spec fn admits(&self, vars: Seq<u32>) -> bool {
        lww_row(vars)
    }

    open spec fn spec_evaluate(&self, vars: Seq<u32>) -> int {
        match self {
            LwwRule::Booleanity(c) => c.spec_evaluate(vars),
            LwwRule::Value(c) => c.spec_evaluate(vars),
            LwwRule::Timestamp(c) => c.spec_evaluate(vars),
        }
    }

    fn arity(&self) -> (n: usize) {
        7
    }

    fn evaluate(&self, vars: &[u32]) -> (r: u32) {
        match self {
            LwwRule::Booleanity(c) => c.evaluate(vars),
            LwwRule::Value(c) => c.evaluate(vars),
            LwwRule::Timestamp(c) => c.evaluate(vars),
        }
    }
}

/// The composite of the three last-writer-wins rules, in the order
/// booleanity, value, timestamp.
pub fn lww_constraints() -> (c: CompositeConstraint<LwwRule>)
    ensures
        c.constraints@ == lww_rules(),
{
    let c = CompositeConstraint {
        constraints: vec![LwwRule::Booleanity(LwwBooleanity), LwwRule::Value(LwwValue), LwwRule::Timestamp(LwwTimestamp)],
    };
    assert(c.constraints@ =~= lww_rules());
    c
}

/// A row that takes the event (`s = 1`, next = event) or keeps the current
/// entry (`s = 0`, next = current).
pub open spec fn lww_valid(vars: Seq<u32>) -> bool {
    ||| vars[6] == 1 && vars[4] == vars[2] && vars[5] == vars[3]
    ||| vars[6] == 0 && vars[4] == vars[0] && vars[5] == vars[1]
}

/// Every last-writer-wins rule, and so their composite, vanishes on a valid
/// row.
pub proof fn lemma_lww_valid_row_vanishes(vars: Seq<u32>)
    requires
        lww_row(vars),
        lww_valid(vars),
    ensures
        LwwBooleanity.spec_evaluate(vars) == 0,
        LwwValue.spec_evaluate(vars) == 0,
        LwwTimestamp.spec_evaluate(vars) == 0,
        sum_of_squares(lww_rules(), vars, 3) == 0,
{
    assert(fsub(1, 1) == 0);
    assert(fsub(1, 0) == 1);
    assert(fsub(vars[4] as int, vars[4] as int) == 0);
    assert(fsub(vars[5] as int, vars[5] as int) == 0);
    assert(fmul(0, 0) == 0);
    assert(fmul(1, 0) == 0);
    assert(fmul(0, 1) == 0);
    assert(fadd(0, 0) == 0);
    let rs = lww_rules();
    assert(rs[0].spec_evaluate(vars) == 0);
    assert(rs[1].spec_evaluate(vars) == 0);
    assert(rs[2].spec_evaluate(vars) == 0);
    assert(sum_of_squares(rs, vars, 0) == 0);
    assert(sum_of_squares(rs, vars, 1) == fadd(sum_of_squares(rs, vars, 0), fmul(rs[0].spec_evaluate(vars), rs[0].spec_evaluate(vars))));
    assert(sum_of_squares(rs, vars, 1) == 0);
    assert(sum_of_squares(rs, vars, 2) == 0);
}

/// The rules of `lww_constraints`, in order.
pub open spec fn lww_rules() -> Seq<LwwRule> {
    seq![LwwRule::Booleanity(LwwBooleanity), LwwRule::Value(LwwValue), LwwRule::Timestamp(LwwTimestamp)]
}


/// A selector on which the booleanity rule vanishes is 0 or 1.
proof fn lemma_boolean_selector(sel: int)
    requires
        0 <= sel < modulus(),
        fmul(sel, fsub(1, sel)) == 0,
    ensures
        sel == 0 || sel == 1,
{
    let m = modulus();
    if sel != 0 && sel != 1 {
        lemma_small_mod(sel as nat, m as nat);
        lemma_mod_range(1 - sel);
        if fsub(1, sel) == 0 {
            lemma_fe_eq(1, sel);
        }
        lemma_small_mod(fsub(1, sel) as nat, m as nat);
        lemma_no_zero_divisors(sel, fsub(1, sel));
    }
}

/// An update rule that vanishes under a Boolean selector takes the event's
/// entry when the selector is one and keeps the current one when it is zero.
proof fn lemma_select_update_zero(sel: int, curr: int, event: int, next: int)
    requires
        sel == 0 || sel == 1,
        0 <= curr < modulus(),
        0 <= event < modulus(),
        0 <= next < modulus(),
        select_update(sel, curr, event, next) == 0,
    ensures
        sel == 1 ==> next == event,
        sel == 0 ==> next == curr,
{
    let m = modulus();
    lemma_mod_range(next - event);
    lemma_mod_range(next - curr);
    lemma_small_mod(fsub(next, event) as nat, m as nat);
    lemma_small_mod(fsub(next, curr) as nat, m as nat);
    assert(fsub(1, 1) == 0);
    assert(fsub(1, 0) == 1);
    if sel == 1 {
        assert(fmul(0, fsub(next, curr)) == 0);
        assert(1 * fsub(next, event) == fsub(next, event));
        assert(fmul(1, fsub(next, event)) == fsub(next, event));
        lemma_fe_eq(next, event);
    } else {
        assert(fmul(0, fsub(next, event)) == 0);
        assert(1 * fsub(next, curr) == fsub(next, curr));
        assert(fmul(1, fsub(next, curr)) == fsub(next, curr));
        lemma_fe_eq(next, curr);
    }
}

/// Exactly the valid rows satisfy the rules: a row on which each of the
/// three last-writer-wins rules vanishes takes the event (`s = 1`) or keeps
/// the current entry (`s = 0`).
pub proof fn lemma_lww_vanishing_rules_valid(vars: Seq<u32>)
    requires
        lww_row(vars),
        LwwBooleanity.spec_evaluate(vars) == 0,
        LwwValue.spec_evaluate(vars) == 0,
        LwwTimestamp.spec_evaluate(vars) == 0,
    ensures
        lww_valid(vars),
{
    assert(vars[0] < P && vars[1] < P && vars[2] < P && vars[3] < P);
    assert(vars[4] < P && vars[5] < P && vars[6] < P);
    lemma_boolean_selector(vars[6] as int);
    lemma_select_update_zero(vars[6] as int, vars[0] as int, vars[2] as int, vars[4] as int);
    lemma_select_update_zero(vars[6] as int, vars[1] as int, vars[3] as int, vars[5] as int);
}
} // verus!
