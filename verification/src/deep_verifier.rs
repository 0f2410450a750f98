//! The DEEP-ALI prover and verifier over BabyBear: trace columns are
//! interpolated through the points `0 .. height-1`, evaluated out of the
//! domain, divided by `x - z`, and AIR constraints are checked at DEEP
//! points.
use vstd::prelude::*;
use vstd::arithmetic::div_mod::*;
use crate::field::{P, modulus, all_fe, fadd, fmul, finv, fe_add, fe_mul, fe_inv, fe_from_u64, lemma_mod_range};
use crate::algebra::{poly_eval, peval};
use crate::text::{decimal, append_decimal};
use crate::matrix::{RowMajorMatrix, lemma_height_times_width, lemma_index_in_bounds};
use crate::fft::Radix2Interpolator;
use crate::lagrange::{interpolates, lagrange_singular, lemma_not_singular, interpolate_lagrange_naive, quotient_by_linear, divide_by_linear};
use crate::deep_ali::{DeepAliError, SoundnessAccumulator, DEEP_ALI_LAMBDA};
use crate::transcript::{DeepTranscript, deep_transcript_log, duplex24_sample, observe_all};
use crate::folded::table_at;

verus! {

/// An out-of-domain query of one trace column.
#[derive(Clone, Copy, Debug, PartialEq, Eq)]
pub struct DeepQuery {
    pub point: u32,
    pub trace_index: usize,
    pub column_index: usize,
}

/// The answer to a query.
#[derive(Clone, Copy, Debug, PartialEq, Eq)]
pub struct DeepResponse {
    pub value: u32,
    pub query: DeepQuery,
}

/// An AIR constraint to check at a DEEP point: its numerator (coefficient
/// form; when empty, the sum of the column values is used), the value of
/// the vanishing polynomial there, and the columns it involves with their
/// shifts.
#[derive(Clone, Debug)]
pub struct AlgebraicLink {
    pub constraint_index: usize,
    pub numerator: Vec<u32>,
    pub denominator: u32,
    pub deep_point: u32,
    pub involved_columns: Vec<usize>,
    pub shifts: Vec<usize>,
}

/// `c(x)` by Horner's rule.
pub fn eval_poly_horner(coeffs: &Vec<u32>, x: u32) -> (r: u32)
    requires
        all_fe(coeffs@),
        x < P,
    ensures
        r < P,
        r == peval(coeffs@, x as int),
{
    let r = Radix2Interpolator::evaluate_coeffs(coeffs, x);
    proof {
        lemma_mod_range(poly_eval(coeffs@, x as int));
    }
    r
}

/// `polys` interpolates each column of `trace`.
pub open spec fn interpolates_trace(trace: RowMajorMatrix, polys: Seq<Seq<u32>>) -> bool {
    &&& polys.len() == trace.width
    &&& forall|c: int| 0 <= c < polys.len() ==> interpolates(#[trigger] polys[c], trace.column(c)) && all_fe(polys[c])
}

/// The point `z + shift`, the shift taken as a 32-bit field element.
pub open spec fn shifted_point(z: int, shift: usize) -> int {
    fadd(z, (shift as u32) as int % modulus())
}

/// The polynomials of the trace columns.
pub struct TraceEvaluator {
    column_polynomials: Vec<Vec<u32>>,
}

impl TraceEvaluator {
    /// The column polynomials, by column.
    pub closed spec fn polynomials(&self) -> Seq<Seq<u32>> {
        self.column_polynomials@.map_values(|v: Vec<u32>| v@)
    }

    /// Every coefficient is a field element.
    pub closed spec fn wf(&self) -> bool {
        forall|c: int| 0 <= c < self.column_polynomials@.len() ==> all_fe(#[trigger] self.column_polynomials@[c]@)
    }

    /// Interpolate every column of `trace`.
    pub fn from_trace(trace: &RowMajorMatrix) -> (r: Result<Self, DeepAliError>)
        requires
            trace.wf(),
            trace.spec_height() <= P,
        ensures
            r matches Ok(ev) ==> interpolates_trace(*trace, ev.polynomials()) && ev.wf(),
            r is Err <==> trace.width > 0 && (trace.spec_height() == 0 || lagrange_singular(trace.spec_height())),
            trace.width > 0 && trace.spec_height() == 0 ==> (r matches Err(DeepAliError::InterpolationFailure { reason })
                && reason@ == "empty evaluation vector"@),
            trace.width > 0 && trace.spec_height() > 0 && lagrange_singular(trace.spec_height()) ==> (r matches Err(
                DeepAliError::InterpolationFailure { reason },
            ) && reason@ == "singular interpolation denominator"@),
    {
        let height = trace.height();
        let num_cols = trace.width();
        let mut column_polynomials: Vec<Vec<u32>> = Vec::new();
        let mut col: usize = 0;
        while col < num_cols
            invariant
                trace.wf(),
                height == trace.spec_height(),
                height <= P,
                num_cols == trace.width,
                col <= num_cols,
                column_polynomials@.len() == col,
                col > 0 ==> height > 0 && !lagrange_singular(height as nat),
                forall|c: int| 0 <= c < col ==> interpolates(#[trigger] column_polynomials@[c]@, trace.column(c))
                    && all_fe(column_polynomials@[c]@),
            decreases num_cols - col,
        {
            let evaluations = column_values(trace, col);
            let coeffs = interpolate_lagrange_naive(evaluations.as_slice());
            match coeffs {
                Ok(c) => {
                    column_polynomials.push(c);
                },
                Err(e) => {
                    return Err(e);
                },
            }
            col = col + 1;
        }
        let ev = TraceEvaluator { column_polynomials };
        proof {
            assert(ev.polynomials().len() == trace.width);
            assert forall|c: int| 0 <= c < ev.polynomials().len() implies interpolates(#[trigger] ev.polynomials()[c], trace.column(c))
                && all_fe(ev.polynomials()[c]) by {
                assert(ev.polynomials()[c] == ev.column_polynomials@[c]@);
            }
        }
        Ok(ev)
    }

    /// The value of column `col_idx`'s polynomial at `z`.
    pub fn evaluate_column(&self, col_idx: usize, z: u32) -> (r: Result<u32, DeepAliError>)
        requires
            self.wf(),
            z < P,
        ensures
            col_idx < self.polynomials().len() ==> r == Ok::<u32, DeepAliError>(peval(self.polynomials()[col_idx as int], z as int) as u32),
            col_idx < self.polynomials().len() ==> peval(self.polynomials()[col_idx as int], z as int) < P,
            col_idx >= self.polynomials().len() ==> (r matches Err(DeepAliError::TraceEvaluationFailure { column, point, reason })
                && column == col_idx && point@ == decimal(z as nat)
                && reason@ == "column index out of bounds (max "@ + decimal(self.polynomials().len()) + ")"@),
    {
        let len = self.column_polynomials.len();
        if col_idx >= len {
            let mut point = String::new();
            append_decimal(&mut point, z as u64);
            let mut reason = String::from_str("column index out of bounds (max ");
            append_decimal(&mut reason, len as u64);
            reason.append(")");
            proof {
                assert(point@ =~= decimal(z as nat));
            }
            return Err(DeepAliError::TraceEvaluationFailure { column: col_idx, point, reason });
        }
        proof {
            assert(self.polynomials()[col_idx as int] == self.column_polynomials@[col_idx as int]@);
        }
        Ok(eval_poly_horner(&self.column_polynomials[col_idx], z))
    }

    /// The values of the polynomials of columns `col_indices` at `z`; the
    /// first column out of range fails.
    pub fn evaluate_columns(&self, col_indices: &[usize], z: u32) -> (r: Result<Vec<u32>, DeepAliError>)
        requires
            self.wf(),
            z < P,
        ensures
            (forall|i: int| 0 <= i < col_indices@.len() ==> #[trigger] col_indices@[i] < self.polynomials().len()) <==> r is Ok,
            r matches Ok(v) ==> v@.len() == col_indices@.len() && forall|i: int| 0 <= i < col_indices@.len()
                ==> #[trigger] v@[i] == peval(self.polynomials()[col_indices@[i] as int], z as int),
            r is Err ==> exists|i: int| 0 <= i < col_indices@.len() && #[trigger] col_indices@[i] >= self.polynomials().len()
                && (forall|k: int| 0 <= k < i ==> #[trigger] col_indices@[k] < self.polynomials().len())
                && (r matches Err(DeepAliError::TraceEvaluationFailure { column, point, reason }) && column == col_indices@[i]
                && point@ == decimal(z as nat)),
    {
        let mut out: Vec<u32> = Vec::new();
        let mut i: usize = 0;
        while i < col_indices.len()
            invariant
                self.wf(),
                z < P,
                i <= col_indices@.len(),
                out@.len() == i,
                forall|k: int| 0 <= k < i ==> #[trigger] col_indices@[k] < self.polynomials().len(),
                forall|k: int| 0 <= k < i ==> #[trigger] out@[k] == peval(self.polynomials()[col_indices@[k] as int], z as int),
            decreases col_indices@.len() - i,
        {
            let v = self.evaluate_column(col_indices[i], z);
            match v {
                Ok(x) => {
                    out.push(x);
                },
                Err(e) => {
                    return Err(e);
                },
            }
            i = i + 1;
        }
        Ok(out)
    }

    /// The value of column `col_idx`'s polynomial at `z + shift`.
    pub fn evaluate_shifted(&self, col_idx: usize, z: u32, shift: usize) -> (r: Result<u32, DeepAliError>)
        requires
            self.wf(),
            z < P,
        ensures
            col_idx < self.polynomials().len() ==> r == Ok::<u32, DeepAliError>(
                peval(self.polynomials()[col_idx as int], shifted_point(z as int, shift)) as u32,
            ),
            col_idx < self.polynomials().len() ==> peval(self.polynomials()[col_idx as int], shifted_point(z as int, shift)) < P,
            col_idx >= self.polynomials().len() ==> (r matches Err(DeepAliError::TraceEvaluationFailure { column, point, reason })
                && column == col_idx && point@ == decimal(shifted_point(z as int, shift) as nat)),
    {
        let s = fe_from_u64((shift as u32) as u64);
        let shifted_z = fe_add(z, s);
        self.evaluate_column(col_idx, shifted_z)
    }
}

/// Column `col` of the trace, top to bottom.
fn column_values(trace: &RowMajorMatrix, col: usize) -> (v: Vec<u32>)
    requires
        trace.wf(),
        col < trace.width,
    ensures
        v@ == trace.column(col as int),
        all_fe(v@),
{
    let h = trace.height();
    let mut v: Vec<u32> = Vec::new();
    let mut r: usize = 0;
    while r < h
        invariant
            trace.wf(),
            h == trace.spec_height(),
            col < trace.width,
            r <= h,
            v@.len() == r,
            all_fe(v@),
            forall|k: int| 0 <= k < r ==> #[trigger] v@[k] == trace.entry(k, col as int),
        decreases h - r,
    {
        let x = trace.get(r, col);
        proof {
            lemma_index_in_bounds(r as int, col as int, trace.width as int, h as int);
            lemma_height_times_width(trace.values@.len() as int, trace.width as int);
        }
        match x {
            Some(val) => {
                v.push(val);
            },
            None => {
                proof {
                    assert(false);
                }
            },
        }
        r = r + 1;
    }
    assert(v@ =~= trace.column(col as int));
    v
}

/// `q` is the quotient by `x - z` of a polynomial through the values of
/// `col` at `0 .. col.len()-1`.
pub open spec fn is_deep_quotient(col: Seq<u32>, z: int, q: Seq<u32>) -> bool {
    exists|c: Seq<u32>| interpolates(c, col) && all_fe(c) && q == quotient_by_linear(c, z)
}

/// The DEEP-ALI checker for traces of `num_columns` columns whose combined
/// quotient must stay below degree `max_degree`.
#[derive(Clone, Copy, Debug)]
pub struct BabyBearDeepAli {
    pub max_degree: usize,
    pub num_columns: usize,
}


/// The number of (column, shift) pairs of a link.
pub open spec fn link_pairs(link: AlgebraicLink) -> nat {
    if link.involved_columns@.len() <= link.shifts@.len() {
        link.involved_columns@.len()
    } else {
        link.shifts@.len()
    }
}

/// The point at which pair `i` of a link is evaluated.
pub open spec fn link_point(link: AlgebraicLink, i: int) -> int {
    if link.shifts@[i] == 0 {
        link.deep_point as int
    } else {
        shifted_point(link.deep_point as int, link.shifts@[i])
    }
}

/// The sum, in the field, of the first `t` column values of a link.
pub open spec fn link_sum(polys: Seq<Seq<u32>>, link: AlgebraicLink, t: nat) -> int
    decreases t,
{
    if t == 0 {
        0
    } else {
        fadd(
            link_sum(polys, link, (t - 1) as nat),
            peval(polys[link.involved_columns@[t - 1] as int], link_point(link, t - 1)),
        )
    }
}

/// The constraint's value at the DEEP point: the numerator's value there,
/// or the sum of the column values when there is no numerator.
pub open spec fn constraint_value(polys: Seq<Seq<u32>>, link: AlgebraicLink) -> int {
    if link.numerator@.len() == 0 {
        link_sum(polys, link, link_pairs(link))
    } else {
        peval(link.numerator@, link.deep_point as int)
    }
}

/// The constraint's value divided by the vanishing polynomial's value.
pub open spec fn air_value(polys: Seq<Seq<u32>>, link: AlgebraicLink) -> int {
    fmul(constraint_value(polys, link), finv(link.denominator as int))
}

/// Every column the link refers to is below both `num_columns` and the
/// trace width.
pub open spec fn link_columns_ok(num_columns: usize, width: usize, link: AlgebraicLink) -> bool {
    forall|i: int| 0 <= i < link_pairs(link) ==> #[trigger] link.involved_columns@[i] < num_columns
        && link.involved_columns@[i] < width
}

/// The trace can be interpolated column by column.
pub open spec fn trace_interpolable(trace: RowMajorMatrix) -> bool {
    !(trace.width > 0 && (trace.spec_height() == 0 || lagrange_singular(trace.spec_height())))
}

/// A trace of at most `p` rows, with rows wherever it has columns, can be
/// interpolated: its points `0 .. height-1` are distinct in the field.
pub proof fn lemma_trace_interpolable(trace: RowMajorMatrix)
    requires
        trace.spec_height() <= P,
        trace.width > 0 ==> trace.spec_height() > 0,
    ensures
        trace_interpolable(trace),
{
    lemma_not_singular(trace.spec_height());
}

proof fn lemma_link_sum_unique(trace: RowMajorMatrix, p1: Seq<Seq<u32>>, p2: Seq<Seq<u32>>, link: AlgebraicLink, t: nat)
    requires
        interpolates_trace(trace, p1),
        interpolates_trace(trace, p2),
        trace.spec_height() <= P,
        t <= link_pairs(link),
        forall|i: int| 0 <= i < link_pairs(link) ==> #[trigger] link.involved_columns@[i] < trace.width,
    ensures
        link_sum(p1, link, t) == link_sum(p2, link, t),
    decreases t,
{
    if t > 0 {
        lemma_link_sum_unique(trace, p1, p2, link, (t - 1) as nat);
        let col = link.involved_columns@[t - 1] as int;
        assert(col < trace.width);
        crate::lagrange::lemma_interpolation_unique(p1[col], p2[col], trace.column(col), link_point(link, t - 1));
    }
}

/// The value of a link does not depend on which interpolation of the trace
/// it is read from: interpolation over at most `p` rows is unique.
pub proof fn lemma_air_value_unique(trace: RowMajorMatrix, p1: Seq<Seq<u32>>, p2: Seq<Seq<u32>>, link: AlgebraicLink)
    requires
        interpolates_trace(trace, p1),
        interpolates_trace(trace, p2),
        trace.spec_height() <= P,
        forall|i: int| 0 <= i < link_pairs(link) ==> #[trigger] link.involved_columns@[i] < trace.width,
    ensures
        air_value(p1, link) == air_value(p2, link),
{
    lemma_link_sum_unique(trace, p1, p2, link, link_pairs(link));
}

/// The link evaluates, and to zero, for some interpolation of the trace.
pub open spec fn link_holds(num_columns: usize, trace: RowMajorMatrix, link: AlgebraicLink) -> bool {
    &&& trace_interpolable(trace)
    &&& link_columns_ok(num_columns, trace.width, link)
    &&& link.denominator != 0
    &&& exists|polys: Seq<Seq<u32>>| interpolates_trace(trace, polys) && air_value(polys, link) == 0
}

/// Entry `j` of the combination, with weights `ws`, of the first `t`
/// tables of `qs`.
pub open spec fn comb_at(qs: Seq<Seq<u32>>, ws: Seq<u32>, t: nat, j: int) -> int
    decreases t,
{
    if t == 0 {
        0
    } else {
        fadd(comb_at(qs, ws, (t - 1) as nat, j), fmul(ws[t - 1] as int, table_at(qs[t - 1], j)))
    }
}

/// The longest length among the tables.
pub open spec fn max_len(qs: Seq<Seq<u32>>, t: nat) -> nat
    decreases t,
{
    if t == 0 {
        0
    } else if qs[t - 1].len() > max_len(qs, (t - 1) as nat) {
        qs[t - 1].len()
    } else {
        max_len(qs, (t - 1) as nat)
    }
}

/// The weighted combination of all the tables, as long as the longest.
pub open spec fn combination(qs: Seq<Seq<u32>>, ws: Seq<u32>) -> Seq<u32> {
    Seq::new(max_len(qs, qs.len()), |j: int| comb_at(qs, ws, qs.len(), j) as u32)
}

/// `s` without its trailing zeros.
pub open spec fn trim_zeros(s: Seq<u32>) -> Seq<u32>
    decreases s.len(),
{
    if s.len() > 0 && s.last() == 0 {
        trim_zeros(s.drop_last())
    } else {
        s
    }
}

/// The degree of a trimmed coefficient sequence (zero for no coefficients).
pub open spec fn degree_of(s: Seq<u32>) -> nat {
    if s.len() == 0 {
        0
    } else {
        (s.len() - 1) as nat
    }
}

/// The weights that `n` samples after the operations `log` give.
pub open spec fn sampled_weights(log: Seq<Option<u32>>, n: nat) -> Seq<u32> {
    Seq::new(n, |i: int| duplex24_sample(log + Seq::new(i as nat, |k: int| None::<u32>)))
}

/// The log after `n` samples.
pub open spec fn after_samples(log: Seq<Option<u32>>, n: nat) -> Seq<Option<u32>> {
    log + Seq::new(n, |k: int| None::<u32>)
}

proof fn lemma_comb_range(qs: Seq<Seq<u32>>, ws: Seq<u32>, t: nat, j: int)
    ensures
        0 <= comb_at(qs, ws, t, j) < modulus(),
{
    if t > 0 {
        lemma_mod_range(comb_at(qs, ws, (t - 1) as nat, j) + fmul(ws[t - 1] as int, table_at(qs[t - 1], j)));
    }
}

/// The views of the tables.
pub open spec fn views_of(v: Seq<Vec<u32>>) -> Seq<Seq<u32>> {
    v.map_values(|x: Vec<u32>| x@)
}

/// Combine quotients with their weights, drop trailing zero
/// coefficients, and check the degree bound.
pub fn combine_quotients(quotients: &Vec<Vec<u32>>, weights: &Vec<u32>, max_degree: usize) -> (r: Result<Vec<u32>, DeepAliError>)
    requires
        quotients@.len() == weights@.len(),
        all_fe(weights@),
        forall|i: int| 0 <= i < quotients@.len() ==> all_fe(#[trigger] quotients@[i]@),
    ensures
        degree_of(trim_zeros(combination(views_of(quotients@), weights@))) < max_degree
            ==> (r matches Ok(c) && c@ == trim_zeros(combination(views_of(quotients@), weights@))),
        degree_of(trim_zeros(combination(views_of(quotients@), weights@))) >= max_degree ==> (r matches Err(
            DeepAliError::InvalidDeepPoint { point, reason },
        ) && point@ == "COMBINED_QUOTIENT"@ && reason@ == "degree "@ + decimal(
            degree_of(trim_zeros(combination(views_of(quotients@), weights@))),
        ) + " exceeds bound "@ + decimal(max_degree as nat)),
{
    let ghost qs = views_of(quotients@);
    let mut max_deg: usize = 0;
    let mut t: usize = 0;
    while t < quotients.len()
        invariant
            qs == views_of(quotients@),
            t <= quotients@.len(),
            max_deg == max_len(qs, t as nat),
        decreases quotients@.len() - t,
    {
        if quotients[t].len() > max_deg {
            max_deg = quotients[t].len();
        }
        t = t + 1;
    }
    let mut combined: Vec<u32> = Vec::new();
    let mut j: usize = 0;
    while j < max_deg
        invariant
            j <= max_deg,
            combined@.len() == j,
            forall|q: int| 0 <= q < j ==> #[trigger] combined@[q] == 0,
        decreases max_deg - j,
    {
        combined.push(0);
        j = j + 1;
    }
    let mut t: usize = 0;
    while t < quotients.len()
        invariant
            qs == views_of(quotients@),
            quotients@.len() == weights@.len(),
            all_fe(weights@),
            forall|i: int| 0 <= i < quotients@.len() ==> all_fe(#[trigger] quotients@[i]@),
            max_deg == max_len(qs, qs.len()),
            t <= quotients@.len(),
            combined@.len() == max_deg,
            forall|q: int| 0 <= q < max_deg ==> #[trigger] combined@[q] == comb_at(qs, weights@, t as nat, q),
        decreases quotients@.len() - t,
    {
        let quotient = &quotients[t];
        let weight = weights[t];
        proof {
            lemma_max_len_ge(qs, qs.len(), t as int);
            assert(qs[t as int] == quotient@);
        }
        let mut j: usize = 0;
        while j < max_deg
            invariant
                combined@.len() == max_deg,
                quotient@ == qs[t as int],
                quotient@.len() <= max_deg,
                all_fe(quotient@),
                weight == weights@[t as int],
                weight < P,
                t < qs.len(),
                j <= max_deg,
                forall|q: int| 0 <= q < j ==> #[trigger] combined@[q] == comb_at(qs, weights@, (t + 1) as nat, q),
                forall|q: int| j <= q < max_deg ==> #[trigger] combined@[q] == comb_at(qs, weights@, t as nat, q),
            decreases max_deg - j,
        {
            proof {
                lemma_comb_range(qs, weights@, t as nat, j as int);
            }
            if j < quotient.len() {
                let v = fe_add(combined[j], fe_mul(weight, quotient[j]));
                combined.set(j, v);
            } else {
                proof {
                    lemma_small_mod(0, modulus() as nat);
                    assert(fmul(weight as int, 0) == 0);
                    lemma_small_mod(combined@[j as int] as nat, modulus() as nat);
                }
            }
            j = j + 1;
        }
        t = t + 1;
    }
    proof {
        assert(combined@ =~= combination(qs, weights@)) by {
            assert forall|q: int| 0 <= q < max_deg implies #[trigger] combined@[q] == combination(qs, weights@)[q] by {
                lemma_comb_range(qs, weights@, qs.len(), q);
            }
        }
    }
    let ghost full = combined@;
    while combined.len() > 0 && combined[combined.len() - 1] == 0
        invariant
            trim_zeros(combined@) == trim_zeros(full),
        decreases combined@.len(),
    {
        combined.pop();
    }
    proof {
        assert(trim_zeros(combined@) == combined@);
    }
    let actual_degree: usize = if combined.len() == 0 { 0 } else { combined.len() - 1 };
    if actual_degree >= max_degree {
        let point = String::from_str("COMBINED_QUOTIENT");
        let mut reason = String::from_str("degree ");
        append_decimal(&mut reason, actual_degree as u64);
        reason.append(" exceeds bound ");
        append_decimal(&mut reason, max_degree as u64);
        return Err(DeepAliError::InvalidDeepPoint { point, reason });
    }
    Ok(combined)
}

proof fn lemma_max_len_ge(qs: Seq<Seq<u32>>, t: nat, i: int)
    requires
        0 <= i < t,
    ensures
        qs[i].len() <= max_len(qs, t),
    decreases t,
{
    if i < t - 1 {
        lemma_max_len_ge(qs, (t - 1) as nat, i);
    }
}

impl BabyBearDeepAli {
    pub fn new(max_degree: usize, num_columns: usize) -> (s: Self)
        ensures
            s.max_degree == max_degree,
            s.num_columns == num_columns,
    {
        BabyBearDeepAli { max_degree, num_columns }
    }

    /// The quotient by `x - z` of the interpolated polynomial of the
    /// queried column, `z` the query point.
    pub fn compute_single_quotient(&self, trace: &RowMajorMatrix, query: &DeepQuery) -> (r: Result<Vec<u32>, DeepAliError>)
        requires
            trace.wf(),
            trace.spec_height() <= P,
            trace.spec_height() != 1,
            query.column_index < trace.width,
            query.point < P,
        ensures
            r is Ok <==> trace.spec_height() >= 2,
            r is Err ==> (r matches Err(DeepAliError::InterpolationFailure { reason })
                && reason@ == "empty evaluation vector"@),
            r matches Ok(q) ==> is_deep_quotient(trace.column(query.column_index as int), query.point as int, q@)
                && all_fe(q@) && q@.len() == trace.spec_height() - 1,
    {
        proof {
            lemma_not_singular(trace.spec_height());
        }
        let col_idx = query.column_index;
        let z = query.point;
        let evaluations = column_values(trace, col_idx);
        let coeffs = match interpolate_lagrange_naive(evaluations.as_slice()) {
            Ok(c) => c,
            Err(e) => {
                return Err(e);
            },
        };
        let fz = eval_poly_horner(&coeffs, z);
        let n = coeffs.len();
        if n == 0 {
            return Err(DeepAliError::InterpolationFailure { reason: String::from_str("empty polynomial") });
        }
        let quotient = divide_by_linear(&coeffs, z);
        let remainder = fe_add(coeffs[0], fe_mul(z, quotient[0]));
        proof {
            let c = coeffs@;
            let t = c.subrange(1, n as int);
            assert(t =~= c.drop_first());
            let pe = poly_eval(t, z as int);
            crate::algebra::lemma_cong_mod(pe);
            crate::algebra::lemma_cong_mul(z as int, z as int, pe % modulus(), pe);
            crate::algebra::lemma_cong_mod((z as int) * (pe % modulus()));
            crate::algebra::lemma_cong_add(c[0] as int, c[0] as int, fmul(z as int, pe % modulus()), (z as int) * pe);
            crate::algebra::lemma_cong_mod(c[0] + fmul(z as int, pe % modulus()));
            lemma_mod_range(c[0] + fmul(z as int, pe % modulus()));
            lemma_mod_range(poly_eval(c, z as int));
            crate::algebra::lemma_cong_mod(poly_eval(c, z as int));
            crate::algebra::lemma_cong_small_eq(remainder as int, fz as int);
        }
        if remainder != fz {
            let mut expected = String::new();
            append_decimal(&mut expected, fz as u64);
            let mut actual = String::new();
            append_decimal(&mut actual, remainder as u64);
            return Err(DeepAliError::QuotientRemainderNonZero { expected, actual });
        }
        Ok(quotient)
    }
}


impl BabyBearDeepAli {
    /// The link's constraint at its DEEP point, divided by the vanishing
    /// polynomial's value there.
    pub fn evaluate_air_constraint(&self, trace: &RowMajorMatrix, link: &AlgebraicLink) -> (r: Result<u32, DeepAliError>)
        requires
            trace.wf(),
            trace.spec_height() <= P,
            link.deep_point < P,
            link.denominator < P,
            all_fe(link.numerator@),
        ensures
            r is Ok <==> trace_interpolable(*trace) && link_columns_ok(self.num_columns, trace.width, *link)
                && link.denominator != 0,
            r matches Ok(v) ==> exists|polys: Seq<Seq<u32>>| interpolates_trace(*trace, polys) && v == air_value(polys, *link),
            !trace_interpolable(*trace) ==> (r matches Err(DeepAliError::InterpolationFailure { reason })),
            trace_interpolable(*trace) && !link_columns_ok(self.num_columns, trace.width, *link) ==> exists|i: int|
                0 <= i < link_pairs(*link) && !(#[trigger] link.involved_columns@[i] < self.num_columns
                && link.involved_columns@[i] < trace.width) && (forall|k: int| 0 <= k < i ==> #[trigger] link.involved_columns@[k]
                < self.num_columns && link.involved_columns@[k] < trace.width) && (if link.involved_columns@[i]
                >= self.num_columns {
                r matches Err(DeepAliError::InvalidDeepPoint { point, reason }) && point@ == decimal(link.deep_point as nat)
                    && reason@ == "constraint references column "@ + decimal(link.involved_columns@[i] as nat)
                    + " out of bounds"@
            } else {
                r matches Err(DeepAliError::TraceEvaluationFailure { column, point, reason }) && column
                    == link.involved_columns@[i]
            }),
            trace_interpolable(*trace) && link_columns_ok(self.num_columns, trace.width, *link) && link.denominator == 0
                ==> (r matches Err(DeepAliError::InvalidDeepPoint { point, reason }) && point@ == decimal(
                link.deep_point as nat,
            ) && reason@ == "DEEP point lies in trace domain (vanishing polynomial is zero)"@),
    {
        let evaluator = match TraceEvaluator::from_trace(trace) {
            Ok(ev) => ev,
            Err(e) => {
                return Err(e);
            },
        };
        let ghost polys = evaluator.polynomials();
        let z = link.deep_point;
        let pairs: usize = if link.involved_columns.len() <= link.shifts.len() {
            link.involved_columns.len()
        } else {
            link.shifts.len()
        };
        let mut local_sum: u32 = 0;
        let mut i: usize = 0;
        proof {
            lemma_small_mod(0, modulus() as nat);
        }
        while i < pairs
            invariant
                evaluator.wf(),
                trace_interpolable(*trace),
                interpolates_trace(*trace, polys),
                polys == evaluator.polynomials(),
                pairs == link_pairs(*link),
                z == link.deep_point,
                z < P,
                i <= pairs,
                local_sum < P,
                local_sum == link_sum(polys, *link, i as nat),
                forall|k: int| 0 <= k < i ==> #[trigger] link.involved_columns@[k] < self.num_columns
                    && link.involved_columns@[k] < trace.width,
            decreases pairs - i,
        {
            let col_idx = link.involved_columns[i];
            let shift = link.shifts[i];
            if col_idx >= self.num_columns {
                let mut point = String::new();
                append_decimal(&mut point, z as u64);
                let mut reason = String::from_str("constraint references column ");
                append_decimal(&mut reason, col_idx as u64);
                reason.append(" out of bounds");
                proof {
                    assert(point@ =~= decimal(z as nat));
                }
                return Err(DeepAliError::InvalidDeepPoint { point, reason });
            }
            let ev = if shift == 0 {
                evaluator.evaluate_column(col_idx, z)
            } else {
                evaluator.evaluate_shifted(col_idx, z, shift)
            };
            let v = match ev {
                Ok(v) => v,
                Err(e) => {
                    return Err(e);
                },
            };
            local_sum = fe_add(local_sum, v);
            i = i + 1;
        }
        let constraint = if link.numerator.len() == 0 {
            local_sum
        } else {
            eval_poly_horner(&link.numerator, z)
        };
        if link.denominator == 0 {
            let mut point = String::new();
            append_decimal(&mut point, z as u64);
            let reason = String::from_str("DEEP point lies in trace domain (vanishing polynomial is zero)");
            proof {
                assert(point@ =~= decimal(z as nat));
            }
            return Err(DeepAliError::InvalidDeepPoint { point, reason });
        }
        let inv = fe_inv(link.denominator);
        let v = fe_mul(constraint, inv);
        proof {
            assert(v == air_value(polys, *link));
        }
        Ok(v)
    }

}

/// A DEEP-ALI verifier: checks batches of DEEP responses against the
/// AIR links, and computes the combined DEEP quotient.
pub trait DeepAliVerifier {
    /// What `verify_deep_batch` reads: a well-formed trace, field-element
    /// responses and links, and an accumulator whose counters can grow.
    spec fn batch_inputs_ok(
        &self,
        trace: RowMajorMatrix,
        queries: Seq<DeepResponse>,
        links: Seq<AlgebraicLink>,
        accumulator: SoundnessAccumulator,
    ) -> bool;

    /// What `compute_deep_quotient` reads.
    spec fn quotient_inputs_ok(&self, trace: RowMajorMatrix, queries: Seq<DeepQuery>) -> bool;

    fn verify_deep_batch(
        &self,
        trace: &RowMajorMatrix,
        trace_commitment: &(),
        queries: &[DeepResponse],
        links: &[AlgebraicLink],
        accumulator: &mut SoundnessAccumulator,
        challenger: &mut DeepTranscript,
        owsl_permits: bool,
    ) -> (r: Result<(), DeepAliError>)
        requires
            self.batch_inputs_ok(*trace, queries@, links@, *old(accumulator)),
    ;

    fn compute_deep_quotient(
        &self,
        trace: &RowMajorMatrix,
        queries: &[DeepQuery],
        challenger: &mut DeepTranscript,
        owsl_permits: bool,
    ) -> (r: Result<Vec<u32>, DeepAliError>)
        requires
            self.quotient_inputs_ok(*trace, queries@),
    ;
}

impl DeepAliVerifier for BabyBearDeepAli {
    open spec fn batch_inputs_ok(
        &self,
        trace: RowMajorMatrix,
        queries: Seq<DeepResponse>,
        links: Seq<AlgebraicLink>,
        accumulator: SoundnessAccumulator,
    ) -> bool {
        &&& trace.wf()
        &&& trace.spec_height() <= P
        &&& forall|q: int| 0 <= q < queries.len() ==> (#[trigger] queries[q]).value < P
        &&& forall|l: int| 0 <= l < links.len() ==> (#[trigger] links[l]).deep_point < P && links[l].denominator < P
            && all_fe(links[l].numerator@)
        &&& accumulator.bits_consumed + accumulator.bits_remaining <= usize::MAX
        &&& accumulator.round < usize::MAX
    }

    /// A one-row trace cannot be divided by `x - z` once a query reaches a
    /// column: the first query must then be out of range.
    open spec fn quotient_inputs_ok(&self, trace: RowMajorMatrix, queries: Seq<DeepQuery>) -> bool {
        &&& trace.wf()
        &&& trace.spec_height() <= P
        &&& trace.spec_height() == 1 && queries.len() > 0 ==> queries[0].column_index >= self.num_columns
        &&& forall|q: int| 0 <= q < queries.len() ==> (#[trigger] queries[q]).point < P
            && (queries[q].column_index < self.num_columns ==> queries[q].column_index < trace.width)
    }

    /// Check a batch of DEEP responses and AIR links: spend the batch's
    /// share of the soundness budget, check and absorb each response,
    /// require every link to vanish, and honour the safety gate.
    fn verify_deep_batch(
        &self,
        trace: &RowMajorMatrix,
        trace_commitment: &(),
        queries: &[DeepResponse],
        links: &[AlgebraicLink],
        accumulator: &mut SoundnessAccumulator,
        challenger: &mut DeepTranscript,
        owsl_permits: bool,
    ) -> (r: Result<(), DeepAliError>)
        ensures
            batch_bits(queries@.len()) > old(accumulator).bits_remaining ==> (r matches Err(
                DeepAliError::SoundnessDepleted { requested, remaining },
            ) && requested == batch_bits(queries@.len()) && remaining == old(accumulator).bits_remaining
                && *final(accumulator) == *old(accumulator)
                && deep_transcript_log(*final(challenger)) == deep_transcript_log(*old(challenger))),
            batch_bits(queries@.len()) <= old(accumulator).bits_remaining ==> {
                &&& final(accumulator).bits_consumed == old(accumulator).bits_consumed + batch_bits(queries@.len())
                &&& final(accumulator).bits_remaining == old(accumulator).bits_remaining - batch_bits(queries@.len())
                &&& final(accumulator).round == old(accumulator).round + 1
            },
            r is Ok ==> {
                &&& batch_bits(queries@.len()) <= old(accumulator).bits_remaining
                &&& forall|q: int| 0 <= q < queries@.len() ==> (#[trigger] queries@[q]).query.column_index < self.num_columns
                &&& forall|l: int| 0 <= l < links@.len() ==> link_holds(self.num_columns, *trace, #[trigger] links@[l])
                &&& owsl_permits
                &&& deep_transcript_log(*final(challenger)) == observe_all(
                    deep_transcript_log(*old(challenger)),
                    queries@.map_values(|q: DeepResponse| q.value),
                )
            },
            batch_bits(queries@.len()) <= old(accumulator).bits_remaining && (exists|q: int| 0 <= q < queries@.len()
                && (#[trigger] queries@[q]).query.column_index >= self.num_columns) ==> (r matches Err(
                DeepAliError::InvalidDeepPoint { point, reason },
            )),
            !owsl_permits ==> r is Err,
            batch_bits(queries@.len()) <= old(accumulator).bits_remaining && (forall|q: int| 0 <= q < queries@.len()
                ==> (#[trigger] queries@[q]).query.column_index < self.num_columns) && (forall|l: int| 0 <= l
                < links@.len() ==> link_holds(self.num_columns, *trace, #[trigger] links@[l])) && owsl_permits ==> r is Ok,
            batch_bits(queries@.len()) <= old(accumulator).bits_remaining && (forall|q: int| 0 <= q < queries@.len()
                ==> (#[trigger] queries@[q]).query.column_index < self.num_columns) ==> forall|l: int| 0 <= l
                < links@.len() && (forall|k: int| 0 <= k < l ==> link_holds(self.num_columns, *trace, #[trigger] links@[k]))
                && !link_holds(self.num_columns, *trace, #[trigger] links@[l]) ==> link_failure(
                self.num_columns,
                *trace,
                links@[l],
                r,
            ),
    {
        let n = queries.len();
        let denom: usize = if n > 1 { n } else { 1 };
        let bits_per_query = DEEP_ALI_LAMBDA / denom;
        proof {
            assert(bits_per_query * n <= 128) by (nonlinear_arith)
                requires
                    bits_per_query == 128usize / denom,
                    denom == (if n > 1 { n } else { 1usize }),
            ;
        }
        proof {
            assert(batch_bits(n as nat) == bits_per_query * n);
        }
        match accumulator.consume(bits_per_query * n) {
            Ok(()) => {},
            Err(e) => {
                return Err(e);
            },
        }
        let ghost acc = *accumulator;
        let ghost log0 = deep_transcript_log(*challenger);
        let mut i: usize = 0;
        while i < n
            invariant
                n == queries@.len(),
                *accumulator == acc,
                batch_bits(n as nat) <= old(accumulator).bits_remaining,
                acc.bits_consumed == old(accumulator).bits_consumed + batch_bits(n as nat),
                acc.bits_remaining == old(accumulator).bits_remaining - batch_bits(n as nat),
                acc.round == old(accumulator).round + 1,
                forall|q: int| 0 <= q < queries@.len() ==> (#[trigger] queries@[q]).value < P,
                i <= n,
                forall|q: int| 0 <= q < i ==> (#[trigger] queries@[q]).query.column_index < self.num_columns,
                deep_transcript_log(*challenger) == observe_all(log0, queries@.map_values(|q: DeepResponse| q.value).take(i as int)),
            decreases n - i,
        {
            let resp = &queries[i];
            if resp.query.column_index >= self.num_columns {
                let mut point = String::new();
                append_decimal(&mut point, resp.query.point as u64);
                let mut reason = String::from_str("column index ");
                append_decimal(&mut reason, resp.query.column_index as u64);
                reason.append(" out of bounds (max ");
                append_decimal(&mut reason, self.num_columns as u64);
                reason.append(")");
                return Err(DeepAliError::InvalidDeepPoint { point, reason });
            }
            challenger.observe(resp.value);
            proof {
                let vs = queries@.map_values(|q: DeepResponse| q.value);
                assert(vs.take(i as int + 1) =~= vs.take(i as int).push(vs[i as int]));
                assert(observe_all(log0, vs.take(i as int + 1)) =~= observe_all(log0, vs.take(i as int)).push(Some(vs[i as int])));
            }
            i = i + 1;
        }
        proof {
            let vs = queries@.map_values(|q: DeepResponse| q.value);
            assert(vs.take(n as int) =~= vs);
        }
        let mut l: usize = 0;
        while l < links.len()
            invariant
                trace.wf(),
                trace.spec_height() <= P,
                forall|k: int| 0 <= k < links@.len() ==> (#[trigger] links@[k]).deep_point < P && links@[k].denominator < P
                    && all_fe(links@[k].numerator@),
                l <= links@.len(),
                n == queries@.len(),
                forall|q: int| 0 <= q < n ==> (#[trigger] queries@[q]).query.column_index < self.num_columns,
                *accumulator == acc,
                batch_bits(n as nat) <= old(accumulator).bits_remaining,
                acc.bits_consumed == old(accumulator).bits_consumed + batch_bits(n as nat),
                acc.bits_remaining == old(accumulator).bits_remaining - batch_bits(n as nat),
                acc.round == old(accumulator).round + 1,
                forall|k: int| 0 <= k < l ==> link_holds(self.num_columns, *trace, #[trigger] links@[k]),
            decreases links@.len() - l,
        {
            let link = &links[l];
            let v = match self.evaluate_air_constraint(trace, link) {
                Ok(v) => v,
                Err(e) => {
                    proof {
                        assert(!link_holds(self.num_columns, *trace, links@[l as int]));
                        assert(air_error(self.num_columns, *trace, links@[l as int], e));
                        assert(link_failure(self.num_columns, *trace, links@[l as int], Err(e)));
                    }
                    return Err(e);
                },
            };
            if v != 0 {
                let mut deep_point = String::new();
                append_decimal(&mut deep_point, link.deep_point as u64);
                proof {
                    let p0 = choose|polys: Seq<Seq<u32>>| interpolates_trace(*trace, polys) && v == air_value(polys, *link);
                    if link_holds(self.num_columns, *trace, links@[l as int]) {
                        let p1 = choose|polys: Seq<Seq<u32>>| interpolates_trace(*trace, polys) && air_value(polys, *link) == 0;
                        lemma_air_value_unique(*trace, p0, p1, *link);
                    }
                    assert(deep_point@ =~= decimal(link.deep_point as nat));
                }
                return Err(DeepAliError::ConstraintViolation { index: link.constraint_index, deep_point });
            }
            l = l + 1;
        }
        if !owsl_permits {
            return Err(DeepAliError::InvalidDeepPoint {
                point: String::from_str("OWSL_HALT"),
                reason: String::from_str("Observation Window Safety Loop flagged CRITICAL — verification aborted"),
            });
        }
        Ok(())
    }

    /// The random combination of the DEEP quotients of the queried columns:
    /// absorb the whole trace, divide each queried column's polynomial by
    /// `x - z`, weight each quotient by a fresh challenge, and bound the
    /// degree of the sum.
    fn compute_deep_quotient(
        &self,
        trace: &RowMajorMatrix,
        queries: &[DeepQuery],
        challenger: &mut DeepTranscript,
        owsl_permits: bool,
    ) -> (r: Result<Vec<u32>, DeepAliError>)
        ensures
            !owsl_permits ==> (r matches Err(DeepAliError::InvalidDeepPoint { point, reason }) && point@ == "OWSL_HALT"@
                && deep_transcript_log(*final(challenger)) == deep_transcript_log(*old(challenger))),
            owsl_permits && queries@.len() == 0 ==> (r matches Ok(c) && c@.len() == 0
                && deep_transcript_log(*final(challenger)) == deep_transcript_log(*old(challenger))),
            owsl_permits && queries@.len() > 0 && (exists|q: int| 0 <= q < queries@.len()
                && (#[trigger] queries@[q]).column_index >= self.num_columns) ==> r is Err,
            owsl_permits && queries@.len() > 0 && trace.spec_height() >= 2 && (exists|q: int| 0 <= q
                < queries@.len() && (#[trigger] queries@[q]).column_index >= self.num_columns) ==> (r matches Err(
                DeepAliError::InvalidDeepPoint { point, reason },
            )),
            owsl_permits && queries@.len() > 0 && trace.spec_height() < 2 ==> (if queries@[0].column_index
                >= self.num_columns {
                r matches Err(DeepAliError::InvalidDeepPoint { point, reason })
            } else {
                r matches Err(DeepAliError::InterpolationFailure { reason }) && reason@ == "empty evaluation vector"@
            }),
            owsl_permits && queries@.len() > 0 && trace.spec_height() >= 2 && (forall|q: int| 0 <= q < queries@.len()
                ==> (#[trigger] queries@[q]).column_index < self.num_columns) ==> exists|qs: Seq<Seq<u32>>| {
                &&& qs.len() == queries@.len()
                &&& forall|i: int| 0 <= i < qs.len() ==> is_deep_quotient(
                    trace.column((#[trigger] queries@[i]).column_index as int),
                    queries@[i].point as int,
                    qs[i],
                ) && all_fe(qs[i])
                &&& deep_transcript_log(*final(challenger)) == after_samples(
                    observe_all(deep_transcript_log(*old(challenger)), trace.values@),
                    queries@.len(),
                )
                &&& combined_outcome(
                    r,
                    trim_zeros(combination(qs, sampled_weights(
                        observe_all(deep_transcript_log(*old(challenger)), trace.values@),
                        queries@.len(),
                    ))),
                    self.max_degree,
                )
            },
            r matches Ok(c) ==> owsl_permits && (queries@.len() == 0 || exists|qs: Seq<Seq<u32>>| {
                &&& qs.len() == queries@.len()
                &&& forall|i: int| 0 <= i < qs.len() ==> is_deep_quotient(
                    trace.column((#[trigger] queries@[i]).column_index as int),
                    queries@[i].point as int,
                    qs[i],
                ) && all_fe(qs[i])
                &&& c@ == trim_zeros(combination(qs, sampled_weights(
                    observe_all(deep_transcript_log(*old(challenger)), trace.values@),
                    queries@.len(),
                )))
                &&& degree_of(c@) < self.max_degree
                &&& deep_transcript_log(*final(challenger)) == after_samples(
                    observe_all(deep_transcript_log(*old(challenger)), trace.values@),
                    queries@.len(),
                )
            }),
    {
        if !owsl_permits {
            return Err(DeepAliError::InvalidDeepPoint {
                point: String::from_str("OWSL_HALT"),
                reason: String::from_str("OWSL CRITICAL — cannot compute quotient over corrupted trace"),
            });
        }
        if queries.len() == 0 {
            return Ok(Vec::new());
        }
        challenger_observe_trace(challenger, trace);
        let ghost log1 = deep_transcript_log(*challenger);
        let mut quotients: Vec<Vec<u32>> = Vec::new();
        let mut i: usize = 0;
        while i < queries.len()
            invariant
                trace.wf(),
                trace.spec_height() <= P,
                trace.spec_height() < 2 ==> i == 0,
                trace.spec_height() == 1 && queries@.len() > 0 ==> queries@[0].column_index >= self.num_columns,
                forall|q: int| 0 <= q < queries@.len() ==> (#[trigger] queries@[q]).point < P
                    && (queries@[q].column_index < self.num_columns ==> queries@[q].column_index < trace.width),
                i <= queries@.len(),
                quotients@.len() == i,
                forall|q: int| 0 <= q < i ==> (#[trigger] queries@[q]).column_index < self.num_columns,
                forall|q: int| 0 <= q < i ==> is_deep_quotient(
                    trace.column((#[trigger] queries@[q]).column_index as int),
                    queries@[q].point as int,
                    quotients@[q]@,
                ) && all_fe(quotients@[q]@),
                owsl_permits,
                deep_transcript_log(*challenger) == log1,
            decreases queries@.len() - i,
        {
            let query = &queries[i];
            if query.column_index >= self.num_columns {
                let mut point = String::new();
                append_decimal(&mut point, query.point as u64);
                let mut reason = String::from_str("column index ");
                append_decimal(&mut reason, query.column_index as u64);
                reason.append(" out of bounds");
                return Err(DeepAliError::InvalidDeepPoint { point, reason });
            }
            let q = match self.compute_single_quotient(trace, query) {
                Ok(q) => q,
                Err(e) => {
                    return Err(e);
                },
            };
            quotients.push(q);
            i = i + 1;
        }
        let n = queries.len();
        let mut weights: Vec<u32> = Vec::new();
        let mut k: usize = 0;
        while k < n
            invariant
                k <= n,
                weights@.len() == k,
                all_fe(weights@),
                forall|q: int| 0 <= q < k ==> #[trigger] weights@[q] == sampled_weights(log1, n as nat)[q],
                deep_transcript_log(*challenger) == after_samples(log1, k as nat),
            decreases n - k,
        {
            let w = challenger.sample();
            proof {
                assert(after_samples(log1, k as nat) =~= log1 + Seq::new(k as nat, |t: int| None::<u32>));
                assert(after_samples(log1, (k + 1) as nat) =~= after_samples(log1, k as nat).push(None));
            }
            weights.push(w);
            k = k + 1;
        }
        proof {
            assert(weights@ =~= sampled_weights(log1, n as nat));
            assert forall|q: int| 0 <= q < quotients@.len() implies all_fe(#[trigger] quotients@[q]@) by {
                assert(is_deep_quotient(trace.column(queries@[q].column_index as int), queries@[q].point as int, quotients@[q]@)
                    && all_fe(quotients@[q]@));
            }
        }
        let combined = combine_quotients(&quotients, &weights, self.max_degree);
        proof {
            let qs = views_of(quotients@);
            assert forall|q: int| 0 <= q < qs.len() implies is_deep_quotient(
                trace.column((#[trigger] queries@[q]).column_index as int),
                queries@[q].point as int,
                qs[q],
            ) && all_fe(qs[q]) by {
                assert(qs[q] == quotients@[q]@);
            }
        }
        combined
    }
}

/// The error `evaluate_air_constraint` gives for a link it cannot evaluate.
pub open spec fn air_error(num_columns: usize, trace: RowMajorMatrix, link: AlgebraicLink, e: DeepAliError) -> bool {
    &&& !trace_interpolable(trace) ==> (e matches DeepAliError::InterpolationFailure { reason })
    &&& trace_interpolable(trace) && !link_columns_ok(num_columns, trace.width, link) ==> exists|i: int|
        0 <= i < link_pairs(link) && !(#[trigger] link.involved_columns@[i] < num_columns
        && link.involved_columns@[i] < trace.width) && (forall|k: int| 0 <= k < i ==> #[trigger] link.involved_columns@[k]
        < num_columns && link.involved_columns@[k] < trace.width) && (if link.involved_columns@[i] >= num_columns {
        e matches DeepAliError::InvalidDeepPoint { point, reason } && point@ == decimal(link.deep_point as nat)
            && reason@ == "constraint references column "@ + decimal(link.involved_columns@[i] as nat)
            + " out of bounds"@
    } else {
        e matches DeepAliError::TraceEvaluationFailure { column, point, reason } && column
            == link.involved_columns@[i]
    })
    &&& trace_interpolable(trace) && link_columns_ok(num_columns, trace.width, link) && link.denominator == 0
        ==> (e matches DeepAliError::InvalidDeepPoint { point, reason } && point@ == decimal(link.deep_point as nat)
        && reason@ == "DEEP point lies in trace domain (vanishing polynomial is zero)"@)
}

/// How a batch fails at a link that does not hold: a link that evaluates
/// (to a non-zero value) is a constraint violation at its DEEP point; one
/// that does not evaluate gives the evaluation's error.
pub open spec fn link_failure(num_columns: usize, trace: RowMajorMatrix, link: AlgebraicLink, r: Result<(), DeepAliError>) -> bool {
    if trace_interpolable(trace) && link_columns_ok(num_columns, trace.width, link) && link.denominator != 0 {
        r matches Err(DeepAliError::ConstraintViolation { index, deep_point }) && index == link.constraint_index
            && deep_point@ == decimal(link.deep_point as nat)
    } else {
        r matches Err(e) && air_error(num_columns, trace, link, e)
    }
}

/// What combining gives for the trimmed combination `c0`: `c0` itself when
/// its degree is below `max_degree`, else the degree-bound error.
pub open spec fn combined_outcome(r: Result<Vec<u32>, DeepAliError>, c0: Seq<u32>, max_degree: usize) -> bool {
    &&& degree_of(c0) < max_degree ==> (r matches Ok(c) && c@ == c0)
    &&& degree_of(c0) >= max_degree ==> (r matches Err(DeepAliError::InvalidDeepPoint { point, reason })
        && point@ == "COMBINED_QUOTIENT"@ && reason@ == "degree "@ + decimal(degree_of(c0)) + " exceeds bound "@
        + decimal(max_degree as nat))
}

/// The soundness bits a batch of `n` queries spends.
pub open spec fn batch_bits(n: nat) -> nat {
    if n > 1 {
        (128nat / n) * n
    } else {
        128nat * n
    }
}

/// Absorb every entry of the trace, row by row.
fn challenger_observe_trace(challenger: &mut DeepTranscript, trace: &RowMajorMatrix)
    requires
        trace.wf(),
    ensures
        deep_transcript_log(*final(challenger)) == observe_all(deep_transcript_log(*old(challenger)), trace.values@),
{
    let ghost log0 = deep_transcript_log(*challenger);
    let len = trace.values.len();
    let mut i: usize = 0;
    while i < len
        invariant
            trace.wf(),
            len == trace.values@.len(),
            i <= len,
            deep_transcript_log(*challenger) == observe_all(log0, trace.values@.take(i as int)),
        decreases len - i,
    {
        challenger.observe(trace.values[i]);
        proof {
            assert(trace.values@.take(i as int + 1) =~= trace.values@.take(i as int).push(trace.values@[i as int]));
            assert(observe_all(log0, trace.values@.take(i as int + 1)) =~= observe_all(log0, trace.values@.take(i as int)).push(
                Some(trace.values@[i as int]),
            ));
        }
        i = i + 1;
    }
    assert(trace.values@.take(len as int) =~= trace.values@);
}

} // verus!
