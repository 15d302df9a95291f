//! The mathematical model of a patch: per-axis geometry, kernel taps, flat
//! buffer offsets and the valid / invalid partition of the output space.
use vstd::prelude::*;
use crate::arith::ceil_div;
use crate::geometry::{
    axis_out, axis_pa, axis_pb, axis_pa_bound, axis_pb_bound, compute_ok, PaddingSpec,
};
use crate::patch::PatchSpec;

verus! {

/// Number of spatial axes of the window.
pub open spec fn rank_of(s: PatchSpec) -> int {
    s.input_shape@.len() as int
}

/// Input extent of axis `a`.
pub open spec fn in_d(s: PatchSpec, a: int) -> int {
    s.input_shape@[a] as int
}

/// Kernel extent of axis `a`.
pub open spec fn k_d(s: PatchSpec, a: int) -> int {
    s.kernel_shape@[a] as int
}

/// Stride of axis `a`.
pub open spec fn st_d(s: PatchSpec, a: int) -> int {
    s.strides@[a] as int
}

/// Dilation of axis `a`.
pub open spec fn dil_d(s: PatchSpec, a: int) -> int {
    s.dilations@[a] as int
}

/// The window specification is structurally sound: one shared rank, strides
/// and dilations at least one, kernel extents at least one.
pub open spec fn dims_ok(s: PatchSpec) -> bool {
    &&& s.kernel_shape@.len() == rank_of(s)
    &&& s.strides@.len() == rank_of(s)
    &&& s.dilations@.len() == rank_of(s)
    &&& forall|a: int|
        #![trigger st_d(s, a)]
        #![trigger dil_d(s, a)]
        #![trigger k_d(s, a)]
        0 <= a < rank_of(s) ==> st_d(s, a) >= 1 && dil_d(s, a) >= 1 && k_d(s, a) >= 1
}

/// The geometry resolver accepts the specification.
pub open spec fn resolve_ok(s: PatchSpec) -> bool {
    dims_ok(s) && compute_ok(s.padding, s.input_shape@, s.kernel_shape@, s.dilations@, s.strides@)
}

/// Resolved pad-before of axis `a`.
pub open spec fn pb_d(s: PatchSpec, a: int) -> int {
    axis_pb(s.padding, a, in_d(s, a), k_d(s, a), dil_d(s, a), st_d(s, a))
}

/// Resolved pad-after of axis `a`.
pub open spec fn pa_d(s: PatchSpec, a: int) -> int {
    axis_pa(s.padding, a, in_d(s, a), k_d(s, a), dil_d(s, a), st_d(s, a))
}

/// Resolved output extent of axis `a`.
pub open spec fn out_d(s: PatchSpec, a: int) -> int {
    axis_out(s.padding, a, in_d(s, a), k_d(s, a), dil_d(s, a), st_d(s, a))
}

/// Whether any axis carries padding.
pub open spec fn padded_any(s: PatchSpec) -> bool {
    exists|a: int| 0 <= a < rank_of(s) && (pb_d(s, a) != 0 || pa_d(s, a) != 0)
}

/// Row-major layout stride of axis `a` in the physical input buffer.
pub open spec fn lay(s: PatchSpec, a: int) -> int
    decreases rank_of(s) - a,
{
    if a >= rank_of(s) - 1 {
        s.input_inner_stride as int
    } else {
        in_d(s, a + 1) * lay(s, a + 1)
    }
}

/// Number of kernel taps on axes `a..rank`.
pub open spec fn ksuf(s: PatchSpec, a: int) -> int
    decreases rank_of(s) - a + 1,
{
    if a >= rank_of(s) {
        1
    } else {
        k_d(s, a) * ksuf(s, a + 1)
    }
}

/// Total number of kernel taps.
pub open spec fn taps(s: PatchSpec) -> int {
    ksuf(s, 0)
}

/// Kernel coordinate of tap `t` on axis `a` (row-major tap order).
pub open spec fn tap_coord(s: PatchSpec, t: int, a: int) -> int {
    (t / ksuf(s, a + 1)) % k_d(s, a)
}

/// Signed relative offset of tap `t` on axis `a`: dilated kernel coordinate,
/// shifted left by the padding placed before the input.
pub open spec fn field_off(s: PatchSpec, t: int, a: int) -> int {
    tap_coord(s, t, a) * dil_d(s, a) - pb_d(s, a)
}

/// Least relative offset over all taps on axis `a`.
pub open spec fn fmin(s: PatchSpec, a: int) -> int {
    -pb_d(s, a)
}

/// Greatest relative offset over all taps on axis `a`.
pub open spec fn fmax(s: PatchSpec, a: int) -> int {
    (k_d(s, a) - 1) * dil_d(s, a) - pb_d(s, a)
}

/// Flat buffer delta of tap `t`, summed over axes `a..rank`.
pub open spec fn sldf_from(s: PatchSpec, t: int, a: int) -> int
    decreases rank_of(s) - a + 1,
{
    if a >= rank_of(s) {
        0
    } else {
        field_off(s, t, a) * lay(s, a) + sldf_from(s, t, a + 1)
    }
}

/// Flat buffer delta of tap `t` (the standard-layout data field).
pub open spec fn sldf(s: PatchSpec, t: int) -> int {
    sldf_from(s, t, 0)
}

/// Flat buffer address of the window corner of output coordinate `c`,
/// summed over axes `a..rank`.
pub open spec fn cent_from(s: PatchSpec, c: Seq<usize>, a: int) -> int
    decreases rank_of(s) - a + 1,
{
    if a >= rank_of(s) {
        0
    } else {
        (c[a] * st_d(s, a)) * lay(s, a) + cent_from(s, c, a + 1)
    }
}

/// Flat buffer address of the window corner of output coordinate `c`.
pub open spec fn cent(s: PatchSpec, c: Seq<usize>) -> int {
    cent_from(s, c, 0)
}

/// Flat input offset of tap `t` at output coordinate `c`.
pub open spec fn flat_off(s: PatchSpec, c: Seq<usize>, t: int) -> int {
    cent(s, c) + sldf(s, t)
}

/// Tap `t` of output coordinate `c` lands inside the input on every axis.
pub open spec fn tap_ok(s: PatchSpec, c: Seq<usize>, t: int) -> bool {
    forall|a: int|
        0 <= a < rank_of(s) ==> 0 <= c[a] * st_d(s, a) + #[trigger] field_off(s, t, a) < in_d(
            s,
            a,
        )
}

/// No tap of output coordinate `c` can leave the input (per-axis test over
/// the extreme relative offsets).
pub open spec fn valid_c(s: PatchSpec, c: Seq<usize>) -> bool {
    forall|a: int|
        0 <= a < rank_of(s) ==> c[a] * st_d(s, a) + #[trigger] fmin(s, a) >= 0 && c[a] * st_d(s, a)
            + fmax(s, a) < in_d(s, a)
}

/// Tap `t` lands inside the input, tested over precomputed absolute window
/// corners (`ipc[a] == c[a] * stride[a]`).
pub open spec fn pos_tap_ok(s: PatchSpec, ipc: Seq<usize>, t: int) -> bool {
    forall|a: int|
        0 <= a < rank_of(s) ==> 0 <= ipc[a] + #[trigger] field_off(s, t, a) < in_d(s, a)
}

/// `c` is a coordinate of the output index space.
pub open spec fn in_out_space(s: PatchSpec, c: Seq<usize>) -> bool {
    c.len() == rank_of(s) && forall|a: int| 0 <= a < rank_of(s) ==> (c[a] as int) < out_d(s, a)
}

/// What one position iterator item yields for tap `t` at coordinate `c`:
/// the flat input offset, or nothing when the tap falls outside the input.
pub open spec fn item_at(s: PatchSpec, c: Seq<usize>, t: int) -> Option<int> {
    if tap_ok(s, c, t) {
        Some(flat_off(s, c, t))
    } else {
        None
    }
}

/// First output index of axis `a` whose window clears the padding, before
/// clamping.
pub open spec fn zlo_raw(s: PatchSpec, a: int) -> int {
    ceil_div(pb_d(s, a), st_d(s, a))
}

/// First output index of axis `a` whose window reaches past the input,
/// before clamping.
pub open spec fn zhi_raw(s: PatchSpec, a: int) -> int {
    ceil_div(in_d(s, a) - fmax(s, a), st_d(s, a))
}

/// Lower bound of the valid output range of axis `a`.
pub open spec fn zlo(s: PatchSpec, a: int) -> int {
    vstd::math::min(zlo_raw(s, a), out_d(s, a))
}

/// Upper bound of the valid output range of axis `a`.
pub open spec fn zhi(s: PatchSpec, a: int) -> int {
    vstd::math::min(vstd::math::max(zhi_raw(s, a), zlo_raw(s, a)), out_d(s, a))
}

/// Range of one axis of the invalid shell keyed `(ax, low)`: the established
/// valid ranges below `ax`, the departing prefix or suffix at `ax`, and the
/// full extent above.
pub open spec fn shell_at(s: PatchSpec, ax: int, low: bool, b: int) -> (int, int) {
    if b < ax {
        (zlo(s, b), zhi(s, b))
    } else if b == ax {
        if low {
            (0, zlo(s, ax))
        } else {
            (zhi(s, ax), out_d(s, ax))
        }
    } else {
        (0, out_d(s, b))
    }
}

/// Keys of the invalid shells emitted while processing axes `0..n`, in order.
pub open spec fn shells_upto(s: PatchSpec, n: int) -> Seq<(int, bool)>
    decreases n,
{
    if n <= 0 {
        Seq::empty()
    } else {
        shells_upto(s, n - 1) + (if zlo(s, n - 1) > 0 {
            seq![(n - 1, true)]
        } else {
            Seq::<(int, bool)>::empty()
        }) + (if zhi(s, n - 1) < out_d(s, n - 1) {
            seq![(n - 1, false)]
        } else {
            Seq::<(int, bool)>::empty()
        })
    }
}

/// Keys of all invalid shells, in emission order.
pub open spec fn shells(s: PatchSpec) -> Seq<(int, bool)> {
    shells_upto(s, rank_of(s))
}

/// Upper bound on the resolved pad-before of axis `a`, available without
/// resolving.
pub open spec fn pbb(s: PatchSpec, a: int) -> int {
    axis_pb_bound(s.padding, a, k_d(s, a), dil_d(s, a))
}

/// Upper bound on the resolved pad-after of axis `a`.
pub open spec fn pab(s: PatchSpec, a: int) -> int {
    axis_pa_bound(s.padding, a, k_d(s, a), dil_d(s, a))
}

/// Per-axis magnitude budget: every per-axis quantity the engine computes
/// stays at or below this.
pub open spec fn axis_half(s: PatchSpec, a: int) -> int {
    in_d(s, a) + pbb(s, a) + pab(s, a) + (k_d(s, a) - 1) * dil_d(s, a) + st_d(s, a) + 1
}

/// Budget for flat offsets: the per-axis budgets dotted with the layout
/// strides, over axes `a..rank`.
pub open spec fn half_sum(s: PatchSpec, a: int) -> int
    decreases rank_of(s) - a + 1,
{
    if a >= rank_of(s) {
        0
    } else {
        axis_half(s, a) * lay(s, a) + half_sum(s, a + 1)
    }
}

/// Product of the output extents of axes `a..rank`.
pub open spec fn out_prod(s: PatchSpec, a: int) -> int
    decreases rank_of(s) - a + 1,
{
    if a >= rank_of(s) {
        1
    } else {
        out_d(s, a) * out_prod(s, a + 1)
    }
}

/// The machine can represent every quantity the engine derives from `s`.
pub open spec fn fits(s: PatchSpec) -> bool {
    &&& forall|a: int| 0 <= a < rank_of(s) ==> 2 * axis_half(s, a) <= isize::MAX
    &&& 2 * half_sum(s, 0) <= isize::MAX
    &&& taps(s) * (rank_of(s) + 1) <= isize::MAX
    &&& (resolve_ok(s) ==> forall|a: int| 0 <= a <= rank_of(s) ==> out_prod(s, a) <= usize::MAX)
}

/// A window specification the builder accepts and the machine can hold.
pub open spec fn spec_ok(s: PatchSpec) -> bool {
    dims_ok(s) && fits(s)
}

/// Flat offset of tap `t` at coordinate `c`, summed per axis over the
/// absolute per-axis input positions.
pub open spec fn pos_sum_from(s: PatchSpec, c: Seq<usize>, t: int, a: int) -> int
    decreases rank_of(s) - a + 1,
{
    if a >= rank_of(s) {
        0
    } else {
        (c[a] * st_d(s, a) + field_off(s, t, a)) * lay(s, a) + pos_sum_from(s, c, t, a + 1)
    }
}

pub proof fn lemma_lay_nonneg(s: PatchSpec, a: int)
    ensures
        lay(s, a) >= 0,
    decreases rank_of(s) - a,
{
    if a < rank_of(s) - 1 {
        lemma_lay_nonneg(s, a + 1);
        vstd::arithmetic::mul::lemma_mul_nonnegative(in_d(s, a + 1), lay(s, a + 1));
    }
}

pub proof fn lemma_ksuf_pos(s: PatchSpec, a: int)
    requires
        dims_ok(s),
        0 <= a,
    ensures
        ksuf(s, a) >= 1,
        a < rank_of(s) ==> ksuf(s, a) >= ksuf(s, a + 1),
    decreases rank_of(s) - a + 1,
{
    if a < rank_of(s) {
        lemma_ksuf_pos(s, a + 1);
        vstd::arithmetic::mul::lemma_mul_inequality(1, k_d(s, a), ksuf(s, a + 1));
    }
}

pub proof fn lemma_ksuf_le_taps(s: PatchSpec, a: int)
    requires
        dims_ok(s),
        0 <= a <= rank_of(s),
    ensures
        1 <= ksuf(s, a) <= taps(s),
    decreases a,
{
    lemma_ksuf_pos(s, a);
    if a > 0 {
        lemma_ksuf_le_taps(s, a - 1);
        lemma_ksuf_pos(s, a - 1);
    }
}

#[verifier::rlimit(50)]
pub proof fn lemma_pad_bounds(s: PatchSpec, a: int)
    requires
        resolve_ok(s),
        0 <= a < rank_of(s),
    ensures
        0 <= pb_d(s, a) <= pbb(s, a),
        0 <= pa_d(s, a) <= pab(s, a),
        out_d(s, a) >= 0,
        (out_d(s, a) - 1) * st_d(s, a) <= in_d(s, a) + pb_d(s, a) + pa_d(s, a),
        (k_d(s, a) - 1) * dil_d(s, a) >= 0,
{
    let i = in_d(s, a);
    let k = k_d(s, a);
    let d = dil_d(s, a);
    let st = st_d(s, a);
    let f = crate::geometry::kernel_field(k, d);
    vstd::arithmetic::mul::lemma_mul_nonnegative(k - 1, d);
    assert(crate::geometry::axis_ok(s.padding, a, in_d(s, a), k_d(s, a), dil_d(s, a)));
    match s.padding {
        PaddingSpec::Explicit(bv, av) => {
            let pb = bv@[a] as int;
            let pa = av@[a] as int;
            let x = i + pb + pa - f;
            crate::arith::lemma_div_mul_le(x, st);
            assert(out_d(s, a) - 1 == x / st);
            assert(0 <= pb_d(s, a) <= pbb(s, a));
            assert(0 <= pa_d(s, a) <= pab(s, a));
            assert(out_d(s, a) >= 0);
            assert((out_d(s, a) - 1) * st_d(s, a) <= in_d(s, a) + pb_d(s, a) + pa_d(s, a));
        },
        PaddingSpec::Valid => {
            let x = i - f;
            crate::arith::lemma_div_mul_le(x, st);
            assert(out_d(s, a) - 1 == x / st);
            assert(0 <= pb_d(s, a) <= pbb(s, a));
            assert(0 <= pa_d(s, a) <= pab(s, a));
            assert(out_d(s, a) >= 0);
            assert((out_d(s, a) - 1) * st_d(s, a) <= in_d(s, a) + pb_d(s, a) + pa_d(s, a));
        },
        PaddingSpec::SameUpper | PaddingSpec::SameLower => {
            let total = crate::geometry::same_total_pad(i, k, d, st);
            if i == 0 {
                assert(out_d(s, a) == 0);
                assert(total == 0);
                assert((out_d(s, a) - 1) * st_d(s, a) == -st) by {
                    vstd::arithmetic::mul::lemma_mul_basics(st);
                    vstd::arithmetic::mul::lemma_mul_unary_negation(1, st);
                }
            } else {
                crate::arith::lemma_div_mul_le(i - 1, st);
                assert(total <= f - 1);
                crate::arith::lemma_div_mul_le(total, st);
                vstd::arithmetic::div_mod::lemma_div_pos_is_pos(total, 2);
                vstd::arithmetic::div_mod::lemma_div_nonincreasing(total, 2);
                assert((out_d(s, a) - 1) * st == ((i - 1) / st) * st);
            }
            assert(0 <= pb_d(s, a) <= pbb(s, a));
            assert(0 <= pa_d(s, a) <= pab(s, a));
            assert(out_d(s, a) >= 0);
            assert((out_d(s, a) - 1) * st_d(s, a) <= in_d(s, a) + pb_d(s, a) + pa_d(s, a));
        },
    }
}

pub proof fn lemma_axis_half(s: PatchSpec, a: int)
    requires
        resolve_ok(s),
        0 <= a < rank_of(s),
    ensures
        axis_half(s, a) >= 2,
        pb_d(s, a) <= axis_half(s, a),
        (k_d(s, a) - 1) * dil_d(s, a) - pb_d(s, a) <= axis_half(s, a),
        forall|c: int|
            0 <= c < out_d(s, a) ==> 0 <= #[trigger] (c * st_d(s, a)) <= axis_half(s, a),
{
    lemma_pad_bounds(s, a);
    assert forall|c: int| 0 <= c < out_d(s, a) implies 0 <= #[trigger] (c * st_d(s, a))
        <= axis_half(s, a) by {
        vstd::arithmetic::mul::lemma_mul_nonnegative(c, st_d(s, a));
        vstd::arithmetic::mul::lemma_mul_inequality(c, out_d(s, a) - 1, st_d(s, a));
    }
}

/// Every tap's relative offset lies between the per-axis extremes, and both
/// extremes are attained within the per-axis budget.
pub proof fn lemma_field_off_bounds(s: PatchSpec, t: int, a: int)
    requires
        resolve_ok(s),
        0 <= a < rank_of(s),
        t >= 0,
    ensures
        fmin(s, a) <= field_off(s, t, a) <= fmax(s, a),
        0 <= tap_coord(s, t, a) < k_d(s, a),
{
    lemma_ksuf_pos(s, a + 1);
    vstd::arithmetic::div_mod::lemma_div_pos_is_pos(t, ksuf(s, a + 1));
    vstd::arithmetic::div_mod::lemma_mod_division_less_than_divisor(t / ksuf(s, a + 1), k_d(s, a));
    let tc = tap_coord(s, t, a);
    vstd::arithmetic::mul::lemma_mul_nonnegative(tc, dil_d(s, a));
    vstd::arithmetic::mul::lemma_mul_inequality(tc, k_d(s, a) - 1, dil_d(s, a));
}

/// Absolute bound of one per-axis term against the axis budget.
pub proof fn lemma_term_bound(x: int, h: int, l: int)
    requires
        -h <= x <= h,
        l >= 0,
    ensures
        -(h * l) <= x * l <= h * l,
{
    vstd::arithmetic::mul::lemma_mul_inequality(x, h, l);
    vstd::arithmetic::mul::lemma_mul_inequality(-h, x, l);
    vstd::arithmetic::mul::lemma_mul_unary_negation(h, l);
}

pub proof fn lemma_half_sum_nonneg(s: PatchSpec, a: int)
    requires
        resolve_ok(s),
        0 <= a,
    ensures
        half_sum(s, a) >= 0,
        a < rank_of(s) ==> half_sum(s, a) >= axis_half(s, a) * lay(s, a) && half_sum(s, a)
            >= half_sum(s, a + 1),
    decreases rank_of(s) - a + 1,
{
    if a < rank_of(s) {
        lemma_half_sum_nonneg(s, a + 1);
        lemma_axis_half(s, a);
        lemma_lay_nonneg(s, a);
        vstd::arithmetic::mul::lemma_mul_nonnegative(axis_half(s, a), lay(s, a));
    }
}

pub proof fn lemma_half_sum_prefix(s: PatchSpec, a: int)
    requires
        resolve_ok(s),
        0 <= a <= rank_of(s),
    ensures
        half_sum(s, a) <= half_sum(s, 0),
    decreases a,
{
    if a > 0 {
        lemma_half_sum_prefix(s, a - 1);
        lemma_half_sum_nonneg(s, a - 1);
    }
}

pub proof fn lemma_sldf_bound(s: PatchSpec, t: int, a: int)
    requires
        resolve_ok(s),
        0 <= a,
        t >= 0,
    ensures
        -half_sum(s, a) <= sldf_from(s, t, a) <= half_sum(s, a),
    decreases rank_of(s) - a + 1,
{
    if a < rank_of(s) {
        lemma_sldf_bound(s, t, a + 1);
        lemma_field_off_bounds(s, t, a);
        lemma_axis_half(s, a);
        lemma_pad_bounds(s, a);
        lemma_lay_nonneg(s, a);
        lemma_term_bound(field_off(s, t, a), axis_half(s, a), lay(s, a));
    }
}

pub proof fn lemma_cent_bound(s: PatchSpec, c: Seq<usize>, a: int)
    requires
        resolve_ok(s),
        in_out_space(s, c),
        0 <= a,
    ensures
        0 <= cent_from(s, c, a) <= half_sum(s, a),
    decreases rank_of(s) - a + 1,
{
    if a < rank_of(s) {
        lemma_cent_bound(s, c, a + 1);
        lemma_axis_half(s, a);
        lemma_lay_nonneg(s, a);
        lemma_term_bound(c[a] * st_d(s, a), axis_half(s, a), lay(s, a));
        vstd::arithmetic::mul::lemma_mul_nonnegative(c[a] * st_d(s, a), lay(s, a));
    }
}

/// The corner-plus-delta decomposition of a flat offset equals the per-axis
/// absolute-position sum.
pub proof fn lemma_flat_decompose(s: PatchSpec, c: Seq<usize>, t: int, a: int)
    requires
        0 <= a,
    ensures
        cent_from(s, c, a) + sldf_from(s, t, a) == pos_sum_from(s, c, t, a),
    decreases rank_of(s) - a + 1,
{
    if a < rank_of(s) {
        lemma_flat_decompose(s, c, t, a + 1);
        vstd::arithmetic::mul::lemma_mul_is_distributive_add_other_way(
            lay(s, a),
            c[a] * st_d(s, a),
            field_off(s, t, a),
        );
    }
}

/// An in-bounds tap's flat offset is a valid non-negative buffer index.
pub proof fn lemma_pos_sum_bounds(s: PatchSpec, c: Seq<usize>, t: int, a: int)
    requires
        resolve_ok(s),
        0 <= a,
        c.len() == rank_of(s),
        forall|b: int|
            0 <= b < rank_of(s) ==> 0 <= c[b] * st_d(s, b) + #[trigger] field_off(s, t, b) < in_d(
                s,
                b,
            ),
    ensures
        0 <= pos_sum_from(s, c, t, a),
    decreases rank_of(s) - a + 1,
{
    if a < rank_of(s) {
        lemma_pos_sum_bounds(s, c, t, a + 1);
        lemma_lay_nonneg(s, a);
        vstd::arithmetic::mul::lemma_mul_nonnegative(
            c[a] * st_d(s, a) + field_off(s, t, a),
            lay(s, a),
        );
    }
}

/// A coordinate that passes the extreme-offset test has every tap in
/// bounds.
pub proof fn lemma_valid_tap_ok(s: PatchSpec, c: Seq<usize>, t: int)
    requires
        resolve_ok(s),
        valid_c(s, c),
        t >= 0,
    ensures
        tap_ok(s, c, t),
{
    assert forall|a: int| 0 <= a < rank_of(s) implies 0 <= c[a] * st_d(s, a)
        + #[trigger] field_off(s, t, a) < in_d(s, a) by {
        lemma_field_off_bounds(s, t, a);
    }
}

/// Without padding, every output coordinate is valid.
pub proof fn lemma_unpadded_valid(s: PatchSpec, c: Seq<usize>)
    requires
        resolve_ok(s),
        !padded_any(s),
        in_out_space(s, c),
    ensures
        valid_c(s, c),
{
    assert forall|a: int| 0 <= a < rank_of(s) implies c[a] * st_d(s, a) + #[trigger] fmin(s, a)
        >= 0 && c[a] * st_d(s, a) + fmax(s, a) < in_d(s, a) by {
        assert(pb_d(s, a) == 0 && pa_d(s, a) == 0);
        lemma_pad_bounds(s, a);
        vstd::arithmetic::mul::lemma_mul_nonnegative(c[a] as int, st_d(s, a));
        vstd::arithmetic::mul::lemma_mul_inequality(c[a] as int, out_d(s, a) - 1, st_d(s, a));
        lemma_out_reach(s, a);
    }
}

/// With the resolved padding, the last window of an axis stays within the
/// padded input: `(out - 1) * st + fmax < in + pa`.
#[verifier::rlimit(50)]
pub proof fn lemma_out_reach(s: PatchSpec, a: int)
    requires
        resolve_ok(s),
        0 <= a < rank_of(s),
    ensures
        out_d(s, a) >= 1 ==> (out_d(s, a) - 1) * st_d(s, a) + fmax(s, a) < in_d(s, a) + pa_d(
            s,
            a,
        ),
{
    let i = in_d(s, a);
    let k = k_d(s, a);
    let d = dil_d(s, a);
    let st = st_d(s, a);
    let f = crate::geometry::kernel_field(k, d);
    vstd::arithmetic::mul::lemma_mul_nonnegative(k - 1, d);
    assert(crate::geometry::axis_ok(s.padding, a, in_d(s, a), k_d(s, a), dil_d(s, a)));
    match s.padding {
        PaddingSpec::Explicit(bv, av) => {
            let pb = bv@[a] as int;
            let pa = av@[a] as int;
            let x = i + pb + pa - f;
            crate::arith::lemma_div_mul_le(x, st);
            assert(out_d(s, a) - 1 == x / st);
            assert((out_d(s, a) - 1) * st_d(s, a) + fmax(s, a) < in_d(s, a) + pa_d(s, a));
        },
        PaddingSpec::Valid => {
            crate::arith::lemma_div_mul_le(i - f, st);
            assert(out_d(s, a) - 1 == (i - f) / st);
            assert((out_d(s, a) - 1) * st_d(s, a) + fmax(s, a) < in_d(s, a) + pa_d(s, a));
        },
        PaddingSpec::SameUpper | PaddingSpec::SameLower => {
            let total = crate::geometry::same_total_pad(i, k, d, st);
            let out = crate::geometry::same_output(i, st);
            if i > 0 {
                crate::arith::lemma_div_mul_le(i - 1, st);
                assert((out - 1) * st == ((i - 1) / st) * st);
                // total >= (out - 1) * st + f - i, and pb + pa == total.
                vstd::arithmetic::div_mod::lemma_div_pos_is_pos(total, 2);
                vstd::arithmetic::div_mod::lemma_div_nonincreasing(total, 2);
                assert((out_d(s, a) - 1) * st_d(s, a) + fmax(s, a) < in_d(s, a) + pa_d(s, a));
            }
        },
    }
}

/// Layout strides fit comfortably under the flat budget.
pub proof fn lemma_lay_bound(s: PatchSpec, a: int)
    requires
        resolve_ok(s),
        fits(s),
        0 <= a < rank_of(s),
    ensures
        0 <= lay(s, a),
        2 * lay(s, a) <= half_sum(s, 0),
        axis_half(s, a) * lay(s, a) <= half_sum(s, 0),
{
    lemma_lay_nonneg(s, a);
    lemma_axis_half(s, a);
    lemma_half_sum_nonneg(s, a);
    lemma_half_sum_prefix(s, a);
    lemma_half_sum_nonneg(s, a + 1);
    vstd::arithmetic::mul::lemma_mul_inequality(2, axis_half(s, a), lay(s, a));
}

/// Prefix sums of the standard-layout data field stay within the spent part
/// of the budget.
pub proof fn lemma_sldf_prefix(s: PatchSpec, t: int, a: int)
    requires
        resolve_ok(s),
        t >= 0,
        0 <= a <= rank_of(s),
    ensures
        -(half_sum(s, 0) - half_sum(s, a)) <= sldf_from(s, t, 0) - sldf_from(s, t, a) <= half_sum(
            s,
            0,
        ) - half_sum(s, a),
    decreases a,
{
    if a > 0 {
        lemma_sldf_prefix(s, t, a - 1);
        lemma_field_off_bounds(s, t, a - 1);
        lemma_axis_half(s, a - 1);
        lemma_pad_bounds(s, a - 1);
        lemma_lay_nonneg(s, a - 1);
        lemma_term_bound(field_off(s, t, a - 1), axis_half(s, a - 1), lay(s, a - 1));
    }
}

/// Prefix sums of the window-corner address stay within the spent part of
/// the budget.
pub proof fn lemma_cent_prefix(s: PatchSpec, c: Seq<usize>, a: int)
    requires
        resolve_ok(s),
        in_out_space(s, c),
        0 <= a <= rank_of(s),
    ensures
        0 <= cent_from(s, c, 0) - cent_from(s, c, a) <= half_sum(s, 0) - half_sum(s, a),
    decreases a,
{
    if a > 0 {
        lemma_cent_prefix(s, c, a - 1);
        lemma_axis_half(s, a - 1);
        lemma_lay_nonneg(s, a - 1);
        lemma_term_bound(c[a - 1] * st_d(s, a - 1), axis_half(s, a - 1), lay(s, a - 1));
        vstd::arithmetic::mul::lemma_mul_nonnegative(c[a - 1] * st_d(s, a - 1), lay(s, a - 1));
    }
}

/// The per-axis output-stride products fit under the budget.
pub proof fn lemma_op_stride_bound(s: PatchSpec, a: int)
    requires
        resolve_ok(s),
        0 <= a < rank_of(s),
    ensures
        0 <= st_d(s, a) * lay(s, a) <= axis_half(s, a) * lay(s, a),
        axis_half(s, a) * lay(s, a) <= half_sum(s, 0),
{
    lemma_axis_half(s, a);
    lemma_lay_nonneg(s, a);
    vstd::arithmetic::mul::lemma_mul_nonnegative(st_d(s, a), lay(s, a));
    vstd::arithmetic::mul::lemma_mul_inequality(st_d(s, a), axis_half(s, a), lay(s, a));
    lemma_half_sum_nonneg(s, a);
    lemma_half_sum_prefix(s, a);
    lemma_half_sum_nonneg(s, a + 1);
}

/// Flat tap indices of the data field stay within the tap budget.
pub proof fn lemma_tap_index_bound(s: PatchSpec, t: int, a: int)
    requires
        dims_ok(s),
        0 <= t < taps(s),
        0 <= a <= rank_of(s),
    ensures
        0 <= t * rank_of(s) + a <= taps(s) * (rank_of(s) + 1),
{
    let r = rank_of(s);
    vstd::arithmetic::mul::lemma_mul_nonnegative(t, r);
    vstd::arithmetic::mul::lemma_mul_inequality(t, taps(s) - 1, r);
    vstd::arithmetic::mul::lemma_mul_is_distributive_sub_other_way(r, taps(s), 1);
    vstd::arithmetic::mul::lemma_mul_is_distributive_add(taps(s), r, 1);
    lemma_ksuf_le_taps(s, 0);
}

/// How the shell list grows when one more axis is processed.
pub proof fn lemma_shells_step(s: PatchSpec, n: int)
    requires
        n >= 1,
    ensures
        shells_upto(s, n).len() == shells_upto(s, n - 1).len() + (if zlo(s, n - 1) > 0 {
            1int
        } else {
            0int
        }) + (if zhi(s, n - 1) < out_d(s, n - 1) {
            1int
        } else {
            0int
        }),
        forall|j: int|
            0 <= j < shells_upto(s, n - 1).len() ==> #[trigger] shells_upto(s, n)[j]
                == shells_upto(s, n - 1)[j],
        zlo(s, n - 1) > 0 ==> shells_upto(s, n)[shells_upto(s, n - 1).len() as int] == (
        n - 1,
        true,
        ),
        zhi(s, n - 1) < out_d(s, n - 1) ==> shells_upto(s, n)[shells_upto(s, n).len() - 1] == (
        n - 1,
        false,
        ),
{
}

/// Every shell key names an axis below the rank.
pub proof fn lemma_shells_keys(s: PatchSpec, n: int, j: int)
    requires
        0 <= n <= rank_of(s),
        0 <= j < shells_upto(s, n).len(),
    ensures
        0 <= shells_upto(s, n)[j].0 < n,
    decreases n,
{
    if n >= 1 {
        lemma_shells_step(s, n);
        if j < shells_upto(s, n - 1).len() {
            lemma_shells_keys(s, n - 1, j);
        }
    }
}

/// Flat row-major address of input coordinate `c`, summed over axes
/// `a..rank`.
pub open spec fn flat_index_from(s: PatchSpec, c: Seq<usize>, a: int) -> int
    decreases rank_of(s) - a + 1,
{
    if a >= rank_of(s) {
        0
    } else {
        c[a] * lay(s, a) + flat_index_from(s, c, a + 1)
    }
}

/// Flat row-major address of input coordinate `c`.
pub open spec fn flat_index(s: PatchSpec, c: Seq<usize>) -> int {
    flat_index_from(s, c, 0)
}

/// With unit strides the window corner is the coordinate's own address.
pub proof fn lemma_cent_is_flat_index(s: PatchSpec, c: Seq<usize>, a: int)
    requires
        0 <= a,
        forall|b: int| 0 <= b < rank_of(s) ==> #[trigger] st_d(s, b) == 1,
    ensures
        cent_from(s, c, a) == flat_index_from(s, c, a),
    decreases rank_of(s) - a + 1,
{
    if a < rank_of(s) {
        lemma_cent_is_flat_index(s, c, a + 1);
        vstd::arithmetic::mul::lemma_mul_basics(c[a] as int);
    }
}

/// With unit kernel extents there is exactly one tap.
pub proof fn lemma_ksuf_unit(s: PatchSpec, a: int)
    requires
        0 <= a,
        forall|b: int| 0 <= b < rank_of(s) ==> #[trigger] k_d(s, b) == 1,
    ensures
        ksuf(s, a) == 1,
    decreases rank_of(s) - a + 1,
{
    if a < rank_of(s) {
        lemma_ksuf_unit(s, a + 1);
        vstd::arithmetic::mul::lemma_mul_basics(ksuf(s, a + 1));
    }
}

/// A tap whose relative offsets vanish has a zero flat delta.
pub proof fn lemma_unit_sldf(s: PatchSpec, t: int, a: int)
    requires
        0 <= a,
        forall|b: int| 0 <= b < rank_of(s) ==> #[trigger] field_off(s, t, b) == 0,
    ensures
        sldf_from(s, t, a) == 0,
    decreases rank_of(s) - a + 1,
{
    if a < rank_of(s) {
        lemma_unit_sldf(s, t, a + 1);
        vstd::arithmetic::mul::lemma_mul_basics(lay(s, a));
    }
}

/// The tap count itself fits the machine.
pub proof fn lemma_taps_max(s: PatchSpec)
    requires
        dims_ok(s),
        fits(s),
    ensures
        1 <= taps(s) <= isize::MAX,
{
    lemma_ksuf_le_taps(s, 0);
    let r = rank_of(s);
    vstd::arithmetic::mul::lemma_mul_inequality(1, r + 1, taps(s));
    vstd::arithmetic::mul::lemma_mul_is_commutative(r + 1, taps(s));
}

/// A tap/axis pair maps to one flat data-field index and back.
pub proof fn lemma_tap_index_in(s: PatchSpec, t: int, b: int)
    requires
        dims_ok(s),
        0 <= t < taps(s),
        0 <= b < rank_of(s),
    ensures
        0 <= t * rank_of(s) + b < taps(s) * rank_of(s),
        (t * rank_of(s) + b) / rank_of(s) == t,
        (t * rank_of(s) + b) % rank_of(s) == b,
{
    let r = rank_of(s);
    vstd::arithmetic::mul::lemma_mul_nonnegative(t, r);
    vstd::arithmetic::mul::lemma_mul_inequality(t, taps(s) - 1, r);
    vstd::arithmetic::mul::lemma_mul_is_distributive_sub_other_way(r, taps(s), 1);
    vstd::arithmetic::div_mod::lemma_fundamental_div_mod_converse(t * r + b, r, t, b);
}

/// Suffix products of the output extents are bounded by their own budget
/// entry.
pub proof fn lemma_out_prod_bounds(s: PatchSpec, a: int)
    requires
        resolve_ok(s),
        0 <= a <= rank_of(s),
    ensures
        out_prod(s, a) >= 0,
        a < rank_of(s) ==> out_prod(s, a) == out_d(s, a) * out_prod(s, a + 1),
    decreases rank_of(s) - a + 1,
{
    if a < rank_of(s) {
        lemma_out_prod_bounds(s, a + 1);
        lemma_pad_bounds(s, a);
        vstd::arithmetic::mul::lemma_mul_nonnegative(out_d(s, a), out_prod(s, a + 1));
    }
}

} // verus!
