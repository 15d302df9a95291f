//! The stated guarantees of the zone partition and the iterators, proved
//! once and for all over the model.
use vstd::prelude::*;
use core::ops::Range;
use crate::arith::lemma_ceil_div_equiv;
use crate::model;
use crate::patch::{Patch, PatchSpec};

verus! {

/// `c` lies inside the axis-aligned zone `z`.
pub open spec fn in_zone(c: Seq<usize>, z: Seq<Range<usize>>) -> bool {
    c.len() == z.len() && forall|a: int|
        0 <= a < z.len() ==> (#[trigger] z[a]).start <= c[a] < z[a].end
}

/// The per-axis valid range bounds are ordered and within the output.
pub proof fn lemma_z_bounds(s: PatchSpec, a: int)
    requires
        model::resolve_ok(s),
        0 <= a < model::rank_of(s),
    ensures
        0 <= model::zlo(s, a) <= model::zhi(s, a) <= model::out_d(s, a),
{
    model::lemma_pad_bounds(s, a);
    crate::arith::lemma_ceil_div_le(model::pb_d(s, a), model::st_d(s, a));
}

/// Per axis: an output index below the resolved extent clears the padding
/// on both sides exactly when it lies in `[zlo, zhi)`.
proof fn lemma_axis_range(s: PatchSpec, a: int, cv: int)
    requires
        model::resolve_ok(s),
        0 <= a < model::rank_of(s),
        0 <= cv < model::out_d(s, a),
    ensures
        (model::zlo(s, a) <= cv < model::zhi(s, a)) <==> (cv * model::st_d(s, a) + model::fmin(
            s,
            a,
        ) >= 0 && cv * model::st_d(s, a) + model::fmax(s, a) < model::in_d(s, a)),
{
    let st = model::st_d(s, a);
    let pb = model::pb_d(s, a);
    let hi_arg = model::in_d(s, a) - model::fmax(s, a);
    model::lemma_pad_bounds(s, a);
    lemma_ceil_div_equiv(pb, st, cv);
    lemma_ceil_div_equiv(hi_arg, st, cv);
    lemma_z_bounds(s, a);
    if cv * st >= hi_arg {
    }
    vstd::arithmetic::mul::lemma_mul_nonnegative(cv, st);
}

/// Direct per-axis validity agrees with membership in the valid zone.
pub proof fn lemma_valid_zone_agrees(p: &Patch, c: Seq<usize>)
    requires
        p.wf(),
        model::in_out_space(p.spec, c),
    ensures
        in_zone(c, p.valid_output_zone@) <==> model::valid_c(p.spec, c),
{
    let s = p.spec;
    if in_zone(c, p.valid_output_zone@) {
        assert forall|a: int| 0 <= a < model::rank_of(s) implies c[a] * model::st_d(s, a)
            + #[trigger] model::fmin(s, a) >= 0 && c[a] * model::st_d(s, a) + model::fmax(s, a)
            < model::in_d(s, a) by {
            lemma_axis_range(s, a, c[a] as int);
        }
    }
    if model::valid_c(s, c) {
        assert forall|a: int|
            0 <= a < p.valid_output_zone@.len() implies (
        #[trigger] p.valid_output_zone@[a]).start <= c[a] < p.valid_output_zone@[a].end by {
            assert(c[a] * model::st_d(s, a) + model::fmin(s, a) >= 0);
            lemma_axis_range(s, a, c[a] as int);
        }
    }
}

/// A coordinate inside the shell keyed `(ax, low)` departs from the valid
/// range exactly at `ax`, and obeys it below.
proof fn lemma_shell_meaning(s: PatchSpec, c: Seq<usize>, j: int)
    requires
        model::resolve_ok(s),
        model::in_out_space(s, c),
        0 <= j < model::shells(s).len(),
    ensures
        ({
            let key = model::shells(s)[j];
            shell_holds(s, c, key.0, key.1) ==> (forall|b: int|
                0 <= b < key.0 ==> #[trigger] model::zlo(s, b) <= c[b] < model::zhi(s, b)) && (
            if key.1 {
                c[key.0] < model::zlo(s, key.0)
            } else {
                c[key.0] >= model::zhi(s, key.0)
            })
        }),
{
    model::lemma_shells_keys(s, model::rank_of(s), j);
    let key = model::shells(s)[j];
    if shell_holds(s, c, key.0, key.1) {
        assert forall|b: int| 0 <= b < key.0 implies #[trigger] model::zlo(s, b) <= c[b]
            < model::zhi(s, b) by {
            let rg = model::shell_at(s, key.0, key.1, b);
            assert(rg.0 <= c[b] < rg.1);
        }
        let rga = model::shell_at(s, key.0, key.1, key.0);
        assert(rga.0 <= c[key.0] < rga.1);
    }
}

/// `c` lies in the shell keyed `(ax, low)`.
pub open spec fn shell_holds(s: PatchSpec, c: Seq<usize>, ax: int, low: bool) -> bool {
    forall|b: int|
        0 <= b < model::rank_of(s) ==> {
            let rg = #[trigger] model::shell_at(s, ax, low, b);
            rg.0 <= c[b] < rg.1
        }
}

/// Shell keys appear in processing order: strictly increasing axes, the
/// prefix before the suffix.
proof fn lemma_shells_sorted(s: PatchSpec, n: int, j1: int, j2: int)
    requires
        0 <= n <= model::rank_of(s),
        0 <= j1 < j2 < model::shells_upto(s, n).len(),
    ensures
        ({
            let k1 = model::shells_upto(s, n)[j1];
            let k2 = model::shells_upto(s, n)[j2];
            k1.0 < k2.0 || (k1.0 == k2.0 && k1.1 && !k2.1)
        }),
    decreases n,
{
    if n >= 1 {
        model::lemma_shells_step(s, n);
        let prev = model::shells_upto(s, n - 1);
        if j2 < prev.len() {
            lemma_shells_sorted(s, n - 1, j1, j2);
        } else {
            if j1 < prev.len() {
                model::lemma_shells_keys(s, n - 1, j1);
            }
        }
    }
}

/// No output coordinate lies in two different invalid shells.
pub proof fn lemma_shells_disjoint(p: &Patch, c: Seq<usize>, j1: int, j2: int)
    requires
        p.wf(),
        model::in_out_space(p.spec, c),
        0 <= j1 < j2 < p.invalid_output_zones@.len(),
    ensures
        !(in_zone(c, p.invalid_output_zones@[j1]@) && in_zone(c, p.invalid_output_zones@[j2]@)),
{
    let s = p.spec;
    if in_zone(c, p.invalid_output_zones@[j1]@) && in_zone(c, p.invalid_output_zones@[j2]@) {
        let k1 = model::shells(s)[j1];
        let k2 = model::shells(s)[j2];
        lemma_zone_to_shell(p, c, j1);
        lemma_zone_to_shell(p, c, j2);
        lemma_shell_meaning(s, c, j1);
        lemma_shell_meaning(s, c, j2);
        lemma_shells_sorted(s, model::rank_of(s), j1, j2);
        model::lemma_shells_keys(s, model::rank_of(s), j1);
        model::lemma_shells_keys(s, model::rank_of(s), j2);
        if k1.0 < k2.0 {
            assert(model::zlo(s, k1.0) <= c[k1.0] < model::zhi(s, k1.0));
            assert(if k1.1 {
                c[k1.0] < model::zlo(s, k1.0)
            } else {
                c[k1.0] >= model::zhi(s, k1.0)
            });
        } else {
            lemma_z_bounds(s, k1.0);
        }
        assert(false);
    }
}

/// Membership in the stored zone equals the model's shell condition.
proof fn lemma_zone_to_shell(p: &Patch, c: Seq<usize>, j: int)
    requires
        p.wf(),
        model::in_out_space(p.spec, c),
        0 <= j < p.invalid_output_zones@.len(),
    ensures
        in_zone(c, p.invalid_output_zones@[j]@) <==> shell_holds(
            p.spec,
            c,
            model::shells(p.spec)[j].0,
            model::shells(p.spec)[j].1,
        ),
{
    let s = p.spec;
    let key = model::shells(s)[j];
    if in_zone(c, p.invalid_output_zones@[j]@) {
        assert forall|b: int| 0 <= b < model::rank_of(s) implies {
            let rg = #[trigger] model::shell_at(s, key.0, key.1, b);
            rg.0 <= c[b] < rg.1
        } by {
            assert(p.invalid_output_zones@[j]@[b].start <= c[b] < p.invalid_output_zones@[j]@[b].end);
        }
    }
    if shell_holds(s, c, key.0, key.1) {
        assert forall|b: int|
            0 <= b < p.invalid_output_zones@[j]@.len() implies (
        #[trigger] p.invalid_output_zones@[j]@[b]).start <= c[b]
            < p.invalid_output_zones@[j]@[b].end by {
            let rg = model::shell_at(s, key.0, key.1, b);
            assert(rg.0 <= c[b] < rg.1);
        }
    }
}

/// The shell keyed `(ax, low)` is emitted whenever its side departs.
proof fn lemma_shell_member(s: PatchSpec, n: int, ax: int, low: bool)
    requires
        0 <= ax < n <= model::rank_of(s),
        low ==> model::zlo(s, ax) > 0,
        !low ==> model::zhi(s, ax) < model::out_d(s, ax),
    ensures
        exists|j: int|
            0 <= j < model::shells_upto(s, n).len() && #[trigger] model::shells_upto(s, n)[j] == (
            ax,
            low,
            ),
    decreases n,
{
    model::lemma_shells_step(s, n);
    if ax == n - 1 {
        if low {
            assert(model::shells_upto(s, n)[model::shells_upto(s, n - 1).len() as int] == (
                ax,
                low,
            ));
        } else {
            assert(model::shells_upto(s, n)[model::shells_upto(s, n).len() - 1] == (ax, low));
        }
    } else {
        lemma_shell_member(s, n - 1, ax, low);
        let j0 = choose|j: int|
            0 <= j < model::shells_upto(s, n - 1).len() && #[trigger] model::shells_upto(
                s,
                n - 1,
            )[j] == (ax, low);
        assert(model::shells_upto(s, n)[j0] == (ax, low));
    }
}

/// Every output coordinate outside the valid zone lies in some shell.
pub proof fn lemma_shells_cover(p: &Patch, c: Seq<usize>)
    requires
        p.wf(),
        model::in_out_space(p.spec, c),
        !model::valid_c(p.spec, c),
    ensures
        exists|j: int|
            0 <= j < p.invalid_output_zones@.len() && in_zone(c, #[trigger] p.invalid_output_zones@[j]@),
{
    let s = p.spec;
    lemma_valid_zone_agrees(p, c);
    lemma_cover_from(p, c, 0);
}

/// If the valid ranges hold below `a` and fail somewhere at or above `a`,
/// some shell contains `c`.
proof fn lemma_cover_from(p: &Patch, c: Seq<usize>, a: int)
    requires
        p.wf(),
        model::in_out_space(p.spec, c),
        0 <= a <= model::rank_of(p.spec),
        forall|b: int|
            0 <= b < a ==> #[trigger] model::zlo(p.spec, b) <= c[b] < model::zhi(p.spec, b),
        !model::valid_c(p.spec, c),
    ensures
        exists|j: int|
            0 <= j < p.invalid_output_zones@.len() && in_zone(c, #[trigger] p.invalid_output_zones@[j]@),
    decreases model::rank_of(p.spec) - a,
{
    let s = p.spec;
    if a == model::rank_of(s) {
        assert forall|b: int| 0 <= b < model::rank_of(s) implies c[b] * model::st_d(s, b)
            + #[trigger] model::fmin(s, b) >= 0 && c[b] * model::st_d(s, b) + model::fmax(s, b)
            < model::in_d(s, b) by {
            lemma_axis_range(s, b, c[b] as int);
        }
        assert(false);
    } else {
        lemma_z_bounds(s, a);
        if model::zlo(s, a) <= c[a] && (c[a] as int) < model::zhi(s, a) {
            lemma_cover_from(p, c, a + 1);
        } else if (c[a] as int) < model::zlo(s, a) {
            lemma_shell_member(s, model::rank_of(s), a, true);
            let j = choose|j: int|
                0 <= j < model::shells(s).len() && #[trigger] model::shells(s)[j] == (a, true);
            assert(shell_holds(s, c, a, true)) by {
                assert forall|b: int| 0 <= b < model::rank_of(s) implies {
                    let rg = #[trigger] model::shell_at(s, a, true, b);
                    rg.0 <= c[b] < rg.1
                } by {}
            }
            lemma_zone_to_shell(p, c, j);
        } else {
            lemma_shell_member(s, model::rank_of(s), a, false);
            let j = choose|j: int|
                0 <= j < model::shells(s).len() && #[trigger] model::shells(s)[j] == (a, false);
            assert(shell_holds(s, c, a, false)) by {
                assert forall|b: int| 0 <= b < model::rank_of(s) implies {
                    let rg = #[trigger] model::shell_at(s, a, false, b);
                    rg.0 <= c[b] < rg.1
                } by {}
            }
            lemma_zone_to_shell(p, c, j);
        }
    }
}

/// Tiling: every output coordinate lies in the valid zone or in exactly
/// one invalid shell, never both.
pub proof fn lemma_output_space_tiled(p: &Patch, c: Seq<usize>)
    requires
        p.wf(),
        model::in_out_space(p.spec, c),
    ensures
        in_zone(c, p.valid_output_zone@) <==> model::valid_c(p.spec, c),
        model::valid_c(p.spec, c) ==> forall|j: int|
            0 <= j < p.invalid_output_zones@.len() ==> !in_zone(
                c,
                #[trigger] p.invalid_output_zones@[j]@,
            ),
        !model::valid_c(p.spec, c) ==> exists|j: int|
            0 <= j < p.invalid_output_zones@.len() && in_zone(
                c,
                #[trigger] p.invalid_output_zones@[j]@,
            ),
        forall|j1: int, j2: int|
            0 <= j1 < j2 < p.invalid_output_zones@.len() ==> !(in_zone(
                c,
                #[trigger] p.invalid_output_zones@[j1]@,
            ) && in_zone(c, #[trigger] p.invalid_output_zones@[j2]@)),
{
    let s = p.spec;
    lemma_valid_zone_agrees(p, c);
    if model::valid_c(s, c) {
        assert forall|j: int| 0 <= j < p.invalid_output_zones@.len() implies !in_zone(
            c,
            #[trigger] p.invalid_output_zones@[j]@,
        ) by {
            if in_zone(c, p.invalid_output_zones@[j]@) {
                lemma_zone_to_shell(p, c, j);
                lemma_shell_meaning(s, c, j);
                let key = model::shells(s)[j];
                model::lemma_shells_keys(s, model::rank_of(s), j);
                lemma_axis_range(s, key.0, c[key.0] as int);
                lemma_z_bounds(s, key.0);
            }
        }
    } else {
        lemma_shells_cover(p, c);
    }
    assert forall|j1: int, j2: int| 0 <= j1 < j2 < p.invalid_output_zones@.len() implies !(
    in_zone(c, #[trigger] p.invalid_output_zones@[j1]@) && in_zone(
        c,
        #[trigger] p.invalid_output_zones@[j2]@,
    )) by {
        lemma_shells_disjoint(p, c, j1, j2);
    }
}

/// Fast/safe agreement: at a coordinate the fast path accepts, every tap
/// is present and the safe test yields the same flat offset.
pub proof fn lemma_fast_safe_agree(p: &Patch, c: Seq<usize>, t: int)
    requires
        p.wf(),
        model::in_out_space(p.spec, c),
        model::valid_c(p.spec, c),
        0 <= t < model::taps(p.spec),
    ensures
        model::item_at(p.spec, c, t) == Some(model::flat_off(p.spec, c, t)),
{
    model::lemma_valid_tap_ok(p.spec, c, t);
}

/// Random access agrees with enumeration: when tap `t` is present, its
/// item is exactly the flat offset `global_offset_for` computes.
pub proof fn lemma_global_offset_agrees(p: &Patch, c: Seq<usize>, t: int)
    requires
        p.wf(),
        model::in_out_space(p.spec, c),
        0 <= t < model::taps(p.spec),
        model::tap_ok(p.spec, c, t),
    ensures
        model::item_at(p.spec, c, t) == Some(model::flat_off(p.spec, c, t)),
{
}

/// Round trip: with no padding, unit strides and dilations and a unit
/// kernel, the output equals the input and the single tap of every output
/// coordinate is that same input coordinate's flat address.
pub proof fn lemma_identity_round_trip(p: &Patch, c: Seq<usize>)
    requires
        p.wf(),
        p.spec.padding == crate::geometry::PaddingSpec::Valid,
        forall|a: int| 0 <= a < model::rank_of(p.spec) ==> #[trigger] model::k_d(p.spec, a) == 1,
        forall|a: int| 0 <= a < model::rank_of(p.spec) ==> #[trigger] model::st_d(p.spec, a) == 1,
        forall|a: int| 0 <= a < model::rank_of(p.spec) ==> #[trigger] model::dil_d(p.spec, a)
            == 1,
        model::in_out_space(p.spec, c),
    ensures
        forall|a: int|
            0 <= a < model::rank_of(p.spec) ==> model::out_d(p.spec, a) == model::in_d(p.spec, a),
        model::taps(p.spec) == 1,
        model::item_at(p.spec, c, 0) == Some(model::cent(p.spec, c)),
        model::cent(p.spec, c) == model::flat_index(p.spec, c),
{
    let s = p.spec;
    assert forall|a: int| 0 <= a < model::rank_of(s) implies model::out_d(s, a) == model::in_d(
        s,
        a,
    ) by {
        assert(model::out_d(s, a) == (model::in_d(s, a) - 1) / 1 + 1);
    }
    model::lemma_ksuf_unit(s, 0);
    assert forall|a: int| 0 <= a < model::rank_of(s) implies #[trigger] model::field_off(s, 0, a)
        == 0 by {
        model::lemma_field_off_bounds(s, 0, a);
        vstd::arithmetic::mul::lemma_mul_basics(model::tap_coord(s, 0, a));
    }
    assert forall|a: int| 0 <= a < model::rank_of(s) implies 0 <= c[a] * model::st_d(s, a)
        + #[trigger] model::field_off(s, 0, a) < model::in_d(s, a) by {
        assert(c[a] * 1 == c[a]) by {
            vstd::arithmetic::mul::lemma_mul_basics(c[a] as int);
        }
    }
    model::lemma_unit_sldf(s, 0, 0);
    model::lemma_cent_is_flat_index(s, c, 0);
}

} // verus!
