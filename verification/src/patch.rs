//! The window specification and the immutable patch descriptor built from
//! it.
use vstd::prelude::*;
use core::ops::Range;
use crate::geometry::PaddingSpec;
use crate::model;

verus! {

/// Specification of an N-dimensional sliding window: input spatial shape,
/// buffer strides, kernel shape, strides, dilations and padding policy. All
/// per-axis sequences share one rank.
#[derive(Debug, Clone, PartialEq)]
pub struct PatchSpec {
    pub input_shape: Vec<usize>,
    pub input_inner_stride: usize,
    pub output_inner_stride: usize,
    pub kernel_shape: Vec<usize>,
    pub strides: Vec<usize>,
    pub dilations: Vec<usize>,
    pub padding: PaddingSpec,
}

impl PatchSpec {
    /// A unit-window specification over the given spatial extents of a data
    /// shape, with the given innermost buffer stride.
    pub fn for_data_shape(input_shape: Vec<usize>, input_inner_stride: usize) -> (r: PatchSpec)
        ensures
            r.input_shape == input_shape,
            r.input_inner_stride == input_inner_stride,
            r.output_inner_stride == 1usize,
            r.kernel_shape@ == Seq::new(input_shape@.len(), |a: int| 1usize),
            r.strides@ == Seq::new(input_shape@.len(), |a: int| 1usize),
            r.dilations@ == Seq::new(input_shape@.len(), |a: int| 1usize),
            r.padding == PaddingSpec::Valid,
    {
        let rank = input_shape.len();
        PatchSpec {
            kernel_shape: ones(rank),
            input_inner_stride,
            output_inner_stride: 1,
            strides: ones(rank),
            dilations: ones(rank),
            padding: PaddingSpec::Valid,
            input_shape,
        }
    }

    /// The same specification with another kernel shape.
    pub fn with_kernel_shape(self, kernel_shape: Vec<usize>) -> (r: PatchSpec)
        ensures
            r == (PatchSpec { kernel_shape, ..self }),
    {
        PatchSpec { kernel_shape, ..self }
    }

    /// The same specification with other dilations.
    pub fn with_dilations(self, dilations: Vec<usize>) -> (r: PatchSpec)
        ensures
            r == (PatchSpec { dilations, ..self }),
    {
        PatchSpec { dilations, ..self }
    }

    /// The same specification with other strides.
    pub fn with_strides(self, strides: Vec<usize>) -> (r: PatchSpec)
        ensures
            r == (PatchSpec { strides, ..self }),
    {
        PatchSpec { strides, ..self }
    }

    /// The same specification with another padding policy.
    pub fn with_padding(self, padding: PaddingSpec) -> (r: PatchSpec)
        ensures
            r == (PatchSpec { padding, ..self }),
    {
        PatchSpec { padding, ..self }
    }

    /// The same specification with another innermost output stride.
    pub fn with_output_inner_stride(self, output_inner_stride: usize) -> (r: PatchSpec)
        ensures
            r == (PatchSpec { output_inner_stride, ..self }),
    {
        PatchSpec { output_inner_stride, ..self }
    }
}

impl PatchSpec {
    /// Builds the immutable patch descriptor: resolves the padding policy,
    /// lays out the kernel taps and their flat buffer deltas, and partitions
    /// the output space into the valid zone and the invalid shells.
    pub fn into_patch(self) -> (r: Result<Patch, crate::geometry::GeometryError>)
        requires
            forall|a: int| 0 <= a < self.kernel_shape@.len() ==> self.kernel_shape@[a] >= 1,
            forall|a: int| 0 <= a < self.dilations@.len() ==> self.dilations@[a] >= 1,
            forall|a: int| 0 <= a < self.strides@.len() ==> self.strides@[a] >= 1,
            model::fits(self),
        ensures
            r.is_ok() <==> model::resolve_ok(self),
            r matches Ok(p) ==> p.wf() && p.spec == self,
            r matches Err(e) ==> (e == crate::geometry::GeometryError::RankMismatch <==> !(
            crate::geometry::ranks_ok(
                self.padding,
                self.input_shape@,
                self.kernel_shape@,
                self.dilations@,
                self.strides@,
            ))),
    {
        proof {
            assert forall|a: int|
                crate::geometry::ranks_ok(
                    self.padding,
                    self.input_shape@,
                    self.kernel_shape@,
                    self.dilations@,
                    self.strides@,
                ) && 0 <= a < self.input_shape@.len() implies #[trigger] crate::geometry::axis_arith_ok(
                self.padding,
                a,
                self.input_shape@[a] as int,
                self.kernel_shape@[a] as int,
                self.dilations@[a] as int,
                self.strides@[a] as int,
            ) by {
                assert(2 * model::axis_half(self, a) <= isize::MAX);
            }
        }
        let dims = match self.padding.compute(
            self.input_shape.as_slice(),
            self.kernel_shape.as_slice(),
            self.dilations.as_slice(),
            self.strides.as_slice(),
        ) {
            Ok(d) => d,
            Err(e) => {
                return Err(e);
            },
        };
        let rank = self.input_shape.len();
        let mut output: Vec<usize> = Vec::new();
        let mut pad_before: Vec<usize> = Vec::new();
        let mut pad_after: Vec<usize> = Vec::new();
        let mut padded = false;
        let mut a: usize = 0;
        while a < rank
            invariant
                0 <= a <= rank,
                rank == model::rank_of(self),
                model::resolve_ok(self),
                dims@.len() == rank,
                forall|b: int|
                    0 <= b < rank ==> (#[trigger] dims@[b]).output as int == model::out_d(self, b)
                        && dims@[b].pad_before as int == model::pb_d(self, b)
                        && dims@[b].pad_after as int == model::pa_d(self, b),
                output@.len() == a && pad_before@.len() == a && pad_after@.len() == a,
                forall|b: int|
                    0 <= b < a as int ==> (#[trigger] output@[b]) as int == model::out_d(self, b),
                forall|b: int|
                    0 <= b < a as int ==> (#[trigger] pad_before@[b]) as int == model::pb_d(
                        self,
                        b,
                    ),
                forall|b: int|
                    0 <= b < a as int ==> (#[trigger] pad_after@[b]) as int == model::pa_d(
                        self,
                        b,
                    ),
                padded == exists|b: int|
                    0 <= b < a as int && (model::pb_d(self, b) != 0 || model::pa_d(self, b) != 0),
            decreases rank - a,
        {
            let dim = dims[a];
            output.push(dim.output);
            pad_before.push(dim.pad_before);
            pad_after.push(dim.pad_after);
            if dim.pad_before != 0 || dim.pad_after != 0 {
                padded = true;
                proof {
                    assert(model::pb_d(self, a as int) != 0 || model::pa_d(self, a as int) != 0);
                }
            }
            a += 1;
        }
        proof {
            assert(padded == model::padded_any(self));
        }
        let ksufs = build_ksufs(&self);
        let n_taps = ksufs[0];
        let lstr = build_layout_strides(&self);
        let data_field = build_data_field(&self, &ksufs, &pad_before);
        let data_field_min_max = build_min_max(&self, &pad_before);
        let standard_layout_data_field = build_sldf(&self, &data_field, &lstr, n_taps);
        let op_strides_times_input_storage_strides = build_op_strides(&self, &lstr);
        let (valid_output_zone, invalid_output_zones) = build_zones(
            &self,
            &pad_before,
            &data_field_min_max,
            &output,
        );
        Ok(
            Patch {
                spec: self,
                pad_before,
                pad_after,
                padded,
                output_shape: output,
                data_field,
                data_field_min_max,
                standard_layout_data_field,
                op_strides_times_input_storage_strides,
                valid_output_zone,
                invalid_output_zones,
            },
        )
    }
}

/// Suffix products of the kernel extents: entry `a` holds the number of
/// taps over axes `a..rank`.
fn build_ksufs(s: &PatchSpec) -> (r: Vec<usize>)
    requires
        model::resolve_ok(*s),
        model::fits(*s),
    ensures
        r@.len() == model::rank_of(*s) + 1,
        forall|b: int| 0 <= b <= model::rank_of(*s) ==> (#[trigger] r@[b]) as int == model::ksuf(
            *s,
            b,
        ),
{
    let rank = s.input_shape.len();
    proof {
        model::lemma_taps_max(*s);
        vstd::arithmetic::mul::lemma_mul_inequality(1, model::taps(*s), rank as int + 1);
    }
    let mut r = zeros(rank + 1);
    r.set(rank, 1);
    let mut a = rank;
    while a > 0
        invariant
            0 <= a <= rank,
            rank == model::rank_of(*s),
            model::resolve_ok(*s),
            model::fits(*s),
            r@.len() == rank + 1,
            model::taps(*s) <= isize::MAX,
            forall|b: int| a as int <= b <= rank ==> (#[trigger] r@[b]) as int == model::ksuf(
                *s,
                b,
            ),
        decreases a,
    {
        a -= 1;
        proof {
            model::lemma_ksuf_le_taps(*s, a as int);
            model::lemma_ksuf_le_taps(*s, a as int + 1);
        }
        let v = s.kernel_shape[a] * r[a + 1];
        r.set(a, v);
    }
    r
}

/// Row-major layout strides of the input buffer, innermost axis last.
fn build_layout_strides(s: &PatchSpec) -> (r: Vec<isize>)
    requires
        model::resolve_ok(*s),
        model::fits(*s),
    ensures
        r@.len() == model::rank_of(*s),
        forall|b: int| 0 <= b < model::rank_of(*s) ==> (#[trigger] r@[b]) as int == model::lay(
            *s,
            b,
        ),
{
    let rank = s.input_shape.len();
    let mut r = zeros_isize(rank);
    let mut a = rank;
    while a > 0
        invariant
            0 <= a <= rank,
            rank == model::rank_of(*s),
            model::resolve_ok(*s),
            model::fits(*s),
            r@.len() == rank,
            forall|b: int| a as int <= b < rank ==> (#[trigger] r@[b]) as int == model::lay(*s, b),
        decreases a,
    {
        a -= 1;
        proof {
            model::lemma_lay_bound(*s, a as int);
            model::lemma_half_sum_nonneg(*s, 0);
            if a as int + 1 < rank {
                model::lemma_lay_bound(*s, a as int + 1);
                model::lemma_axis_half(*s, a as int + 1);
                model::lemma_pad_bounds(*s, a as int + 1);
            }
        }
        let v: isize = if a + 1 == rank {
            s.input_inner_stride as isize
        } else {
            s.input_shape[a + 1] as isize * r[a + 1]
        };
        r.set(a, v);
    }
    r
}

/// Relative per-axis tap offsets, row-major over taps: entry `t * rank + b`
/// holds tap `t`'s offset on axis `b`.
fn build_data_field(s: &PatchSpec, ksufs: &Vec<usize>, pad_before: &Vec<usize>) -> (r: Vec<isize>)
    requires
        model::resolve_ok(*s),
        model::fits(*s),
        ksufs@.len() == model::rank_of(*s) + 1,
        forall|b: int|
            0 <= b <= model::rank_of(*s) ==> (#[trigger] ksufs@[b]) as int == model::ksuf(*s, b),
        pad_before@.len() == model::rank_of(*s),
        forall|b: int|
            0 <= b < model::rank_of(*s) ==> (#[trigger] pad_before@[b]) as int == model::pb_d(
                *s,
                b,
            ),
    ensures
        r@.len() == model::taps(*s) * model::rank_of(*s),
        forall|t: int, b: int|
            0 <= t < model::taps(*s) && 0 <= b < model::rank_of(*s) ==> (#[trigger] r@[t
                * model::rank_of(*s) + b]) as int == model::field_off(*s, t, b),
{
    let rank = s.input_shape.len();
    let n_taps = ksufs[0];
    proof {
        model::lemma_taps_max(*s);
    }
    let mut r: Vec<isize> = Vec::new();
    let mut t: usize = 0;
    while t < n_taps
        invariant
            0 <= t <= n_taps,
            rank == model::rank_of(*s),
            n_taps as int == model::taps(*s),
            model::resolve_ok(*s),
            model::fits(*s),
            ksufs@.len() == rank + 1,
            forall|b: int| 0 <= b <= rank ==> (#[trigger] ksufs@[b]) as int == model::ksuf(*s, b),
            pad_before@.len() == rank,
            forall|b: int|
                0 <= b < rank ==> (#[trigger] pad_before@[b]) as int == model::pb_d(*s, b),
            r@.len() == t as int * rank as int,
            forall|j: int|
                0 <= j < r@.len() ==> (#[trigger] r@[j]) as int == model::field_off(
                    *s,
                    j / rank as int,
                    j % rank as int,
                ),
        decreases n_taps - t,
    {
        let ghost len0 = r@.len() as int;
        let mut b: usize = 0;
        while b < rank
            invariant
                0 <= b <= rank,
                0 <= t < n_taps,
                rank == model::rank_of(*s),
                n_taps as int == model::taps(*s),
                model::resolve_ok(*s),
                model::fits(*s),
                ksufs@.len() == rank + 1,
                forall|bb: int|
                    0 <= bb <= rank ==> (#[trigger] ksufs@[bb]) as int == model::ksuf(*s, bb),
                pad_before@.len() == rank,
                forall|bb: int|
                    0 <= bb < rank ==> (#[trigger] pad_before@[bb]) as int == model::pb_d(*s, bb),
                len0 == t as int * rank as int,
                r@.len() == len0 + b,
                forall|j: int|
                    0 <= j < r@.len() ==> (#[trigger] r@[j]) as int == model::field_off(
                        *s,
                        j / rank as int,
                        j % rank as int,
                    ),
            decreases rank - b,
        {
            proof {
                model::lemma_ksuf_pos(*s, b as int + 1);
                model::lemma_ksuf_le_taps(*s, b as int + 1);
                model::lemma_field_off_bounds(*s, t as int, b as int);
                model::lemma_pad_bounds(*s, b as int);
                model::lemma_axis_half(*s, b as int);
                vstd::arithmetic::mul::lemma_mul_inequality(
                    model::tap_coord(*s, t as int, b as int),
                    model::k_d(*s, b as int) - 1,
                    model::dil_d(*s, b as int),
                );
                vstd::arithmetic::mul::lemma_mul_nonnegative(
                    model::tap_coord(*s, t as int, b as int),
                    model::dil_d(*s, b as int),
                );
            }
            let tc = (t / ksufs[b + 1]) % s.kernel_shape[b];
            let scaled = tc * s.dilations[b];
            let off = scaled as isize - pad_before[b] as isize;
            proof {
                vstd::arithmetic::div_mod::lemma_fundamental_div_mod_converse(
                    len0 + b as int,
                    rank as int,
                    t as int,
                    b as int,
                );
            }
            r.push(off);
            b += 1;
        }
        t += 1;
        proof {
            vstd::arithmetic::mul::lemma_mul_is_distributive_add_other_way(
                rank as int,
                t as int - 1,
                1,
            );
        }
    }
    proof {
        assert forall|tt: int, b: int|
            0 <= tt < model::taps(*s) && 0 <= b < model::rank_of(*s) implies (#[trigger] r@[tt
            * model::rank_of(*s) + b]) as int == model::field_off(*s, tt, b) by {
            model::lemma_tap_index_in(*s, tt, b);
        }
    }
    r
}

/// Per-axis extreme relative offsets over all taps.
fn build_min_max(s: &PatchSpec, pad_before: &Vec<usize>) -> (r: Vec<(isize, isize)>)
    requires
        model::resolve_ok(*s),
        model::fits(*s),
        pad_before@.len() == model::rank_of(*s),
        forall|b: int|
            0 <= b < model::rank_of(*s) ==> (#[trigger] pad_before@[b]) as int == model::pb_d(
                *s,
                b,
            ),
    ensures
        r@.len() == model::rank_of(*s),
        forall|b: int|
            0 <= b < model::rank_of(*s) ==> (#[trigger] r@[b]).0 as int == model::fmin(*s, b)
                && r@[b].1 as int == model::fmax(*s, b),
{
    let rank = s.input_shape.len();
    let mut r: Vec<(isize, isize)> = Vec::new();
    let mut b: usize = 0;
    while b < rank
        invariant
            0 <= b <= rank,
            rank == model::rank_of(*s),
            model::resolve_ok(*s),
            model::fits(*s),
            pad_before@.len() == rank,
            forall|bb: int|
                0 <= bb < rank ==> (#[trigger] pad_before@[bb]) as int == model::pb_d(*s, bb),
            r@.len() == b,
            forall|bb: int|
                0 <= bb < b as int ==> (#[trigger] r@[bb]).0 as int == model::fmin(*s, bb)
                    && r@[bb].1 as int == model::fmax(*s, bb),
        decreases rank - b,
    {
        proof {
            model::lemma_pad_bounds(*s, b as int);
            model::lemma_axis_half(*s, b as int);
            vstd::arithmetic::mul::lemma_mul_nonnegative(
                model::k_d(*s, b as int) - 1,
                model::dil_d(*s, b as int),
            );
        }
        let pb = pad_before[b];
        let reachb = (s.kernel_shape[b] - 1) * s.dilations[b];
        r.push((-(pb as isize), reachb as isize - pb as isize));
        b += 1;
    }
    r
}

/// Flat buffer delta of every tap: its relative offsets dotted with the
/// layout strides.
fn build_sldf(s: &PatchSpec, df: &Vec<isize>, lstr: &Vec<isize>, n_taps: usize) -> (r: Vec<isize>)
    requires
        model::resolve_ok(*s),
        model::fits(*s),
        n_taps as int == model::taps(*s),
        df@.len() == model::taps(*s) * model::rank_of(*s),
        forall|t: int, b: int|
            0 <= t < model::taps(*s) && 0 <= b < model::rank_of(*s) ==> (#[trigger] df@[t
                * model::rank_of(*s) + b]) as int == model::field_off(*s, t, b),
        lstr@.len() == model::rank_of(*s),
        forall|b: int|
            0 <= b < model::rank_of(*s) ==> (#[trigger] lstr@[b]) as int == model::lay(*s, b),
    ensures
        r@.len() == model::taps(*s),
        forall|t: int|
            0 <= t < model::taps(*s) ==> (#[trigger] r@[t]) as int == model::sldf(*s, t),
{
    let rank = s.input_shape.len();
    let mut r: Vec<isize> = Vec::new();
    let mut t: usize = 0;
    while t < n_taps
        invariant
            0 <= t <= n_taps,
            rank == model::rank_of(*s),
            n_taps as int == model::taps(*s),
            model::resolve_ok(*s),
            model::fits(*s),
            df@.len() == model::taps(*s) * rank,
            forall|tt: int, b: int|
                0 <= tt < model::taps(*s) && 0 <= b < rank ==> (#[trigger] df@[tt * rank as int
                    + b]) as int == model::field_off(*s, tt, b),
            lstr@.len() == rank,
            forall|b: int| 0 <= b < rank ==> (#[trigger] lstr@[b]) as int == model::lay(*s, b),
            r@.len() == t,
            forall|tt: int| 0 <= tt < t as int ==> (#[trigger] r@[tt]) as int == model::sldf(
                *s,
                tt,
            ),
        decreases n_taps - t,
    {
        let mut sum: isize = 0;
        let mut b: usize = 0;
        while b < rank
            invariant
                0 <= b <= rank,
                0 <= t < n_taps,
                rank == model::rank_of(*s),
                n_taps as int == model::taps(*s),
                model::resolve_ok(*s),
                model::fits(*s),
                df@.len() == model::taps(*s) * rank,
                forall|tt: int, bb: int|
                    0 <= tt < model::taps(*s) && 0 <= bb < rank ==> (#[trigger] df@[tt * rank
                        as int + bb]) as int == model::field_off(*s, tt, bb),
                lstr@.len() == rank,
                forall|bb: int|
                    0 <= bb < rank ==> (#[trigger] lstr@[bb]) as int == model::lay(*s, bb),
                sum as int == model::sldf_from(*s, t as int, 0) - model::sldf_from(
                    *s,
                    t as int,
                    b as int,
                ),
            decreases rank - b,
        {
            proof {
                model::lemma_tap_index_bound(*s, t as int, b as int);
                model::lemma_taps_max(*s);
                model::lemma_sldf_prefix(*s, t as int, b as int);
                model::lemma_sldf_prefix(*s, t as int, b as int + 1);
                model::lemma_half_sum_nonneg(*s, b as int + 1);
                model::lemma_half_sum_nonneg(*s, 0);
                model::lemma_field_off_bounds(*s, t as int, b as int);
                model::lemma_pad_bounds(*s, b as int);
                model::lemma_axis_half(*s, b as int);
                model::lemma_lay_bound(*s, b as int);
                model::lemma_term_bound(
                    model::field_off(*s, t as int, b as int),
                    model::axis_half(*s, b as int),
                    model::lay(*s, b as int),
                );
            }
            proof {
                model::lemma_tap_index_in(*s, t as int, b as int);
            }
            let idx = t * rank + b;
            let term = df[idx] * lstr[b];
            sum = sum + term;
            b += 1;
        }
        r.push(sum);
        t += 1;
    }
    r
}

/// Flat-address delta of one output step along each axis: stride times
/// layout stride.
fn build_op_strides(s: &PatchSpec, lstr: &Vec<isize>) -> (r: Vec<isize>)
    requires
        model::resolve_ok(*s),
        model::fits(*s),
        lstr@.len() == model::rank_of(*s),
        forall|b: int|
            0 <= b < model::rank_of(*s) ==> (#[trigger] lstr@[b]) as int == model::lay(*s, b),
    ensures
        r@.len() == model::rank_of(*s),
        forall|b: int|
            0 <= b < model::rank_of(*s) ==> (#[trigger] r@[b]) as int == model::st_d(*s, b)
                * model::lay(*s, b),
{
    let rank = s.input_shape.len();
    let mut r: Vec<isize> = Vec::new();
    let mut b: usize = 0;
    while b < rank
        invariant
            0 <= b <= rank,
            rank == model::rank_of(*s),
            model::resolve_ok(*s),
            model::fits(*s),
            lstr@.len() == rank,
            forall|bb: int|
                0 <= bb < rank ==> (#[trigger] lstr@[bb]) as int == model::lay(*s, bb),
            r@.len() == b,
            forall|bb: int|
                0 <= bb < b as int ==> (#[trigger] r@[bb]) as int == model::st_d(*s, bb)
                    * model::lay(*s, bb),
        decreases rank - b,
    {
        proof {
            model::lemma_op_stride_bound(*s, b as int);
            model::lemma_pad_bounds(*s, b as int);
            model::lemma_axis_half(*s, b as int);
            model::lemma_half_sum_nonneg(*s, 0);
        }
        let v = s.strides[b] as isize * lstr[b];
        r.push(v);
        b += 1;
    }
    r
}

/// One invalid shell: the established valid ranges below axis `ax`, the
/// departing range at `ax`, the full output extent above.
fn build_shell(
    valid_zone: &Vec<Range<usize>>,
    output: &Vec<usize>,
    lo: usize,
    hi: usize,
) -> (r: Vec<Range<usize>>)
    requires
        valid_zone@.len() < output@.len(),
    ensures
        r@.len() == output@.len(),
        forall|b: int|
            0 <= b < valid_zone@.len() ==> (#[trigger] r@[b]).start == valid_zone@[b].start
                && r@[b].end == valid_zone@[b].end,
        r@[valid_zone@.len() as int].start == lo,
        r@[valid_zone@.len() as int].end == hi,
        forall|b: int|
            valid_zone@.len() < b < output@.len() ==> (#[trigger] r@[b]).start == 0 && r@[b].end
                == output@[b],
{
    let ax = valid_zone.len();
    let rank = output.len();
    let mut r: Vec<Range<usize>> = Vec::new();
    let mut b: usize = 0;
    while b < ax
        invariant
            0 <= b <= ax,
            ax < rank,
            ax == valid_zone@.len(),
            rank == output@.len(),
            r@.len() == b,
            forall|j: int|
                0 <= j < b as int ==> (#[trigger] r@[j]).start == valid_zone@[j].start && r@[j].end
                    == valid_zone@[j].end,
        decreases ax - b,
    {
        r.push(valid_zone[b].start..valid_zone[b].end);
        b += 1;
    }
    r.push(lo..hi);
    let mut b2: usize = ax + 1;
    while b2 < rank
        invariant
            ax + 1 <= b2 <= rank,
            ax == valid_zone@.len(),
            rank == output@.len(),
            r@.len() == b2,
            forall|j: int|
                0 <= j < ax as int ==> (#[trigger] r@[j]).start == valid_zone@[j].start
                    && r@[j].end == valid_zone@[j].end,
            r@[ax as int].start == lo && r@[ax as int].end == hi,
            forall|j: int|
                (ax as int) < j && j < b2 as int ==> (#[trigger] r@[j]).start == 0 && r@[j].end
                    == output@[j],
        decreases rank - b2,
    {
        r.push(0..output[b2]);
        b2 += 1;
    }
    r
}

/// The valid output zone and the disjoint invalid shells, axis by axis.
fn build_zones(
    s: &PatchSpec,
    pad_before: &Vec<usize>,
    min_max: &Vec<(isize, isize)>,
    output: &Vec<usize>,
) -> (r: (Vec<Range<usize>>, Vec<Vec<Range<usize>>>))
    requires
        model::resolve_ok(*s),
        model::fits(*s),
        pad_before@.len() == model::rank_of(*s),
        forall|b: int|
            0 <= b < model::rank_of(*s) ==> (#[trigger] pad_before@[b]) as int == model::pb_d(
                *s,
                b,
            ),
        min_max@.len() == model::rank_of(*s),
        forall|b: int|
            0 <= b < model::rank_of(*s) ==> (#[trigger] min_max@[b]).1 as int == model::fmax(
                *s,
                b,
            ),
        output@.len() == model::rank_of(*s),
        forall|b: int|
            0 <= b < model::rank_of(*s) ==> (#[trigger] output@[b]) as int == model::out_d(*s, b),
    ensures
        r.0@.len() == model::rank_of(*s),
        forall|b: int|
            0 <= b < model::rank_of(*s) ==> (#[trigger] r.0@[b]).start as int == model::zlo(*s, b)
                && r.0@[b].end as int == model::zhi(*s, b),
        r.1@.len() == model::shells(*s).len(),
        forall|j: int|
            0 <= j < model::shells(*s).len() ==> (#[trigger] r.1@[j])@.len() == model::rank_of(
                *s,
            ),
        forall|j: int, b: int|
            0 <= j < model::shells(*s).len() && 0 <= b < model::rank_of(*s) ==> {
                let key = model::shells(*s)[j];
                &&& (#[trigger] r.1@[j]@[b]).start as int == model::shell_at(*s, key.0, key.1, b).0
                &&& r.1@[j]@[b].end as int == model::shell_at(*s, key.0, key.1, b).1
            },
{
    let rank = s.input_shape.len();
    let mut valid_zone: Vec<Range<usize>> = Vec::new();
    let mut invalid_zones: Vec<Vec<Range<usize>>> = Vec::new();
    let mut a: usize = 0;
    while a < rank
        invariant
            0 <= a <= rank,
            rank == model::rank_of(*s),
            model::resolve_ok(*s),
            model::fits(*s),
            pad_before@.len() == rank,
            forall|b: int|
                0 <= b < rank ==> (#[trigger] pad_before@[b]) as int == model::pb_d(*s, b),
            min_max@.len() == rank,
            forall|b: int|
                0 <= b < rank ==> (#[trigger] min_max@[b]).1 as int == model::fmax(*s, b),
            output@.len() == rank,
            forall|b: int|
                0 <= b < rank ==> (#[trigger] output@[b]) as int == model::out_d(*s, b),
            valid_zone@.len() == a,
            forall|b: int|
                0 <= b < a as int ==> (#[trigger] valid_zone@[b]).start as int == model::zlo(*s, b)
                    && valid_zone@[b].end as int == model::zhi(*s, b),
            invalid_zones@.len() == model::shells_upto(*s, a as int).len(),
            forall|j: int|
                0 <= j < model::shells_upto(*s, a as int).len() ==> (
                #[trigger] invalid_zones@[j])@.len() == rank,
            forall|j: int, b: int|
                0 <= j < model::shells_upto(*s, a as int).len() && 0 <= b < rank ==> {
                    let key = model::shells_upto(*s, a as int)[j];
                    &&& (#[trigger] invalid_zones@[j]@[b]).start as int == model::shell_at(
                        *s,
                        key.0,
                        key.1,
                        b,
                    ).0
                    &&& invalid_zones@[j]@[b].end as int == model::shell_at(*s, key.0, key.1, b).1
                },
        decreases rank - a,
    {
        let pb = pad_before[a];
        let st = s.strides[a];
        let outa = output[a];
        proof {
            model::lemma_pad_bounds(*s, a as int);
            model::lemma_axis_half(*s, a as int);
            crate::arith::lemma_ceil_div_le(model::pb_d(*s, a as int), model::st_d(*s, a as int));
            if model::in_d(*s, a as int) - model::fmax(*s, a as int) > 0 {
                crate::arith::lemma_ceil_div_le(
                    model::in_d(*s, a as int) - model::fmax(*s, a as int),
                    model::st_d(*s, a as int),
                );
            }
            if pb > 0 {
                vstd::arithmetic::div_mod::lemma_div_nonincreasing(pb as int - 1, st as int);
                vstd::arithmetic::div_mod::lemma_div_pos_is_pos(pb as int - 1, st as int);
            }
        }
        let lo_raw: usize = if pb == 0 {
            0
        } else {
            (pb - 1) / st + 1
        };
        proof {
            if pb > 0 {
                assert(lo_raw as int == (pb as int + st as int - 1) / st as int) by {
                    vstd::arithmetic::div_mod::lemma_hoist_over_denominator(
                        pb as int - 1,
                        1,
                        st as nat,
                    );
                }
            }
            assert(lo_raw as int == model::zlo_raw(*s, a as int));
        }
        let lo = if lo_raw < outa {
            lo_raw
        } else {
            outa
        };
        let fx = min_max[a].1;
        let xi = s.input_shape[a] as isize - fx;
        proof {
            if xi > 0 {
                vstd::arithmetic::div_mod::lemma_div_pos_is_pos(xi as int - 1, st as int);
                vstd::arithmetic::div_mod::lemma_div_nonincreasing(xi as int - 1, st as int);
            }
        }
        let hi_raw: usize = if xi <= 0 {
            0
        } else {
            (((xi - 1) / st as isize) + 1) as usize
        };
        proof {
            if xi > 0 {
                assert(hi_raw as int == (xi as int + st as int - 1) / st as int) by {
                    vstd::arithmetic::div_mod::lemma_hoist_over_denominator(
                        xi as int - 1,
                        1,
                        st as nat,
                    );
                }
            }
            assert(hi_raw as int == model::zhi_raw(*s, a as int));
        }
        let hi_unclamped = if hi_raw > lo_raw {
            hi_raw
        } else {
            lo_raw
        };
        let hi = if hi_unclamped < outa {
            hi_unclamped
        } else {
            outa
        };
        proof {
            assert(lo as int == model::zlo(*s, a as int));
            assert(hi as int == model::zhi(*s, a as int));
        }
        let ghost olda = a as int;
        let ghost old_shells = model::shells_upto(*s, olda);
        let ghost old_inv = invalid_zones@;
        let ghost old_valid = valid_zone@;
        if lo > 0 {
            let shell = build_shell(&valid_zone, output, 0, lo);
            invalid_zones.push(shell);
        }
        if hi < outa {
            let shell = build_shell(&valid_zone, output, hi, outa);
            invalid_zones.push(shell);
        }
        valid_zone.push(lo..hi);
        a += 1;
        proof {
            model::lemma_shells_step(*s, olda + 1);
            let news = model::shells_upto(*s, olda + 1);
            assert(old_inv.len() == old_shells.len());
            assert(invalid_zones@.len() == old_inv.len() + (if model::zlo(*s, olda) > 0 {
                1int
            } else {
                0int
            }) + (if model::zhi(*s, olda) < model::out_d(*s, olda) {
                1int
            } else {
                0int
            }));
            assert(news.len() == old_shells.len() + (if model::zlo(*s, olda) > 0 {
                1int
            } else {
                0int
            }) + (if model::zhi(*s, olda) < model::out_d(*s, olda) {
                1int
            } else {
                0int
            }));
            assert(invalid_zones@.len() == news.len());
            assert forall|j: int|
                0 <= j < news.len() implies (#[trigger] invalid_zones@[j])@.len() == rank by {
                if j < old_shells.len() {
                    assert(invalid_zones@[j] == old_inv[j]);
                }
            }
            assert forall|j: int, b: int|
                0 <= j < news.len() && 0 <= b < rank as int implies {
                let key = news[j];
                &&& (#[trigger] invalid_zones@[j]@[b]).start as int == model::shell_at(
                    *s,
                    key.0,
                    key.1,
                    b,
                ).0
                &&& invalid_zones@[j]@[b].end as int == model::shell_at(*s, key.0, key.1, b).1
            } by {
                let key = news[j];
                let oldn = old_shells.len() as int;
                if j < oldn {
                    assert(news[j] == old_shells[j]);
                    assert(invalid_zones@[j] == old_inv[j]);
                    assert(old_inv[j]@[b].start as int == model::shell_at(
                        *s,
                        old_shells[j].0,
                        old_shells[j].1,
                        b,
                    ).0);
                    assert(old_inv[j]@[b].end as int == model::shell_at(
                        *s,
                        old_shells[j].0,
                        old_shells[j].1,
                        b,
                    ).1);
                } else {
                    assert(key.0 == olda);
                    assert(invalid_zones@[j]@.len() == rank);
                    if b < olda {
                        assert(old_valid[b].start as int == model::zlo(*s, b) && old_valid[b].end
                            as int == model::zhi(*s, b));
                        assert(invalid_zones@[j]@[b].start == old_valid[b].start
                            && invalid_zones@[j]@[b].end == old_valid[b].end);
                    } else if b == olda {
                        if key.1 {
                            assert(invalid_zones@[j]@[b].start == 0 && invalid_zones@[j]@[b].end
                                as int == model::zlo(*s, olda));
                        } else {
                            assert(invalid_zones@[j]@[b].start as int == model::zhi(*s, olda)
                                && invalid_zones@[j]@[b].end as int == model::out_d(*s, olda));
                        }
                    } else {
                        assert(invalid_zones@[j]@[b].start == 0 && invalid_zones@[j]@[b].end
                            == output@[b]);
                    }
                }
            }
        }
    }
    (valid_zone, invalid_zones)
}

/// A vector of `n` zeros.
fn zeros(n: usize) -> (r: Vec<usize>)
    ensures
        r@.len() == n,
        forall|a: int| 0 <= a < n as int ==> (#[trigger] r@[a]) == 0usize,
{
    let mut r: Vec<usize> = Vec::new();
    let mut i: usize = 0;
    while i < n
        invariant
            i <= n,
            r@.len() == i,
            forall|a: int| 0 <= a < i as int ==> (#[trigger] r@[a]) == 0usize,
        decreases n - i,
    {
        r.push(0);
        i += 1;
    }
    r
}

/// A vector of `n` zero offsets.
fn zeros_isize(n: usize) -> (r: Vec<isize>)
    ensures
        r@.len() == n,
        forall|a: int| 0 <= a < n as int ==> (#[trigger] r@[a]) == 0isize,
{
    let mut r: Vec<isize> = Vec::new();
    let mut i: usize = 0;
    while i < n
        invariant
            i <= n,
            r@.len() == i,
            forall|a: int| 0 <= a < i as int ==> (#[trigger] r@[a]) == 0isize,
        decreases n - i,
    {
        r.push(0);
        i += 1;
    }
    r
}

/// A vector of `n` ones.
fn ones(n: usize) -> (r: Vec<usize>)
    ensures
        r@ == Seq::new(n as nat, |a: int| 1usize),
{
    let mut r: Vec<usize> = Vec::new();
    let mut i: usize = 0;
    while i < n
        invariant
            i <= n,
            r@ == Seq::new(i as nat, |a: int| 1usize),
        decreases n - i,
    {
        r.push(1);
        i += 1;
        proof {
            assert(r@ =~= Seq::new(i as nat, |a: int| 1usize));
        }
    }
    proof {
        assert(r@ =~= Seq::new(n as nat, |a: int| 1usize));
    }
    r
}

/// Immutable descriptor of one window shape-specialisation: resolved
/// padding, output shape, relative tap offsets, flat buffer deltas and the
/// valid / invalid partition of the output space.
#[derive(Debug, Clone, PartialEq)]
pub struct Patch {
    pub spec: PatchSpec,
    pub pad_before: Vec<usize>,
    pub pad_after: Vec<usize>,
    pub padded: bool,
    pub output_shape: Vec<usize>,
    pub data_field: Vec<isize>,
    pub data_field_min_max: Vec<(isize, isize)>,
    pub standard_layout_data_field: Vec<isize>,
    pub op_strides_times_input_storage_strides: Vec<isize>,
    pub valid_output_zone: Vec<Range<usize>>,
    pub invalid_output_zones: Vec<Vec<Range<usize>>>,
}

impl Patch {
    /// Every field agrees with the model of `spec`.
    pub open spec fn wf(&self) -> bool {
        let s = self.spec;
        let r = model::rank_of(s);
        &&& model::spec_ok(s)
        &&& model::resolve_ok(s)
        &&& self.pad_before@.len() == r
        &&& self.pad_after@.len() == r
        &&& self.output_shape@.len() == r
        &&& forall|a: int|
            0 <= a < r ==> self.pad_before@[a] as int == model::pb_d(s, a) && self.pad_after@[a]
                as int == model::pa_d(s, a) && self.output_shape@[a] as int == model::out_d(s, a)
        &&& self.padded == model::padded_any(s)
        &&& self.data_field@.len() == model::taps(s) * r
        &&& forall|t: int, a: int|
            0 <= t < model::taps(s) && 0 <= a < r ==> self.data_field@[t * r + a] as int
                == model::field_off(s, t, a)
        &&& self.data_field_min_max@.len() == r
        &&& forall|a: int|
            0 <= a < r ==> self.data_field_min_max@[a].0 as int == model::fmin(s, a)
                && self.data_field_min_max@[a].1 as int == model::fmax(s, a)
        &&& self.standard_layout_data_field@.len() == model::taps(s)
        &&& forall|t: int|
            0 <= t < model::taps(s) ==> self.standard_layout_data_field@[t] as int == model::sldf(
                s,
                t,
            )
        &&& self.op_strides_times_input_storage_strides@.len() == r
        &&& forall|a: int|
            0 <= a < r ==> self.op_strides_times_input_storage_strides@[a] as int == model::st_d(
                s,
                a,
            ) * model::lay(s, a)
        &&& self.valid_output_zone@.len() == r
        &&& forall|a: int|
            0 <= a < r ==> self.valid_output_zone@[a].start as int == model::zlo(s, a)
                && self.valid_output_zone@[a].end as int == model::zhi(s, a)
        &&& self.invalid_output_zones@.len() == model::shells(s).len()
        &&& forall|j: int|
            0 <= j < model::shells(s).len() ==> (#[trigger] self.invalid_output_zones@[j])@.len()
                == r
        &&& forall|j: int, b: int|
            0 <= j < model::shells(s).len() && 0 <= b < r ==> {
                let key = model::shells(s)[j];
                &&& (#[trigger] self.invalid_output_zones@[j]@[b]).start as int == model::shell_at(
                    s,
                    key.0,
                    key.1,
                    b,
                ).0
                &&& self.invalid_output_zones@[j]@[b].end as int == model::shell_at(
                    s,
                    key.0,
                    key.1,
                    b,
                ).1
            }
    }

    /// Number of spatial axes.
    pub fn rank(&self) -> (r: usize)
        ensures
            r as int == model::rank_of(self.spec),
    {
        self.spec.input_shape.len()
    }

    /// Direct per-axis test: no kernel tap of this output coordinate can
    /// reach outside the input.
    pub fn is_valid(&self, coords: &[usize]) -> (r: bool)
        requires
            self.wf(),
            coords@.len() == model::rank_of(self.spec),
            forall|a: int|
                0 <= a < coords@.len() ==> (coords@[a] as int) < model::out_d(self.spec, a),
        ensures
            r == model::valid_c(self.spec, coords@),
    {
        let rank = self.spec.input_shape.len();
        let mut a: usize = 0;
        while a < rank
            invariant
                0 <= a <= rank,
                rank == model::rank_of(self.spec),
                self.wf(),
                coords@.len() == rank,
                forall|b: int|
                    0 <= b < rank ==> (coords@[b] as int) < model::out_d(self.spec, b),
                forall|b: int|
                    0 <= b < a as int ==> coords@[b] * model::st_d(self.spec, b)
                        + #[trigger] model::fmin(self.spec, b) >= 0 && coords@[b] * model::st_d(
                        self.spec,
                        b,
                    ) + model::fmax(self.spec, b) < model::in_d(self.spec, b),
            decreases rank - a,
        {
            proof {
                model::lemma_pad_bounds(self.spec, a as int);
                model::lemma_axis_half(self.spec, a as int);
                vstd::arithmetic::mul::lemma_mul_inequality(
                    1,
                    model::st_d(self.spec, a as int),
                    coords@[a as int] as int,
                );
                vstd::arithmetic::mul::lemma_mul_is_commutative(
                    model::st_d(self.spec, a as int),
                    coords@[a as int] as int,
                );
                vstd::arithmetic::mul::lemma_mul_nonnegative(
                    coords@[a as int] as int,
                    model::st_d(self.spec, a as int),
                );
                assert(0 <= coords@[a as int] * model::st_d(self.spec, a as int)
                    <= model::axis_half(self.spec, a as int));
            }
            let pos = coords[a] as isize * self.spec.strides[a] as isize;
            let mm = self.data_field_min_max[a];
            proof {
                assert(pos as int == coords@[a as int] * model::st_d(self.spec, a as int));
                assert(mm.0 as int == model::fmin(self.spec, a as int));
                assert(mm.1 as int == model::fmax(self.spec, a as int));
                assert(2 * model::axis_half(self.spec, a as int) <= isize::MAX);
            }
            if pos + mm.0 < 0 || pos + mm.1 >= self.spec.input_shape[a] as isize {
                return false;
            }
            a += 1;
        }
        true
    }

    /// Flat buffer address of the window corner of `coords`.
    pub(crate) fn center_of(&self, coords: &[usize]) -> (r: isize)
        requires
            self.wf(),
            model::in_out_space(self.spec, coords@),
        ensures
            r as int == model::cent(self.spec, coords@),
    {
        let rank = self.spec.input_shape.len();
        let mut center: isize = 0;
        let mut a: usize = 0;
        while a < rank
            invariant
                0 <= a <= rank,
                rank == model::rank_of(self.spec),
                self.wf(),
                model::in_out_space(self.spec, coords@),
                coords@.len() == rank,
                center as int == model::cent_from(self.spec, coords@, 0) - model::cent_from(
                    self.spec,
                    coords@,
                    a as int,
                ),
            decreases rank - a,
        {
            proof {
                model::lemma_cent_prefix(self.spec, coords@, a as int);
                model::lemma_cent_prefix(self.spec, coords@, a as int + 1);
                model::lemma_half_sum_nonneg(self.spec, 0);
                model::lemma_half_sum_nonneg(self.spec, a as int + 1);
                model::lemma_pad_bounds(self.spec, a as int);
                model::lemma_axis_half(self.spec, a as int);
                model::lemma_op_stride_bound(self.spec, a as int);
                model::lemma_lay_bound(self.spec, a as int);
                model::lemma_term_bound(
                    coords@[a as int] * model::st_d(self.spec, a as int),
                    model::axis_half(self.spec, a as int),
                    model::lay(self.spec, a as int),
                );
                vstd::arithmetic::mul::lemma_mul_inequality(
                    1,
                    model::st_d(self.spec, a as int),
                    coords@[a as int] as int,
                );
                vstd::arithmetic::mul::lemma_mul_is_commutative(
                    model::st_d(self.spec, a as int),
                    coords@[a as int] as int,
                );
                vstd::arithmetic::mul::lemma_mul_nonnegative(
                    coords@[a as int] as int,
                    model::st_d(self.spec, a as int),
                );
                vstd::arithmetic::mul::lemma_mul_is_associative(
                    coords@[a as int] as int,
                    model::st_d(self.spec, a as int),
                    model::lay(self.spec, a as int),
                );
            }
            let term = coords[a] as isize * self.op_strides_times_input_storage_strides[a];
            center = center + term;
            a += 1;
        }
        center
    }

    /// Random-access form of the fast iterator: the flat input offset of
    /// one kernel tap at one output coordinate.
    pub fn global_offset_for(&self, coords: &[usize], patch_index: usize) -> (r: usize)
        requires
            self.wf(),
            model::in_out_space(self.spec, coords@),
            (patch_index as int) < model::taps(self.spec),
            model::tap_ok(self.spec, coords@, patch_index as int),
        ensures
            r as int == model::flat_off(self.spec, coords@, patch_index as int),
            model::item_at(self.spec, coords@, patch_index as int) == Some(r as int),
    {
        let center = self.center_of(coords);
        proof {
            model::lemma_cent_bound(self.spec, coords@, 0);
            model::lemma_sldf_bound(self.spec, patch_index as int, 0);
            model::lemma_half_sum_nonneg(self.spec, 0);
            model::lemma_flat_decompose(self.spec, coords@, patch_index as int, 0);
            model::lemma_pos_sum_bounds(self.spec, coords@, patch_index as int, 0);
        }
        let off = center + self.standard_layout_data_field[patch_index];
        off as usize
    }
}

} // verus!
