//! Per-axis window geometry: resolving a symbolic padding policy into
//! `(output extent, pad before, pad after)` triples.
use vstd::prelude::*;

verus! {

/// Symbolic padding policy for a sliding-window operation.
#[derive(Debug, Clone, PartialEq)]
pub enum PaddingSpec {
    /// Explicit per-axis amounts: before and after.
    Explicit(Vec<usize>, Vec<usize>),
    /// No padding; the output shrinks.
    Valid,
    /// Output size preserved; any extra (odd) padding is placed after.
    SameUpper,
    /// Output size preserved; any extra (odd) padding is placed before.
    SameLower,
}

/// Error reported when a window specification cannot be resolved.
#[derive(Debug, Clone, Copy, PartialEq, Eq, Structural)]
pub enum GeometryError {
    /// The per-axis sequences of the specification do not share one rank.
    RankMismatch,
    /// The dilated kernel does not fit in the padded input on some axis.
    WindowTooLarge,
}

/// Geometry of one axis after padding resolution.
#[derive(Debug, Clone, Copy, PartialEq, Eq, Structural)]
pub struct ComputedPaddedDim {
    pub pad_before: usize,
    pub pad_after: usize,
    pub output: usize,
}

/// Extent of the dilated kernel along one axis.
pub open spec fn kernel_field(k: int, d: int) -> int {
    (k - 1) * d + 1
}

/// Output extent under explicit padding: `(i + pb + pa - field) / st + 1`.
pub open spec fn explicit_output(i: int, k: int, d: int, st: int, pb: int, pa: int) -> int {
    (i + pb + pa - kernel_field(k, d)) / st + 1
}

/// An axis resolves under explicit padding iff the dilated kernel fits.
pub open spec fn explicit_ok(i: int, k: int, d: int, pb: int, pa: int) -> bool {
    i + pb + pa >= kernel_field(k, d)
}

/// Output extent under a size-preserving policy: `ceil(i / st)`.
pub open spec fn same_output(i: int, st: int) -> int {
    if i == 0 {
        0
    } else {
        (i - 1) / st + 1
    }
}

/// Total padding a size-preserving policy needs on one axis.
pub open spec fn same_total_pad(i: int, k: int, d: int, st: int) -> int {
    let out = same_output(i, st);
    if out == 0 {
        0
    } else {
        let reach = (out - 1) * st + kernel_field(k, d);
        if reach > i {
            reach - i
        } else {
            0
        }
    }
}

/// Resolved pad-before amount of axis `a`.
pub open spec fn axis_pb(p: PaddingSpec, a: int, i: int, k: int, d: int, st: int) -> int {
    match p {
        PaddingSpec::Explicit(b, _) => b@[a] as int,
        PaddingSpec::Valid => 0,
        PaddingSpec::SameUpper => same_total_pad(i, k, d, st) / 2,
        PaddingSpec::SameLower => same_total_pad(i, k, d, st) - same_total_pad(i, k, d, st) / 2,
    }
}

/// Resolved pad-after amount of axis `a`.
pub open spec fn axis_pa(p: PaddingSpec, a: int, i: int, k: int, d: int, st: int) -> int {
    match p {
        PaddingSpec::Explicit(_, af) => af@[a] as int,
        PaddingSpec::Valid => 0,
        PaddingSpec::SameUpper => same_total_pad(i, k, d, st) - same_total_pad(i, k, d, st) / 2,
        PaddingSpec::SameLower => same_total_pad(i, k, d, st) / 2,
    }
}

/// Resolved output extent of axis `a`.
pub open spec fn axis_out(p: PaddingSpec, a: int, i: int, k: int, d: int, st: int) -> int {
    match p {
        PaddingSpec::Explicit(b, af) => explicit_output(i, k, d, st, b@[a] as int, af@[a] as int),
        PaddingSpec::Valid => explicit_output(i, k, d, st, 0, 0),
        PaddingSpec::SameUpper => same_output(i, st),
        PaddingSpec::SameLower => same_output(i, st),
    }
}

/// Whether axis `a` resolves at all under policy `p`.
pub open spec fn axis_ok(p: PaddingSpec, a: int, i: int, k: int, d: int) -> bool {
    match p {
        PaddingSpec::Explicit(b, af) => explicit_ok(i, k, d, b@[a] as int, af@[a] as int),
        PaddingSpec::Valid => explicit_ok(i, k, d, 0, 0),
        PaddingSpec::SameUpper => true,
        PaddingSpec::SameLower => true,
    }
}

/// For explicit policies, the per-axis pad sequences must share the rank.
pub open spec fn policy_rank_ok(p: PaddingSpec, rank: int) -> bool {
    match p {
        PaddingSpec::Explicit(b, af) => b@.len() == rank && af@.len() == rank,
        _ => true,
    }
}

/// Every axis of the window resolves: ranks agree and the kernel fits.
pub open spec fn compute_ok(
    p: PaddingSpec,
    input: Seq<usize>,
    kernel: Seq<usize>,
    dilations: Seq<usize>,
    strides: Seq<usize>,
) -> bool {
    &&& kernel.len() == input.len()
    &&& dilations.len() == input.len()
    &&& strides.len() == input.len()
    &&& policy_rank_ok(p, input.len() as int)
    &&& forall|a: int|
        0 <= a < input.len() ==> axis_ok(
            p,
            a,
            input[a] as int,
            kernel[a] as int,
            dilations[a] as int,
        )
}

/// Numeric room one axis needs so that resolution arithmetic stays in range.
pub open spec fn axis_arith_ok(p: PaddingSpec, a: int, i: int, k: int, d: int, st: int) -> bool {
    i + axis_pb_bound(p, a, k, d) + axis_pa_bound(p, a, k, d) + (k - 1) * d + st + 2 <= usize::MAX
}

/// Upper bound on the resolved pad-before, available before resolution.
pub open spec fn axis_pb_bound(p: PaddingSpec, a: int, k: int, d: int) -> int {
    match p {
        PaddingSpec::Explicit(b, _) => b@[a] as int,
        PaddingSpec::Valid => 0,
        _ => (k - 1) * d,
    }
}

/// Upper bound on the resolved pad-after, available before resolution.
pub open spec fn axis_pa_bound(p: PaddingSpec, a: int, k: int, d: int) -> int {
    match p {
        PaddingSpec::Explicit(_, af) => af@[a] as int,
        PaddingSpec::Valid => 0,
        _ => (k - 1) * d,
    }
}

/// The per-axis sequences all share `input`'s rank.
pub open spec fn ranks_ok(
    p: PaddingSpec,
    input: Seq<usize>,
    kernel: Seq<usize>,
    dilations: Seq<usize>,
    strides: Seq<usize>,
) -> bool {
    &&& kernel.len() == input.len()
    &&& dilations.len() == input.len()
    &&& strides.len() == input.len()
    &&& policy_rank_ok(p, input.len() as int)
}

impl PaddingSpec {
    /// Resolves the policy over every axis into explicit geometry: per axis
    /// the output extent and the padding placed before and after the input.
    pub fn compute(
        &self,
        input: &[usize],
        kernel: &[usize],
        dilations: &[usize],
        strides: &[usize],
    ) -> (r: Result<Vec<ComputedPaddedDim>, GeometryError>)
        requires
            forall|a: int| 0 <= a < kernel@.len() ==> kernel@[a] >= 1,
            forall|a: int| 0 <= a < dilations@.len() ==> dilations@[a] >= 1,
            forall|a: int| 0 <= a < strides@.len() ==> strides@[a] >= 1,
            ranks_ok(*self, input@, kernel@, dilations@, strides@) ==> forall|a: int|
                0 <= a < input@.len() ==> #[trigger] axis_arith_ok(
                    *self,
                    a,
                    input@[a] as int,
                    kernel@[a] as int,
                    dilations@[a] as int,
                    strides@[a] as int,
                ),
        ensures
            r.is_ok() <==> compute_ok(*self, input@, kernel@, dilations@, strides@),
            r matches Ok(v) ==> v@.len() == input@.len() && forall|a: int|
                0 <= a < input@.len() ==> {
                    let i = input@[a] as int;
                    let k = kernel@[a] as int;
                    let d = dilations@[a] as int;
                    let st = strides@[a] as int;
                    &&& (#[trigger] v@[a]).output as int == axis_out(*self, a, i, k, d, st)
                    &&& v@[a].pad_before as int == axis_pb(*self, a, i, k, d, st)
                    &&& v@[a].pad_after as int == axis_pa(*self, a, i, k, d, st)
                },
            r == Err::<Vec<ComputedPaddedDim>, GeometryError>(GeometryError::RankMismatch)
                <==> !ranks_ok(*self, input@, kernel@, dilations@, strides@),
            r == Err::<Vec<ComputedPaddedDim>, GeometryError>(GeometryError::WindowTooLarge)
                <==> ranks_ok(*self, input@, kernel@, dilations@, strides@) && !compute_ok(
                *self,
                input@,
                kernel@,
                dilations@,
                strides@,
            ),
    {
        let rank = input.len();
        let explicit_ranks = match self {
            PaddingSpec::Explicit(bv, av) => bv.len() == rank && av.len() == rank,
            _ => true,
        };
        if !(kernel.len() == rank && dilations.len() == rank && strides.len() == rank
            && explicit_ranks) {
            return Err(GeometryError::RankMismatch);
        }
        let mut dims: Vec<ComputedPaddedDim> = Vec::new();
        let mut ax: usize = 0;
        while ax < rank
            invariant
                0 <= ax <= rank,
                rank == input@.len(),
                ranks_ok(*self, input@, kernel@, dilations@, strides@),
                forall|a: int| 0 <= a < kernel@.len() ==> kernel@[a] >= 1,
                forall|a: int| 0 <= a < dilations@.len() ==> dilations@[a] >= 1,
                forall|a: int| 0 <= a < strides@.len() ==> strides@[a] >= 1,
                forall|a: int|
                    0 <= a < input@.len() ==> #[trigger] axis_arith_ok(
                        *self,
                        a,
                        input@[a] as int,
                        kernel@[a] as int,
                        dilations@[a] as int,
                        strides@[a] as int,
                    ),
                dims@.len() == ax,
                forall|a: int|
                    0 <= a < ax as int ==> #[trigger] axis_ok(
                        *self,
                        a,
                        input@[a] as int,
                        kernel@[a] as int,
                        dilations@[a] as int,
                    ),
                forall|a: int|
                    0 <= a < ax as int ==> {
                        let i = input@[a] as int;
                        let k = kernel@[a] as int;
                        let d = dilations@[a] as int;
                        let st = strides@[a] as int;
                        &&& (#[trigger] dims@[a]).output as int == axis_out(*self, a, i, k, d, st)
                        &&& dims@[a].pad_before as int == axis_pb(*self, a, i, k, d, st)
                        &&& dims@[a].pad_after as int == axis_pa(*self, a, i, k, d, st)
                    },
            decreases rank - ax,
        {
            let i = input[ax];
            let k = kernel[ax];
            let d = dilations[ax];
            let st = strides[ax];
            proof {
                assert(axis_arith_ok(*self, ax as int, i as int, k as int, d as int, st as int));
            }
            let field = (k - 1) * d + 1;
            let dim = match self {
                PaddingSpec::Explicit(bv, av) => {
                    let pb = bv[ax];
                    let pa = av[ax];
                    if i + pb + pa < field {
                        return Err(GeometryError::WindowTooLarge);
                    }
                    ComputedPaddedDim {
                        pad_before: pb,
                        pad_after: pa,
                        output: (i + pb + pa - field) / st + 1,
                    }
                },
                PaddingSpec::Valid => {
                    if i < field {
                        return Err(GeometryError::WindowTooLarge);
                    }
                    ComputedPaddedDim { pad_before: 0, pad_after: 0, output: (i - field) / st + 1 }
                },
                PaddingSpec::SameUpper | PaddingSpec::SameLower => {
                    let upper = matches!(self, PaddingSpec::SameUpper);
                    if i == 0 {
                        ComputedPaddedDim { pad_before: 0, pad_after: 0, output: 0 }
                    } else {
                        let out = (i - 1) / st + 1;
                        proof {
                            crate::arith::lemma_div_mul_le(i - 1, st as int);
                        }
                        let reach = (out - 1) * st + field;
                        let total = if reach > i {
                            reach - i
                        } else {
                            0
                        };
                        let halfp = total / 2;
                        let rest = total - halfp;
                        proof {
                            vstd::arithmetic::div_mod::lemma_div_pos_is_pos(total as int, 2);
                            vstd::arithmetic::div_mod::lemma_div_nonincreasing(total as int, 2);
                        }
                        if upper {
                            ComputedPaddedDim { pad_before: halfp, pad_after: rest, output: out }
                        } else {
                            ComputedPaddedDim { pad_before: rest, pad_after: halfp, output: out }
                        }
                    }
                },
            };
            dims.push(dim);
            ax += 1;
        }
        Ok(dims)
    }
}

} // verus!
