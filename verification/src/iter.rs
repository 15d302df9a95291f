//! Per-output-coordinate position iterators: the unchecked fast path for
//! coordinates inside the valid zone, and the range-checked safe path.
use vstd::prelude::*;
use crate::model;
use crate::patch::Patch;

verus! {

/// Unchecked enumeration of the flat input offsets of one output
/// coordinate: every tap of the window is known to land inside the input.
#[derive(Debug)]
pub struct FastPatchIterator<'p> {
    pub patch: &'p Patch,
    pub center: isize,
    pub item: usize,
}

impl<'p> FastPatchIterator<'p> {
    /// The iterator belongs to a well-formed patch, its cursor is within
    /// range and its center is a bounded corner address.
    pub open spec fn wf(&self) -> bool {
        &&& self.patch.wf()
        &&& self.item as int <= model::taps(self.patch.spec)
        &&& 0 <= self.center as int <= model::half_sum(self.patch.spec, 0)
    }

    /// Next tap: always an offset, never a missing element.
    pub fn next(&mut self) -> (r: Option<Option<isize>>)
        requires
            old(self).wf(),
        ensures
            final(self).wf(),
            final(self).patch == old(self).patch,
            final(self).center == old(self).center,
            old(self).item as int == model::taps(old(self).patch.spec) ==> r == None::<Option<isize>> && final(self).item == old(self).item,
            (old(self).item as int) < model::taps(old(self).patch.spec) ==> final(self).item
                == old(self).item + 1 && (r matches Some(q) && q matches Some(v) && v as int
                == old(self).center as int + model::sldf(
                old(self).patch.spec,
                old(self).item as int,
            )),
    {
        if self.item == self.patch.standard_layout_data_field.len() {
            return None;
        }
        proof {
            model::lemma_sldf_bound(self.patch.spec, self.item as int, 0);
            model::lemma_half_sum_nonneg(self.patch.spec, 0);
            assert(self.patch.standard_layout_data_field@[self.item as int] as int == model::sldf(
                self.patch.spec,
                self.item as int,
            ));
            assert(2 * model::half_sum(self.patch.spec, 0) <= isize::MAX);
        }
        let position = self.center + self.patch.standard_layout_data_field[self.item];
        self.item += 1;
        Some(Some(position))
    }
}

/// Range-checked enumeration of the flat input offsets of one output
/// coordinate: each tap is tested per axis and yields nothing when it falls
/// into padding.
#[derive(Debug)]
pub struct SafePatchIterator<'p> {
    pub patch: &'p Patch,
    pub item: usize,
    pub input_patch_center: Vec<usize>,
    pub center: isize,
}

impl<'p> SafePatchIterator<'p> {
    /// Well-formed cursor over a well-formed patch, with a bounded window
    /// corner.
    pub open spec fn wf(&self) -> bool {
        &&& self.patch.wf()
        &&& self.item as int <= model::taps(self.patch.spec)
        &&& self.input_patch_center@.len() == model::rank_of(self.patch.spec)
        &&& forall|a: int|
            0 <= a < model::rank_of(self.patch.spec) ==> (
            #[trigger] self.input_patch_center@[a]) as int <= model::axis_half(
                self.patch.spec,
                a,
            )
        &&& 0 <= self.center as int <= model::half_sum(self.patch.spec, 0)
    }

    /// Next tap: the flat offset when the tap is inside the input, nothing
    /// otherwise.
    pub fn next(&mut self) -> (r: Option<Option<isize>>)
        requires
            old(self).wf(),
        ensures
            final(self).wf(),
            final(self).patch == old(self).patch,
            final(self).center == old(self).center,
            final(self).input_patch_center == old(self).input_patch_center,
            old(self).item as int == model::taps(old(self).patch.spec) ==> r == None::<Option<isize>> && final(self).item == old(self).item,
            (old(self).item as int) < model::taps(old(self).patch.spec) ==> final(self).item
                == old(self).item + 1 && (r matches Some(q) && (if model::pos_tap_ok(
                old(self).patch.spec,
                old(self).input_patch_center@,
                old(self).item as int,
            ) {
                q matches Some(v) && v as int == old(self).center as int + model::sldf(
                    old(self).patch.spec,
                    old(self).item as int,
                )
            } else {
                q == None::<isize>
            })),
    {
        if self.item == self.patch.standard_layout_data_field.len() {
            return None;
        }
        let s = &self.patch.spec;
        let rank = s.input_shape.len();
        let t = self.item;
        let mut a: usize = 0;
        while a < rank
            invariant
                0 <= a <= rank,
                rank == model::rank_of(self.patch.spec),
                self.wf(),
                0 <= t < model::taps(self.patch.spec),
                t == self.item,
                self.patch == old(self).patch,
                self.center == old(self).center,
                self.input_patch_center == old(self).input_patch_center,
                t == old(self).item,
                s == &self.patch.spec,
                forall|b: int|
                    0 <= b < a as int ==> 0 <= self.input_patch_center@[b]
                        + #[trigger] model::field_off(self.patch.spec, t as int, b) < model::in_d(
                        self.patch.spec,
                        b,
                    ),
            decreases rank - a,
        {
            proof {
                model::lemma_tap_index_in(self.patch.spec, t as int, a as int);
                model::lemma_taps_max(self.patch.spec);
                vstd::arithmetic::mul::lemma_mul_inequality(
                    rank as int,
                    rank as int + 1,
                    model::taps(self.patch.spec),
                );
                vstd::arithmetic::mul::lemma_mul_is_commutative(
                    rank as int,
                    model::taps(self.patch.spec),
                );
                vstd::arithmetic::mul::lemma_mul_is_commutative(
                    rank as int + 1,
                    model::taps(self.patch.spec),
                );
                model::lemma_field_off_bounds(self.patch.spec, t as int, a as int);
                model::lemma_pad_bounds(self.patch.spec, a as int);
                model::lemma_axis_half(self.patch.spec, a as int);
                assert(2 * model::axis_half(self.patch.spec, a as int) <= isize::MAX);
                assert(self.patch.data_field@[t as int * rank as int + a as int] as int
                    == model::field_off(self.patch.spec, t as int, a as int));
            }
            let off = self.patch.data_field[t * rank + a];
            let pos = self.input_patch_center[a] as isize + off;
            if pos < 0 || pos >= s.input_shape[a] as isize {
                self.item += 1;
                proof {
                    assert(pos as int == self.input_patch_center@[a as int] + model::field_off(
                        self.patch.spec,
                        t as int,
                        a as int,
                    ));
                    assert(!(0 <= self.input_patch_center@[a as int] + model::field_off(
                        self.patch.spec,
                        t as int,
                        a as int,
                    ) < model::in_d(self.patch.spec, a as int)));
                    assert(!model::pos_tap_ok(
                        self.patch.spec,
                        self.input_patch_center@,
                        t as int,
                    ));
                }
                return Some(None);
            }
            a += 1;
        }
        proof {
            model::lemma_sldf_bound(self.patch.spec, t as int, 0);
            model::lemma_half_sum_nonneg(self.patch.spec, 0);
            assert(self.patch.standard_layout_data_field@[t as int] as int == model::sldf(
                self.patch.spec,
                t as int,
            ));
            assert(2 * model::half_sum(self.patch.spec, 0) <= isize::MAX);
        }
        let position = self.center + self.patch.standard_layout_data_field[t];
        self.item += 1;
        Some(Some(position))
    }
}

/// Position iterator over one fixed output coordinate: the variant is
/// chosen once, from the validity classification of the coordinate.
#[derive(Debug)]
pub enum PatchIterator<'p> {
    Fast(FastPatchIterator<'p>),
    Safe(SafePatchIterator<'p>),
}

impl<'p> PatchIterator<'p> {
    /// Either variant is well formed.
    pub open spec fn wf(&self) -> bool {
        match self {
            PatchIterator::Fast(it) => it.wf(),
            PatchIterator::Safe(it) => it.wf(),
        }
    }

    /// The patch the iterator reads.
    pub open spec fn patch_of(&self) -> Patch {
        match self {
            PatchIterator::Fast(it) => *it.patch,
            PatchIterator::Safe(it) => *it.patch,
        }
    }

    /// Position of the cursor: how many taps were already yielded.
    pub open spec fn pos(&self) -> int {
        match self {
            PatchIterator::Fast(it) => it.item as int,
            PatchIterator::Safe(it) => it.item as int,
        }
    }

    /// What the iterator will yield for tap `t`.
    pub open spec fn item_value(&self, t: int) -> Option<int> {
        match self {
            PatchIterator::Fast(it) => Some(it.center as int + model::sldf(it.patch.spec, t)),
            PatchIterator::Safe(it) => if model::pos_tap_ok(
                it.patch.spec,
                it.input_patch_center@,
                t,
            ) {
                Some(it.center as int + model::sldf(it.patch.spec, t))
            } else {
                None
            },
        }
    }

    /// An executable option holds the same tap result as a model option.
    pub open spec fn yields(r: Option<isize>, v: Option<int>) -> bool {
        match (r, v) {
            (Option::None, Option::None) => true,
            (Option::Some(x), Option::Some(y)) => x as int == y,
            _ => false,
        }
    }

    /// Next tap of whichever variant was chosen.
    pub fn next(&mut self) -> (r: Option<Option<isize>>)
        requires
            old(self).wf(),
        ensures
            final(self).wf(),
            final(self).patch_of() == old(self).patch_of(),
            forall|t: int| #[trigger] final(self).item_value(t) == old(self).item_value(t),
            old(self).pos() == model::taps(old(self).patch_of().spec) ==> r == None::<Option<isize>> && final(self).pos() == old(self).pos(),
            old(self).pos() < model::taps(old(self).patch_of().spec) ==> final(self).pos() == old(
                self,
            ).pos() + 1 && (r matches Some(q) && Self::yields(
                q,
                old(self).item_value(old(self).pos()),
            )),
    {
        match self {
            PatchIterator::Fast(it) => it.next(),
            PatchIterator::Safe(it) => it.next(),
        }
    }
}

impl Patch {
    /// Position iterator for one output coordinate, with the validity
    /// decision made internally.
    pub fn at<'p>(&'p self, coords: &[usize]) -> (r: PatchIterator<'p>)
        requires
            self.wf(),
            model::in_out_space(self.spec, coords@),
        ensures
            r.wf(),
            r.patch_of() == *self,
            r.pos() == 0,
            forall|t: int|
                0 <= t < model::taps(self.spec) ==> #[trigger] r.item_value(t) == model::item_at(
                    self.spec,
                    coords@,
                    t,
                ),
    {
        self.at_hint(coords, None)
    }

    /// Position iterator for one output coordinate, trusting the caller's
    /// validity hint when one is given. A `true` hint is only sound for a
    /// coordinate whose window never leaves the input.
    pub fn at_hint<'p>(&'p self, coords: &[usize], hint: Option<bool>) -> (r: PatchIterator<'p>)
        requires
            self.wf(),
            model::in_out_space(self.spec, coords@),
            hint == Some(true) ==> model::valid_c(self.spec, coords@),
        ensures
            r.wf(),
            r.patch_of() == *self,
            r.pos() == 0,
            forall|t: int|
                0 <= t < model::taps(self.spec) ==> #[trigger] r.item_value(t) == model::item_at(
                    self.spec,
                    coords@,
                    t,
                ),
    {
        let center = self.center_of(coords);
        proof {
            model::lemma_cent_bound(self.spec, coords@, 0);
        }
        let valid = match hint {
            Some(v) => v,
            None => !self.padded || self.is_valid(coords),
        };
        if valid {
            proof {
                if !model::padded_any(self.spec) {
                    model::lemma_unpadded_valid(self.spec, coords@);
                }
                assert(model::valid_c(self.spec, coords@));
                assert forall|t: int| 0 <= t < model::taps(self.spec) implies model::item_at(
                    self.spec,
                    coords@,
                    t,
                ) == Some(center as int + model::sldf(self.spec, t)) by {
                    model::lemma_valid_tap_ok(self.spec, coords@, t);
                }
            }
            PatchIterator::Fast(FastPatchIterator { patch: self, center, item: 0 })
        } else {
            let rank = self.spec.input_shape.len();
            let mut ipc: Vec<usize> = Vec::new();
            let mut a: usize = 0;
            while a < rank
                invariant
                    0 <= a <= rank,
                    rank == model::rank_of(self.spec),
                    self.wf(),
                    model::in_out_space(self.spec, coords@),
                    ipc@.len() == a,
                    forall|b: int|
                        0 <= b < a as int ==> (#[trigger] ipc@[b]) as int == coords@[b]
                            * model::st_d(self.spec, b),
                decreases rank - a,
            {
                proof {
                    model::lemma_pad_bounds(self.spec, a as int);
                    model::lemma_axis_half(self.spec, a as int);
                    assert(0 <= coords@[a as int] * model::st_d(self.spec, a as int)
                        <= model::axis_half(self.spec, a as int));
                    assert(2 * model::axis_half(self.spec, a as int) <= isize::MAX);
                }
                ipc.push(coords[a] * self.spec.strides[a]);
                a += 1;
            }
            proof {
                assert forall|t: int| 0 <= t < model::taps(self.spec) implies (
                if model::pos_tap_ok(self.spec, ipc@, t) {
                    Some(center as int + model::sldf(self.spec, t))
                } else {
                    None
                }) == model::item_at(self.spec, coords@, t) by {
                    assert forall|b: int| 0 <= b < model::rank_of(self.spec) implies ipc@[b]
                        + #[trigger] model::field_off(self.spec, t, b) == coords@[b] * model::st_d(
                        self.spec,
                        b,
                    ) + model::field_off(self.spec, t, b) by {}
                    if model::pos_tap_ok(self.spec, ipc@, t) {
                        assert(model::tap_ok(self.spec, coords@, t));
                    }
                    if model::tap_ok(self.spec, coords@, t) {
                        assert(model::pos_tap_ok(self.spec, ipc@, t));
                    }
                }
                assert forall|a2: int| 0 <= a2 < model::rank_of(self.spec) implies (
                #[trigger] ipc@[a2]) as int <= model::axis_half(self.spec, a2) by {
                    model::lemma_pad_bounds(self.spec, a2);
                    model::lemma_axis_half(self.spec, a2);
                    assert(0 <= coords@[a2] * model::st_d(self.spec, a2) <= model::axis_half(
                        self.spec,
                        a2,
                    ));
                }
            }
            PatchIterator::Safe(
                SafePatchIterator { patch: self, item: 0, input_patch_center: ipc, center },
            )
        }
    }
}

} // verus!
