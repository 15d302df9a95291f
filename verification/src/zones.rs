//! Zone visitors: enumeration of the output coordinates of one
//! axis-aligned zone in row-major order, and of the valid and invalid
//! zones of a patch.
use vstd::prelude::*;
use core::ops::Range;
use crate::model;
use crate::patch::Patch;

verus! {

/// Extent of axis `a` of a zone.
pub open spec fn zext(z: Seq<Range<usize>>, a: int) -> int {
    z[a].end - z[a].start
}

/// Number of coordinates of the sub-zone over axes `a..`.
pub open spec fn zsuf(z: Seq<Range<usize>>, a: int) -> int
    decreases z.len() - a + 1,
{
    if a >= z.len() {
        1
    } else {
        zext(z, a) * zsuf(z, a + 1)
    }
}

/// Number of coordinates of the whole zone.
pub open spec fn zcount(z: Seq<Range<usize>>) -> int {
    zsuf(z, 0)
}

/// Digit of row-major index `i` on axis `a`.
pub open spec fn zdigit(z: Seq<Range<usize>>, i: int, a: int) -> int {
    (i / zsuf(z, a + 1)) % zext(z, a)
}

/// Coordinate on axis `a` of the `i`-th zone element in row-major order.
pub open spec fn zcoord(z: Seq<Range<usize>>, i: int, a: int) -> int {
    z[a].start + zdigit(z, i, a)
}

/// Each range is ordered.
pub open spec fn zone_ordered(z: Seq<Range<usize>>) -> bool {
    forall|a: int| 0 <= a < z.len() ==> (#[trigger] z[a]).start <= z[a].end
}

/// The zone lies inside the output index space of `s`.
pub open spec fn zone_in_output(s: crate::patch::PatchSpec, z: Seq<Range<usize>>) -> bool {
    z.len() == model::rank_of(s) && forall|a: int|
        0 <= a < z.len() ==> (#[trigger] z[a]).start <= z[a].end && z[a].end as int
            <= model::out_d(s, a)
}

/// Sub-zone counts are non-negative, and bounded by the output suffix
/// product when the zone lies inside the output space.
proof fn lemma_zsuf_bounds(s: crate::patch::PatchSpec, z: Seq<Range<usize>>, a: int)
    requires
        model::resolve_ok(s),
        zone_in_output(s, z),
        0 <= a <= z.len(),
    ensures
        0 <= zsuf(z, a) <= model::out_prod(s, a),
    decreases z.len() - a + 1,
{
    model::lemma_out_prod_bounds(s, a);
    if a < z.len() {
        lemma_zsuf_bounds(s, z, a + 1);
        model::lemma_out_prod_bounds(s, a + 1);
        model::lemma_pad_bounds(s, a);
        vstd::arithmetic::mul::lemma_mul_nonnegative(zext(z, a), zsuf(z, a + 1));
        vstd::arithmetic::mul::lemma_mul_upper_bound(
            zext(z, a),
            model::out_d(s, a),
            zsuf(z, a + 1),
            model::out_prod(s, a + 1),
        );
    }
}

/// A non-empty zone has only positive extents and sub-zone counts.
proof fn lemma_zsuf_factors(z: Seq<Range<usize>>, a: int)
    requires
        zone_ordered(z),
        0 <= a <= z.len(),
        zsuf(z, 0) > 0,
    ensures
        zsuf(z, a) > 0,
        forall|b: int| 0 <= b < z.len() ==> #[trigger] zext(z, b) > 0,
    decreases z.len(),
{
    assert forall|b: int| 0 <= b < z.len() implies #[trigger] zext(z, b) > 0 by {
        if zext(z, b) <= 0 {
            lemma_zero_factor(z, 0, b);
        }
    }
    lemma_pos_prod(z, a);
}

/// A zero extent anywhere makes the whole count zero.
proof fn lemma_zero_factor(z: Seq<Range<usize>>, a: int, b: int)
    requires
        zone_ordered(z),
        0 <= a <= b < z.len(),
        zext(z, b) == 0,
    ensures
        zsuf(z, a) == 0,
    decreases b - a,
{
    if a == b {
        vstd::arithmetic::mul::lemma_mul_by_zero_is_zero(zsuf(z, a + 1));
    } else {
        lemma_zero_factor(z, a + 1, b);
        vstd::arithmetic::mul::lemma_mul_by_zero_is_zero(zext(z, a));
    }
}

/// All positive extents give a positive count.
proof fn lemma_pos_prod(z: Seq<Range<usize>>, a: int)
    requires
        0 <= a,
        forall|b: int| 0 <= b < z.len() ==> #[trigger] zext(z, b) > 0,
    ensures
        zsuf(z, a) > 0,
    decreases z.len() - a + 1,
{
    if a < z.len() {
        lemma_pos_prod(z, a + 1);
        vstd::arithmetic::mul::lemma_mul_strictly_positive(zext(z, a), zsuf(z, a + 1));
    }
}

impl Patch {
    /// Coordinates of a one-axis zone, in order, each tagged with the
    /// hint.
    pub fn visit_zone_1(&self, zone: &[Range<usize>], valid_hint: Option<bool>) -> (r: Vec<
        (usize, Option<bool>),
    >)
        requires
            zone@.len() >= 1,
            zone@[0].start <= zone@[0].end,
        ensures
            r@.len() == zext(zone@, 0),
            forall|i: int|
                0 <= i < r@.len() ==> (#[trigger] r@[i]).0 == zone@[0].start + i && r@[i].1
                    == valid_hint,
    {
        let mut r: Vec<(usize, Option<bool>)> = Vec::new();
        let start = zone[0].start;
        let end = zone[0].end;
        let mut i: usize = 0;
        while i < end - start
            invariant
                0 <= i <= end - start,
                start == zone@[0].start && end == zone@[0].end,
                start <= end,
                r@.len() == i,
                forall|k: int|
                    0 <= k < i as int ==> (#[trigger] r@[k]).0 == zone@[0].start + k && r@[k].1
                        == valid_hint,
            decreases end - start - i,
        {
            r.push((start + i, valid_hint));
            i += 1;
        }
        r
    }

    /// Coordinates of a two-axis zone, row-major, each tagged with the
    /// hint.
    pub fn visit_zone_2(&self, zone: &[Range<usize>], valid_hint: Option<bool>) -> (r: Vec<
        ((usize, usize), Option<bool>),
    >)
        requires
            zone@.len() == 2,
            zone_ordered(zone@),
        ensures
            r@.len() == zcount(zone@),
            forall|i: int|
                0 <= i < r@.len() ==> (#[trigger] r@[i]).0.0 as int == zcoord(zone@, i, 0)
                    && r@[i].0.1 as int == zcoord(zone@, i, 1) && r@[i].1 == valid_hint,
    {
        let mut r: Vec<((usize, usize), Option<bool>)> = Vec::new();
        let e0 = zone[0].end - zone[0].start;
        let e1 = zone[1].end - zone[1].start;
        let mut i: usize = 0;
        proof {
            if e1 == 0 {
                lemma_zero_factor(zone@, 0, 1);
            }
        }
        while i < e0
            invariant
                0 <= i <= e0,
                zone@.len() == 2,
                zone_ordered(zone@),
                e0 == zext(zone@, 0),
                e1 == zext(zone@, 1),
                e1 == 0 ==> zcount(zone@) == 0,
                r@.len() == i as int * e1 as int,
                forall|k: int|
                    0 <= k < r@.len() ==> (#[trigger] r@[k]).0.0 as int == zcoord(zone@, k, 0)
                        && r@[k].0.1 as int == zcoord(zone@, k, 1) && r@[k].1 == valid_hint,
            decreases e0 - i,
        {
            let mut j: usize = 0;
            while j < e1
                invariant
                    0 <= j <= e1,
                    0 <= i < e0,
                    zone@.len() == 2,
                    zone_ordered(zone@),
                    e0 == zext(zone@, 0),
                    e1 == zext(zone@, 1),
                    r@.len() == i as int * e1 as int + j as int,
                    forall|k: int|
                        0 <= k < r@.len() ==> (#[trigger] r@[k]).0.0 as int == zcoord(zone@, k, 0)
                            && r@[k].0.1 as int == zcoord(zone@, k, 1) && r@[k].1 == valid_hint,
                decreases e1 - j,
            {
                proof {
                    let k = i as int * e1 as int + j as int;
                    vstd::arithmetic::div_mod::lemma_fundamental_div_mod_converse(
                        k,
                        e1 as int,
                        i as int,
                        j as int,
                    );
                    vstd::arithmetic::div_mod::lemma_mod_division_less_than_divisor(
                        i as int,
                        e0 as int,
                    );
                    vstd::arithmetic::div_mod::lemma_small_mod(i as nat, e0 as nat);
                    vstd::arithmetic::mul::lemma_mul_basics(e1 as int);
                    assert(zsuf(zone@, 2) == 1);
                    assert(zsuf(zone@, 1) == e1 as int);
                }
                r.push(((zone[0].start + i, zone[1].start + j), valid_hint));
                j += 1;
            }
            i += 1;
            proof {
                vstd::arithmetic::mul::lemma_mul_is_distributive_add_other_way(
                    e1 as int,
                    i as int - 1,
                    1,
                );
            }
        }
        proof {
            assert(zsuf(zone@, 2) == 1);
            assert(zsuf(zone@, 1) == e1 as int * zsuf(zone@, 2));
            assert(zcount(zone@) == e0 as int * zsuf(zone@, 1));
            vstd::arithmetic::mul::lemma_mul_basics(e1 as int);
        }
        r
    }

    /// Coordinates of an arbitrary-rank zone, row-major, each tagged with
    /// the hint.
    pub fn visit_zone_d(&self, zone: &[Range<usize>], valid_hint: Option<bool>) -> (r: Vec<
        (Vec<usize>, Option<bool>),
    >)
        requires
            self.wf(),
            zone_in_output(self.spec, zone@),
        ensures
            r@.len() == zcount(zone@),
            forall|i: int|
                0 <= i < r@.len() ==> (#[trigger] r@[i]).1 == valid_hint && r@[i].0@.len()
                    == zone@.len(),
            forall|i: int, a: int|
                0 <= i < r@.len() && 0 <= a < zone@.len() ==> (#[trigger] r@[i].0@[a]) as int
                    == zcoord(zone@, i, a),
    {
        let rank = zone.len();
        let mut sufs: Vec<usize> = Vec::new();
        let mut b = rank;
        sufs.push(1);
        proof {
            lemma_zsuf_bounds(self.spec, zone@, rank as int);
        }
        while b > 0
            invariant
                0 <= b <= rank,
                rank == zone@.len(),
                model::resolve_ok(self.spec),
                model::fits(self.spec),
                zone_in_output(self.spec, zone@),
                sufs@.len() == rank - b + 1,
                forall|x: int|
                    0 <= x < sufs@.len() ==> (#[trigger] sufs@[x]) as int == zsuf(
                        zone@,
                        rank as int - x,
                    ),
            decreases b,
        {
            b -= 1;
            proof {
                lemma_zsuf_bounds(self.spec, zone@, b as int);
                lemma_zsuf_bounds(self.spec, zone@, b as int + 1);
                model::lemma_out_prod_bounds(self.spec, b as int);
            }
            let e = zone[b].end - zone[b].start;
            let v = e * sufs[rank - b - 1];
            sufs.push(v);
            proof {
                assert(sufs@[rank - b] as int == zsuf(zone@, b as int));
            }
        }
        let total = sufs[rank];
        let mut r: Vec<(Vec<usize>, Option<bool>)> = Vec::new();
        let mut i: usize = 0;
        while i < total
            invariant
                0 <= i <= total,
                rank == zone@.len(),
                model::resolve_ok(self.spec),
                model::fits(self.spec),
                zone_in_output(self.spec, zone@),
                total as int == zcount(zone@),
                sufs@.len() == rank + 1,
                forall|x: int|
                    0 <= x < sufs@.len() ==> (#[trigger] sufs@[x]) as int == zsuf(
                        zone@,
                        rank as int - x,
                    ),
                r@.len() == i,
                forall|k: int|
                    0 <= k < i as int ==> (#[trigger] r@[k]).1 == valid_hint && r@[k].0@.len()
                        == rank,
                forall|k: int, a: int|
                    0 <= k < i as int && 0 <= a < rank ==> (#[trigger] r@[k].0@[a]) as int
                        == zcoord(zone@, k, a),
            decreases total - i,
        {
            proof {
                lemma_zsuf_factors(zone@, 0);
            }
            let mut c: Vec<usize> = Vec::new();
            let mut a: usize = 0;
            while a < rank
                invariant
                    0 <= a <= rank,
                    rank == zone@.len(),
                    zone_ordered(zone@),
                    0 <= i < zcount(zone@),
                    sufs@.len() == rank + 1,
                    forall|x: int|
                        0 <= x < sufs@.len() ==> (#[trigger] sufs@[x]) as int == zsuf(
                            zone@,
                            rank as int - x,
                        ),
                    forall|bb: int| 0 <= bb < zone@.len() ==> #[trigger] zext(zone@, bb) > 0,
                    c@.len() == a,
                    forall|x: int|
                        0 <= x < a as int ==> (#[trigger] c@[x]) as int == zcoord(zone@, i as int, x),
                decreases rank - a,
            {
                proof {
                    lemma_pos_prod(zone@, a as int + 1);
                    vstd::arithmetic::div_mod::lemma_div_pos_is_pos(
                        i as int,
                        zsuf(zone@, a as int + 1),
                    );
                    vstd::arithmetic::div_mod::lemma_mod_division_less_than_divisor(
                        i as int / zsuf(zone@, a as int + 1),
                        zext(zone@, a as int),
                    );
                }
                let e = zone[a].end - zone[a].start;
                let digit = (i / sufs[rank - a - 1]) % e;
                c.push(zone[a].start + digit);
                a += 1;
            }
            r.push((c, valid_hint));
            i += 1;
        }
        r
    }
}

/// Number of coordinates of the first `j` invalid shells together.
pub open spec fn inv_count_upto(p: &Patch, j: int) -> int
    decreases j,
{
    if j <= 0 {
        0
    } else {
        inv_count_upto(p, j - 1) + zcount(p.invalid_output_zones@[j - 1]@)
    }
}

/// Every stored invalid shell is a zone of the output space.
proof fn lemma_shell_zone_in_output(p: &Patch, j: int)
    requires
        p.wf(),
        0 <= j < p.invalid_output_zones@.len(),
    ensures
        zone_in_output(p.spec, p.invalid_output_zones@[j]@),
{
    let s = p.spec;
    model::lemma_shells_keys(s, model::rank_of(s), j);
    let key = model::shells(s)[j];
    assert forall|a: int|
        0 <= a < p.invalid_output_zones@[j]@.len() implies (
    #[trigger] p.invalid_output_zones@[j]@[a]).start <= p.invalid_output_zones@[j]@[a].end
        && p.invalid_output_zones@[j]@[a].end as int <= model::out_d(s, a) by {
        crate::laws::lemma_z_bounds(s, a);
        if key.0 == a {
        }
    }
}

/// Shell counts accumulate monotonically.
proof fn lemma_inv_count_mono(p: &Patch, a: int, b: int)
    requires
        p.wf(),
        0 <= a <= b <= p.invalid_output_zones@.len(),
    ensures
        inv_count_upto(p, a) <= inv_count_upto(p, b),
    decreases b,
{
    if a < b {
        lemma_inv_count_mono(p, a, b - 1);
        lemma_shell_zone_in_output(p, b - 1);
        lemma_zsuf_bounds(p.spec, p.invalid_output_zones@[b - 1]@, 0);
    }
}

/// The valid zone is a zone of the output space.
proof fn lemma_valid_zone_in_output(p: &Patch)
    requires
        p.wf(),
    ensures
        zone_in_output(p.spec, p.valid_output_zone@),
{
    assert forall|a: int|
        0 <= a < p.valid_output_zone@.len() implies (
    #[trigger] p.valid_output_zone@[a]).start <= p.valid_output_zone@[a].end
        && p.valid_output_zone@[a].end as int <= model::out_d(p.spec, a) by {
        crate::laws::lemma_z_bounds(p.spec, a);
    }
}

/// Entry `k` of an invalid enumeration describes element `k - off(j)` of
/// shell `j`, where `off` is the running count.
pub open spec fn invalid_entry_d(p: &Patch, e: (Vec<usize>, Option<bool>), j: int, k: int) -> bool {
    let z = p.invalid_output_zones@[j]@;
    let i = k - inv_count_upto(p, j);
    &&& e.1 == Some(false)
    &&& e.0@.len() == model::rank_of(p.spec)
    &&& forall|a: int| 0 <= a < e.0@.len() ==> (#[trigger] e.0@[a]) as int == zcoord(z, i, a)
}

impl Patch {
    /// All coordinates of every invalid shell, shell by shell, row-major
    /// within each shell, each tagged invalid.
    #[verifier::rlimit(100)]
    pub fn visit_invalid_d(&self) -> (r: Vec<(Vec<usize>, Option<bool>)>)
        requires
            self.wf(),
        ensures
            r@.len() == inv_count_upto(self, self.invalid_output_zones@.len() as int),
            forall|j: int, k: int|
                #![trigger r@[k], inv_count_upto(self, j)]
                0 <= j < self.invalid_output_zones@.len() && inv_count_upto(self, j) <= k
                    < inv_count_upto(self, j + 1) ==> invalid_entry_d(self, r@[k], j, k),
    {
        let nz = self.invalid_output_zones.len();
        let mut r: Vec<(Vec<usize>, Option<bool>)> = Vec::new();
        let mut j: usize = 0;
        while j < nz
            invariant
                0 <= j <= nz,
                self.wf(),
                nz == self.invalid_output_zones@.len(),
                r@.len() == inv_count_upto(self, j as int),
                forall|jj: int, k: int|
                    #![trigger r@[k], inv_count_upto(self, jj)]
                    0 <= jj < j as int && inv_count_upto(self, jj) <= k < inv_count_upto(
                        self,
                        jj + 1,
                    ) ==> invalid_entry_d(self, r@[k], jj, k),
            decreases nz - j,
        {
            proof {
                lemma_shell_zone_in_output(self, j as int);
            }
            let zone = &self.invalid_output_zones[j];
            let mut block = self.visit_zone_d(zone.as_slice(), Some(false));
            let ghost oldr = r@;
            let ghost blockv = block@;
            r.append(&mut block);
            j += 1;
            proof {
                lemma_invalid_append_d(self, oldr, blockv, r@, j as int);
            }
        }
        r
    }

    /// All coordinates of the valid zone, row-major, tagged valid.
    pub fn visit_valid_d(&self) -> (r: Vec<(Vec<usize>, Option<bool>)>)
        requires
            self.wf(),
        ensures
            r@.len() == zcount(self.valid_output_zone@),
            forall|i: int|
                0 <= i < r@.len() ==> (#[trigger] r@[i]).1 == Some(true) && r@[i].0@.len()
                    == model::rank_of(self.spec),
            forall|i: int, a: int|
                0 <= i < r@.len() && 0 <= a < model::rank_of(self.spec) ==> (
                #[trigger] r@[i].0@[a]) as int == zcoord(self.valid_output_zone@, i, a),
    {
        proof {
            lemma_valid_zone_in_output(self);
        }
        self.visit_zone_d(self.valid_output_zone.as_slice(), Some(true))
    }

    /// Every coordinate of the valid zone first, then every coordinate of
    /// each invalid shell, in shell order.
    #[verifier::rlimit(100)]
    pub fn visit_all_d(&self) -> (r: Vec<(Vec<usize>, Option<bool>)>)
        requires
            self.wf(),
        ensures
            r@.len() == zcount(self.valid_output_zone@) + inv_count_upto(
                self,
                self.invalid_output_zones@.len() as int,
            ),
            forall|i: int|
                0 <= i < zcount(self.valid_output_zone@) ==> (#[trigger] r@[i]).1 == Some(true)
                    && r@[i].0@.len() == model::rank_of(self.spec),
            forall|i: int, a: int|
                0 <= i < zcount(self.valid_output_zone@) && 0 <= a < model::rank_of(self.spec)
                    ==> (#[trigger] r@[i].0@[a]) as int == zcoord(self.valid_output_zone@, i, a),
            forall|j: int, k: int|
                #![trigger r@[zcount(self.valid_output_zone@) + k], inv_count_upto(self, j)]
                0 <= j < self.invalid_output_zones@.len() && inv_count_upto(self, j) <= k
                    < inv_count_upto(self, j + 1) ==> invalid_entry_d(
                    self,
                    r@[zcount(self.valid_output_zone@) + k],
                    j,
                    k,
                ),
    {
        let mut r = self.visit_valid_d();
        let mut inv = self.visit_invalid_d();
        proof {
            lemma_valid_zone_in_output(self);
            lemma_zsuf_bounds(self.spec, self.valid_output_zone@, 0);
        }
        let ghost validv = r@;
        let ghost invv = inv@;
        r.append(&mut inv);
        proof {
            broadcast use vstd::seq::axiom_seq_add_index1, vstd::seq::axiom_seq_add_index2;

            let vc = zcount(self.valid_output_zone@);
            assert forall|j: int, k: int|
                #![trigger r@[zcount(self.valid_output_zone@) + k], inv_count_upto(self, j)]
                0 <= j < self.invalid_output_zones@.len() && inv_count_upto(self, j) <= k
                    < inv_count_upto(self, j + 1) implies invalid_entry_d(
                self,
                r@[zcount(self.valid_output_zone@) + k],
                j,
                k,
            ) by {
                lemma_inv_count_mono(self, 0, j);
                lemma_inv_count_mono(self, j + 1, self.invalid_output_zones@.len() as int);
                assert(r@[vc + k] == invv[k]);
                assert(invalid_entry_d(self, invv[k], j, k));
            }
        }
        r
    }
}

/// After appending shell `jnow - 1`'s block, every earlier entry is
/// untouched and the new block sits at its offset.
proof fn lemma_invalid_append_d(
    p: &Patch,
    oldr: Seq<(Vec<usize>, Option<bool>)>,
    blockv: Seq<(Vec<usize>, Option<bool>)>,
    newr: Seq<(Vec<usize>, Option<bool>)>,
    jnow: int,
)
    requires
        p.wf(),
        1 <= jnow <= p.invalid_output_zones@.len(),
        oldr.len() == inv_count_upto(p, jnow - 1),
        newr == oldr + blockv,
        blockv.len() == zcount(p.invalid_output_zones@[jnow - 1]@),
        forall|i: int|
            0 <= i < blockv.len() ==> (#[trigger] blockv[i]).1 == Some(false)
                && blockv[i].0@.len() == p.invalid_output_zones@[jnow - 1]@.len(),
        forall|i: int, a: int|
            0 <= i < blockv.len() && 0 <= a < p.invalid_output_zones@[jnow - 1]@.len() ==> (
            #[trigger] blockv[i].0@[a]) as int == zcoord(p.invalid_output_zones@[jnow - 1]@, i, a),
        forall|jj: int, k: int|
            #![trigger oldr[k], inv_count_upto(p, jj)]
            0 <= jj < jnow - 1 && inv_count_upto(p, jj) <= k < inv_count_upto(p, jj + 1)
                ==> invalid_entry_d(p, oldr[k], jj, k),
    ensures
        newr.len() == inv_count_upto(p, jnow),
        forall|jj: int, k: int|
            #![trigger newr[k], inv_count_upto(p, jj)]
            0 <= jj < jnow && inv_count_upto(p, jj) <= k < inv_count_upto(p, jj + 1)
                ==> invalid_entry_d(p, newr[k], jj, k),
{
    broadcast use vstd::seq::axiom_seq_add_index1, vstd::seq::axiom_seq_add_index2;

    assert(inv_count_upto(p, jnow) == inv_count_upto(p, jnow - 1) + zcount(
        p.invalid_output_zones@[jnow - 1]@,
    ));
    assert forall|jj: int, k: int|
        #![trigger newr[k], inv_count_upto(p, jj)]
        0 <= jj < jnow && inv_count_upto(p, jj) <= k < inv_count_upto(p, jj + 1) implies invalid_entry_d(
        p,
        newr[k],
        jj,
        k,
    ) by {
        lemma_shell_zone_in_output(p, jj);
        lemma_inv_count_mono(p, 0, jj);
        let z = p.invalid_output_zones@[jj]@;
        let i = k - inv_count_upto(p, jj);
        if jj < jnow - 1 {
            lemma_inv_count_mono(p, jj + 1, jnow - 1);
            assert(inv_count_upto(p, jj + 1) == inv_count_upto(p, jj) + zcount(z));
            assert(newr[k] == oldr[k]);
            assert(invalid_entry_d(p, oldr[k], jj, k));
            assert forall|a: int| 0 <= a < newr[k].0@.len() implies (#[trigger] newr[k].0@[a])
                as int == zcoord(z, i, a) by {
                assert(oldr[k].0@[a] as int == zcoord(z, i, a));
            }
        } else {
            assert(newr[k] == blockv[i]);
            assert(blockv[i].1 == Some(false));
            assert(blockv[i].0@.len() == z.len());
            assert forall|a: int| 0 <= a < newr[k].0@.len() implies (#[trigger] newr[k].0@[a])
                as int == zcoord(z, i, a) by {
                assert(blockv[i].0@[a] as int == zcoord(z, i, a));
            }
        }
    }
}

impl Patch {
    /// One-axis form of `visit_valid_d`.
    pub fn visit_valid_1(&self) -> (r: Vec<(usize, Option<bool>)>)
        requires
            self.wf(),
            model::rank_of(self.spec) == 1,
        ensures
            r@.len() == zext(self.valid_output_zone@, 0),
            forall|i: int|
                0 <= i < r@.len() ==> (#[trigger] r@[i]).0 == self.valid_output_zone@[0].start + i
                    && r@[i].1 == Some(true),
    {
        proof {
            crate::laws::lemma_z_bounds(self.spec, 0);
        }
        self.visit_zone_1(self.valid_output_zone.as_slice(), Some(true))
    }

    /// One-axis form of `visit_invalid_d`.
    #[verifier::rlimit(100)]
    pub fn visit_invalid_1(&self) -> (r: Vec<(usize, Option<bool>)>)
        requires
            self.wf(),
            model::rank_of(self.spec) == 1,
        ensures
            r@.len() == inv_count_upto(self, self.invalid_output_zones@.len() as int),
            forall|j: int, k: int|
                #![trigger r@[k], inv_count_upto(self, j)]
                0 <= j < self.invalid_output_zones@.len() && inv_count_upto(self, j) <= k
                    < inv_count_upto(self, j + 1) ==> r@[k].0
                    == self.invalid_output_zones@[j]@[0].start + (k - inv_count_upto(self, j))
                    && r@[k].1 == Some(false),
    {
        let nz = self.invalid_output_zones.len();
        let mut r: Vec<(usize, Option<bool>)> = Vec::new();
        let mut j: usize = 0;
        while j < nz
            invariant
                0 <= j <= nz,
                self.wf(),
                model::rank_of(self.spec) == 1,
                nz == self.invalid_output_zones@.len(),
                r@.len() == inv_count_upto(self, j as int),
                forall|jj: int, k: int|
                    #![trigger r@[k], inv_count_upto(self, jj)]
                    0 <= jj < j as int && inv_count_upto(self, jj) <= k < inv_count_upto(
                        self,
                        jj + 1,
                    ) ==> r@[k].0 == self.invalid_output_zones@[jj]@[0].start + (k
                        - inv_count_upto(self, jj)) && r@[k].1 == Some(false),
            decreases nz - j,
        {
            proof {
                lemma_shell_zone_in_output(self, j as int);
                assert(zsuf(self.invalid_output_zones@[j as int]@, 1) == 1);
                vstd::arithmetic::mul::lemma_mul_basics(
                    zext(self.invalid_output_zones@[j as int]@, 0),
                );
            }
            let zone = &self.invalid_output_zones[j];
            let mut block = self.visit_zone_1(zone.as_slice(), Some(false));
            let ghost oldr = r@;
            let ghost blockv = block@;
            r.append(&mut block);
            j += 1;
            proof {
                broadcast use vstd::seq::axiom_seq_add_index1, vstd::seq::axiom_seq_add_index2;

                let jnow = j as int;
                assert forall|jj: int, k: int|
                    #![trigger r@[k], inv_count_upto(self, jj)]
                    0 <= jj < jnow && inv_count_upto(self, jj) <= k < inv_count_upto(
                        self,
                        jj + 1,
                    ) implies r@[k].0 == self.invalid_output_zones@[jj]@[0].start + (
                k - inv_count_upto(self, jj)) && r@[k].1 == Some(false) by {
                    lemma_shell_zone_in_output(self, jj);
                    lemma_inv_count_mono(self, 0, jj);
                    assert(zsuf(self.invalid_output_zones@[jj]@, 1) == 1);
                    vstd::arithmetic::mul::lemma_mul_basics(
                        zext(self.invalid_output_zones@[jj]@, 0),
                    );
                    if jj < jnow - 1 {
                        lemma_inv_count_mono(self, jj + 1, jnow - 1);
                        assert(r@[k] == oldr[k]);
                    } else {
                        assert(r@[k] == blockv[k - oldr.len()]);
                    }
                }
            }
        }
        r
    }

    /// One-axis form of `visit_all_d`.
    #[verifier::rlimit(100)]
    pub fn visit_all_1(&self) -> (r: Vec<(usize, Option<bool>)>)
        requires
            self.wf(),
            model::rank_of(self.spec) == 1,
        ensures
            r@.len() == zext(self.valid_output_zone@, 0) + inv_count_upto(
                self,
                self.invalid_output_zones@.len() as int,
            ),
            forall|i: int|
                0 <= i < zext(self.valid_output_zone@, 0) ==> (#[trigger] r@[i]).0
                    == self.valid_output_zone@[0].start + i && r@[i].1 == Some(true),
            forall|j: int, k: int|
                #![trigger r@[zext(self.valid_output_zone@, 0) + k], inv_count_upto(self, j)]
                0 <= j < self.invalid_output_zones@.len() && inv_count_upto(self, j) <= k
                    < inv_count_upto(self, j + 1) ==> r@[zext(self.valid_output_zone@, 0) + k].0
                    == self.invalid_output_zones@[j]@[0].start + (k - inv_count_upto(self, j))
                    && r@[zext(self.valid_output_zone@, 0) + k].1 == Some(false),
    {
        let mut r = self.visit_valid_1();
        let mut inv = self.visit_invalid_1();
        proof {
            crate::laws::lemma_z_bounds(self.spec, 0);
        }
        let ghost validv = r@;
        let ghost invv = inv@;
        r.append(&mut inv);
        proof {
            broadcast use vstd::seq::axiom_seq_add_index1, vstd::seq::axiom_seq_add_index2;

            let vc = zext(self.valid_output_zone@, 0);
            assert forall|j: int, k: int|
                #![trigger r@[zext(self.valid_output_zone@, 0) + k], inv_count_upto(self, j)]
                0 <= j < self.invalid_output_zones@.len() && inv_count_upto(self, j) <= k
                    < inv_count_upto(self, j + 1) implies r@[zext(self.valid_output_zone@, 0)
                + k].0 == self.invalid_output_zones@[j]@[0].start + (k - inv_count_upto(self, j))
                && r@[zext(self.valid_output_zone@, 0) + k].1 == Some(false) by {
                lemma_inv_count_mono(self, 0, j);
                lemma_inv_count_mono(self, j + 1, self.invalid_output_zones@.len() as int);
                assert(r@[vc + k] == invv[k]);
            }
        }
        r
    }

    /// Two-axis form of `visit_valid_d`.
    pub fn visit_valid_2(&self) -> (r: Vec<((usize, usize), Option<bool>)>)
        requires
            self.wf(),
            model::rank_of(self.spec) == 2,
        ensures
            r@.len() == zcount(self.valid_output_zone@),
            forall|i: int|
                0 <= i < r@.len() ==> (#[trigger] r@[i]).0.0 as int == zcoord(
                    self.valid_output_zone@,
                    i,
                    0,
                ) && r@[i].0.1 as int == zcoord(self.valid_output_zone@, i, 1) && r@[i].1 == Some(
                    true,
                ),
    {
        proof {
            lemma_valid_zone_in_output(self);
        }
        self.visit_zone_2(self.valid_output_zone.as_slice(), Some(true))
    }

    /// Two-axis form of `visit_invalid_d`.
    #[verifier::rlimit(100)]
    pub fn visit_invalid_2(&self) -> (r: Vec<((usize, usize), Option<bool>)>)
        requires
            self.wf(),
            model::rank_of(self.spec) == 2,
        ensures
            r@.len() == inv_count_upto(self, self.invalid_output_zones@.len() as int),
            forall|j: int, k: int|
                #![trigger r@[k], inv_count_upto(self, j)]
                0 <= j < self.invalid_output_zones@.len() && inv_count_upto(self, j) <= k
                    < inv_count_upto(self, j + 1) ==> (r@[k]).0.0 as int == zcoord(
                    self.invalid_output_zones@[j]@,
                    k - inv_count_upto(self, j),
                    0,
                ) && r@[k].0.1 as int == zcoord(
                    self.invalid_output_zones@[j]@,
                    k - inv_count_upto(self, j),
                    1,
                ) && r@[k].1 == Some(false),
    {
        let nz = self.invalid_output_zones.len();
        let mut r: Vec<((usize, usize), Option<bool>)> = Vec::new();
        let mut j: usize = 0;
        while j < nz
            invariant
                0 <= j <= nz,
                self.wf(),
                model::rank_of(self.spec) == 2,
                nz == self.invalid_output_zones@.len(),
                r@.len() == inv_count_upto(self, j as int),
                forall|jj: int, k: int|
                    #![trigger r@[k], inv_count_upto(self, jj)]
                    0 <= jj < j as int && inv_count_upto(self, jj) <= k < inv_count_upto(
                        self,
                        jj + 1,
                    ) ==> (r@[k]).0.0 as int == zcoord(
                        self.invalid_output_zones@[jj]@,
                        k - inv_count_upto(self, jj),
                        0,
                    ) && r@[k].0.1 as int == zcoord(
                        self.invalid_output_zones@[jj]@,
                        k - inv_count_upto(self, jj),
                        1,
                    ) && r@[k].1 == Some(false),
            decreases nz - j,
        {
            proof {
                lemma_shell_zone_in_output(self, j as int);
            }
            let zone = &self.invalid_output_zones[j];
            let mut block = self.visit_zone_2(zone.as_slice(), Some(false));
            let ghost oldr = r@;
            let ghost blockv = block@;
            r.append(&mut block);
            j += 1;
            proof {
                broadcast use vstd::seq::axiom_seq_add_index1, vstd::seq::axiom_seq_add_index2;

                let jnow = j as int;
                assert forall|jj: int, k: int|
                    #![trigger r@[k], inv_count_upto(self, jj)]
                    0 <= jj < jnow && inv_count_upto(self, jj) <= k < inv_count_upto(
                        self,
                        jj + 1,
                    ) implies (r@[k]).0.0 as int == zcoord(
                    self.invalid_output_zones@[jj]@,
                    k - inv_count_upto(self, jj),
                    0,
                ) && r@[k].0.1 as int == zcoord(
                    self.invalid_output_zones@[jj]@,
                    k - inv_count_upto(self, jj),
                    1,
                ) && r@[k].1 == Some(false) by {
                    lemma_shell_zone_in_output(self, jj);
                    lemma_inv_count_mono(self, 0, jj);
                    if jj < jnow - 1 {
                        lemma_inv_count_mono(self, jj + 1, jnow - 1);
                        assert(r@[k] == oldr[k]);
                    } else {
                        assert(r@[k] == blockv[k - oldr.len()]);
                    }
                }
            }
        }
        r
    }

    /// Two-axis form of `visit_all_d`.
    #[verifier::rlimit(100)]
    pub fn visit_all_2(&self) -> (r: Vec<((usize, usize), Option<bool>)>)
        requires
            self.wf(),
            model::rank_of(self.spec) == 2,
        ensures
            r@.len() == zcount(self.valid_output_zone@) + inv_count_upto(
                self,
                self.invalid_output_zones@.len() as int,
            ),
            forall|i: int|
                0 <= i < zcount(self.valid_output_zone@) ==> (#[trigger] r@[i]).0.0 as int
                    == zcoord(self.valid_output_zone@, i, 0) && r@[i].0.1 as int == zcoord(
                    self.valid_output_zone@,
                    i,
                    1,
                ) && r@[i].1 == Some(true),
            forall|j: int, k: int|
                #![trigger r@[zcount(self.valid_output_zone@) + k], inv_count_upto(self, j)]
                0 <= j < self.invalid_output_zones@.len() && inv_count_upto(self, j) <= k
                    < inv_count_upto(self, j + 1) ==> (r@[zcount(
                    self.valid_output_zone@,
                ) + k]).0.0 as int == zcoord(
                    self.invalid_output_zones@[j]@,
                    k - inv_count_upto(self, j),
                    0,
                ) && r@[zcount(self.valid_output_zone@) + k].0.1 as int == zcoord(
                    self.invalid_output_zones@[j]@,
                    k - inv_count_upto(self, j),
                    1,
                ) && r@[zcount(self.valid_output_zone@) + k].1 == Some(false),
    {
        let mut r = self.visit_valid_2();
        let mut inv = self.visit_invalid_2();
        proof {
            lemma_valid_zone_in_output(self);
            lemma_zsuf_bounds(self.spec, self.valid_output_zone@, 0);
        }
        let ghost validv = r@;
        let ghost invv = inv@;
        r.append(&mut inv);
        proof {
            broadcast use vstd::seq::axiom_seq_add_index1, vstd::seq::axiom_seq_add_index2;

            let vc = zcount(self.valid_output_zone@);
            assert forall|j: int, k: int|
                #![trigger r@[zcount(self.valid_output_zone@) + k], inv_count_upto(self, j)]
                0 <= j < self.invalid_output_zones@.len() && inv_count_upto(self, j) <= k
                    < inv_count_upto(self, j + 1) implies (r@[zcount(
                self.valid_output_zone@,
            ) + k]).0.0 as int == zcoord(
                self.invalid_output_zones@[j]@,
                k - inv_count_upto(self, j),
                0,
            ) && r@[zcount(self.valid_output_zone@) + k].0.1 as int == zcoord(
                self.invalid_output_zones@[j]@,
                k - inv_count_upto(self, j),
                1,
            ) && r@[zcount(self.valid_output_zone@) + k].1 == Some(false) by {
                lemma_inv_count_mono(self, 0, j);
                lemma_inv_count_mono(self, j + 1, self.invalid_output_zones@.len() as int);
                assert(r@[vc + k] == invv[k]);
            }
        }
        r
    }
}

} // verus!
