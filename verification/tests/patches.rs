use patches::geometry::{GeometryError, PaddingSpec};
use patches::iter::PatchIterator;
use patches::patch::{Patch, PatchSpec};

fn spec_1d(input: usize, dilation: usize, kdim: usize, pad_before: usize, pad_after: usize, stride: usize) -> PatchSpec {
    PatchSpec::for_data_shape(vec![input], 1)
        .with_dilations(vec![dilation])
        .with_kernel_shape(vec![kdim])
        .with_padding(PaddingSpec::Explicit(vec![pad_before], vec![pad_after]))
        .with_strides(vec![stride])
}

fn compute_output_spatial_dim(
    input: usize,
    dilation: usize,
    kdim: usize,
    pad_before: usize,
    bad_after: usize,
    stride: usize,
) -> usize {
    let patch = spec_1d(input, dilation, kdim, pad_before, bad_after, stride).into_patch().unwrap();
    patch.output_shape[0]
}

#[test]
fn basic() {
    assert_eq!(compute_output_spatial_dim(5, 1, 3, 0, 0, 1), 3);
}

#[test]
fn strides() {
    assert_eq!(compute_output_spatial_dim(7, 1, 3, 0, 0, 2), 3);
}

#[test]
fn padding() {
    assert_eq!(compute_output_spatial_dim(5, 1, 3, 1, 1, 1), 5);
}

#[test]
fn strides_and_padding() {
    assert_eq!(compute_output_spatial_dim(7, 1, 3, 1, 1, 2), 4);
}

fn field(kdim: &[usize], dilations: &[usize]) -> Vec<isize> {
    let len = kdim.len();
    let patch = PatchSpec::for_data_shape(vec![10; len], 1)
        .with_dilations(dilations.to_vec())
        .with_kernel_shape(kdim.to_vec())
        .with_padding(PaddingSpec::Explicit(vec![0; len], vec![0; len]))
        .with_strides(vec![1; len])
        .into_patch()
        .unwrap();
    patch.data_field
}

#[test]
fn test_field() {
    assert_eq!(field(&[3], &[1]), vec![0, 1, 2]);
    assert_eq!(field(&[3], &[2]), vec![0, 2, 4]);
    assert_eq!(field(&[2, 2], &[1, 1]), vec![0, 0, 0, 1, 1, 0, 1, 1]);
    assert_eq!(field(&[2, 2], &[2, 1]), vec![0, 0, 0, 1, 2, 0, 2, 1]);
}

fn patch_2x2_same_lower() -> Patch {
    PatchSpec::for_data_shape(vec![2, 2], 1)
        .with_kernel_shape(vec![2, 1])
        .with_padding(PaddingSpec::SameLower)
        .with_strides(vec![1, 2])
        .into_patch()
        .unwrap()
}

#[test]
fn test_zone_visitor_1() {
    let p = patch_2x2_same_lower();
    let mut output = vec![vec![0i32; p.output_shape[1]]; p.output_shape[0]];
    for (c, _v) in p.visit_all_2() {
        assert!(output[c.0][c.1] == 0);
        output[c.0][c.1] = 1;
    }
    assert!(output.iter().all(|row| row.iter().all(|&x| x == 1)));
}

#[test]
fn zone_visitor_d_covers_once() {
    let p = spec_1d(5, 1, 3, 1, 1, 1).into_patch().unwrap();
    let mut seen = vec![0i32; p.output_shape[0]];
    for (c, _v) in p.visit_all_d() {
        assert_eq!(c.len(), 1);
        assert!(seen[c[0]] == 0);
        seen[c[0]] = 1;
    }
    assert!(seen.iter().all(|&x| x == 1));
}

#[test]
fn zone_visitor_1_covers_once() {
    let p = spec_1d(7, 1, 3, 1, 1, 2).into_patch().unwrap();
    let mut seen = vec![0i32; p.output_shape[0]];
    for (c, _v) in p.visit_all_1() {
        assert!(seen[c] == 0);
        seen[c] = 1;
    }
    assert!(seen.iter().all(|&x| x == 1));
}

#[test]
fn hints_match_validity() {
    let p = spec_1d(5, 1, 3, 1, 1, 1).into_patch().unwrap();
    for (c, v) in p.visit_all_1() {
        assert_eq!(v, Some(p.is_valid(&[c])));
    }
}

#[test]
fn is_valid_matches_valid_zone() {
    let p = spec_1d(7, 1, 3, 1, 1, 2).into_patch().unwrap();
    let zone = &p.valid_output_zone[0];
    for c in 0..p.output_shape[0] {
        let in_zone = c >= zone.start && c < zone.end;
        assert_eq!(p.is_valid(&[c]), in_zone);
    }
}

fn collect(mut it: PatchIterator) -> Vec<Option<isize>> {
    let mut r = Vec::new();
    while let Some(x) = it.next() {
        r.push(x);
    }
    r
}

#[test]
fn fast_and_safe_agree_on_valid_coords() {
    let p = spec_1d(5, 1, 3, 1, 1, 1).into_patch().unwrap();
    // coordinate 1 is in the valid zone: window covers inputs 0, 1, 2.
    assert!(p.is_valid(&[1]));
    let fast = collect(p.at(&[1]));
    let forced_safe = collect(p.at_hint(&[1], Some(false)));
    assert_eq!(fast, forced_safe);
    assert!(fast.iter().all(|x| x.is_some()));
}

#[test]
fn safe_path_reports_missing_taps() {
    let p = spec_1d(5, 1, 3, 1, 1, 1).into_patch().unwrap();
    // coordinate 0 reads the padded cell before the input.
    assert!(!p.is_valid(&[0]));
    let items = collect(p.at(&[0]));
    assert_eq!(items, vec![None, Some(0), Some(1)]);
    // coordinate 4 reads the padded cell after the input.
    let items = collect(p.at(&[4]));
    assert_eq!(items, vec![Some(3), Some(4), None]);
}

#[test]
fn iterator_is_exhausted_after_all_taps() {
    let p = spec_1d(5, 1, 3, 0, 0, 1).into_patch().unwrap();
    let mut it = p.at(&[0]);
    assert_eq!(it.next(), Some(Some(0)));
    assert_eq!(it.next(), Some(Some(1)));
    assert_eq!(it.next(), Some(Some(2)));
    assert_eq!(it.next(), None);
    assert_eq!(it.next(), None);
}

#[test]
fn global_offset_matches_iterator_items() {
    let p = spec_1d(7, 1, 3, 0, 0, 2).into_patch().unwrap();
    for c in 0..p.output_shape[0] {
        let items = collect(p.at(&[c]));
        for (t, item) in items.iter().enumerate() {
            let off = item.expect("no padding, every tap present");
            assert_eq!(p.global_offset_for(&[c], t), off as usize);
        }
    }
}

#[test]
fn unit_window_round_trip() {
    let p = PatchSpec::for_data_shape(vec![3, 4], 1).into_patch().unwrap();
    assert_eq!(p.output_shape, vec![3, 4]);
    assert!(!p.padded);
    for r in 0..3usize {
        for c in 0..4usize {
            let items = collect(p.at(&[r, c]));
            assert_eq!(items, vec![Some((r * 4 + c) as isize)]);
        }
    }
}

#[test]
fn rank_and_builders() {
    let s = PatchSpec::for_data_shape(vec![4, 5], 1)
        .with_kernel_shape(vec![2, 2])
        .with_dilations(vec![1, 1])
        .with_strides(vec![1, 1])
        .with_padding(PaddingSpec::Valid)
        .with_output_inner_stride(2);
    assert_eq!(s.output_inner_stride, 2);
    let p = s.into_patch().unwrap();
    assert_eq!(p.rank(), 2);
    assert_eq!(p.output_shape, vec![3, 4]);
}

#[test]
fn rank_mismatch_is_reported() {
    let r = PatchSpec::for_data_shape(vec![5, 5], 1)
        .with_kernel_shape(vec![3])
        .into_patch();
    assert_eq!(r, Err(GeometryError::RankMismatch));
    let r = PatchSpec::for_data_shape(vec![5], 1)
        .with_kernel_shape(vec![3])
        .with_padding(PaddingSpec::Explicit(vec![0, 0], vec![0, 0]))
        .into_patch();
    assert_eq!(r, Err(GeometryError::RankMismatch));
}

#[test]
fn oversized_window_is_reported() {
    let r = PatchSpec::for_data_shape(vec![3], 1).with_kernel_shape(vec![7]).into_patch();
    assert_eq!(r, Err(GeometryError::WindowTooLarge));
}

#[test]
fn same_padding_split() {
    // SameLower puts the odd padding cell before the input, SameUpper after.
    let lower = PatchSpec::for_data_shape(vec![2, 2], 1)
        .with_kernel_shape(vec![2, 1])
        .with_padding(PaddingSpec::SameLower)
        .with_strides(vec![1, 2])
        .into_patch()
        .unwrap();
    assert_eq!(lower.pad_before, vec![1, 0]);
    assert_eq!(lower.pad_after, vec![0, 0]);
    assert!(lower.padded);
    let upper = PatchSpec::for_data_shape(vec![2, 2], 1)
        .with_kernel_shape(vec![2, 1])
        .with_padding(PaddingSpec::SameUpper)
        .with_strides(vec![1, 2])
        .into_patch()
        .unwrap();
    assert_eq!(upper.pad_before, vec![0, 0]);
    assert_eq!(upper.pad_after, vec![1, 0]);
}

#[test]
fn min_max_and_flat_deltas() {
    let p = spec_1d(10, 2, 3, 1, 0, 1).into_patch().unwrap();
    // taps at 0*2-1, 1*2-1, 2*2-1.
    assert_eq!(p.data_field, vec![-1, 1, 3]);
    assert_eq!(p.data_field_min_max, vec![(-1, 3)]);
    assert_eq!(p.standard_layout_data_field, vec![-1, 1, 3]);
    assert_eq!(p.op_strides_times_input_storage_strides, vec![1]);
}

#[test]
fn inner_stride_scales_offsets() {
    let p = PatchSpec::for_data_shape(vec![5], 2)
        .with_kernel_shape(vec![3])
        .into_patch()
        .unwrap();
    assert_eq!(p.standard_layout_data_field, vec![0, 2, 4]);
    assert_eq!(p.global_offset_for(&[1], 2), 6);
}

#[test]
fn zone_partition_2d() {
    let p = patch_2x2_same_lower();
    for r in 0..p.output_shape[0] {
        for c in 0..p.output_shape[1] {
            let v = &p.valid_output_zone;
            let in_valid =
                r >= v[0].start && r < v[0].end && c >= v[1].start && c < v[1].end;
            let shells = p
                .invalid_output_zones
                .iter()
                .filter(|z| {
                    r >= z[0].start && r < z[0].end && c >= z[1].start && c < z[1].end
                })
                .count();
            if in_valid {
                assert_eq!(shells, 0);
            } else {
                assert_eq!(shells, 1);
            }
            assert_eq!(p.is_valid(&[r, c]), in_valid);
        }
    }
}
