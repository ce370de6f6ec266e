use brownian::dispatch::{
    buffers_fit, grid_bytes, pass_direction, result_in_b, workgroup_count, PassDirection,
    CELL_BYTES,
};

#[test]
fn workgroups_cover_the_grid_without_spare_groups() {
    assert_eq!(workgroup_count(512, 8), 64);
    assert_eq!(workgroup_count(513, 8), 65);
    assert_eq!(workgroup_count(1, 8), 1);
    assert_eq!(workgroup_count(0, 8), 0);
    assert_eq!(workgroup_count(288, 8), 36);
    for n in 0..200usize {
        let g = workgroup_count(n, 8) as usize;
        assert!(g * 8 >= n && (g == 0 || (g - 1) * 8 < n));
    }
}

#[test]
fn passes_alternate_and_the_result_is_where_the_last_one_wrote() {
    assert_eq!(pass_direction(0), PassDirection::AToB);
    assert_eq!(pass_direction(1), PassDirection::BToA);
    assert_eq!(pass_direction(112), PassDirection::AToB);
    assert!(!result_in_b(0));
    assert!(result_in_b(1));
    assert!(!result_in_b(2));
    for n in 1..50u32 {
        let last_wrote_b = pass_direction(n - 1) == PassDirection::AToB;
        assert_eq!(result_in_b(n), last_wrote_b);
    }
}

#[test]
fn grid_bytes_counts_four_bytes_per_cell() {
    assert_eq!(grid_bytes(512, 288), 512 * 288 * 4);
    assert_eq!(grid_bytes(1, 1), 4);
    assert_eq!(grid_bytes(0, 7), 0);
    assert_eq!(CELL_BYTES as usize, std::mem::size_of::<f32>());
}

#[test]
fn buffers_are_kept_only_for_the_same_dims() {
    assert!(buffers_fit(Some((288, 512)), 288, 512));
    assert!(!buffers_fit(Some((512, 288)), 288, 512));
    assert!(!buffers_fit(Some((288, 511)), 288, 512));
    assert!(!buffers_fit(None, 288, 512));
}
