#[test]
fn sub_pixel_item_excluded_before_layout() {
    let canvas = 800.0f32 * 600.0;
    let total: u64 = 1_000_000_001;
    let sizes: Vec<(usize, u64)> = vec![(0usize, 1_000_000_000u64), (1, 1)]
        .into_iter()
        .filter(|(_, s)| *s as f32 / total as f32 * canvas >= 1.0)
        .collect();
    assert_eq!(sizes.len(), 1, "sub-pixel item must be dropped before squarify");
    assert_eq!(sizes[0].0, 0);
}

#[test]
fn item_at_exactly_one_pixel_is_kept() {
    let canvas = 1000.0f32;
    let total: u64 = 1000;
    let sizes: Vec<(usize, u64)> = vec![(0usize, 1u64)]
        .into_iter()
        .filter(|(_, s)| *s as f32 / total as f32 * canvas >= 1.0)
        .collect();
    assert_eq!(sizes.len(), 1);
}
