use netpbm::{Image, ImageError};

fn bits(values: &[f32]) -> Vec<u32> {
    values.iter().map(|v| v.to_bits()).collect()
}

fn image_1x1(iters: Option<usize>, rgb: [f32; 3]) -> Image {
    Image {
        width: 1,
        height: 1,
        iters,
        little: true,
        scale_mag: vec![49, 46, 48],
        data: bits(&rgb),
    }
}

#[test]
fn accumulate_into_empty_adopts_the_incoming_image() {
    let mut target = Image::new();
    let incoming = image_1x1(Some(4), [0.5, 0.25, 0.125]);
    assert_eq!(target.accumulate(incoming), Ok(()));
    assert_eq!(target.width, 1);
    assert_eq!(target.height, 1);
    assert_eq!(target.iteration_count(), Some(4));
    assert_eq!(target.pixels(), &bits(&[0.5, 0.25, 0.125]));
}

#[test]
fn accumulate_equal_weights_averages() {
    let mut a = image_1x1(Some(1), [0.5, 1.0, 3.0]);
    let b = image_1x1(Some(1), [0.25, 2.0, 5.0]);
    assert_eq!(a.accumulate(b), Ok(()));
    assert_eq!(a.iteration_count(), Some(2));
    let got: Vec<f32> = a.pixels().iter().map(|b| f32::from_bits(*b)).collect();
    assert_eq!(got, vec![(0.5 + 0.25) / 2.0, (1.0 + 2.0) / 2.0, (3.0 + 5.0) / 2.0]);
}

#[test]
fn accumulate_unequal_weights_uses_iteration_counts() {
    let mut a = image_1x1(Some(3), [1.0, 2.0, 0.5]);
    let b = image_1x1(Some(1), [2.0, 6.0, 1.5]);
    assert_eq!(a.accumulate(b), Ok(()));
    assert_eq!(a.iteration_count(), Some(4));
    let got: Vec<f32> = a.pixels().iter().map(|b| f32::from_bits(*b)).collect();
    assert_eq!(
        got,
        vec![
            (1.0 * 3.0 + 2.0 * 1.0) / 4.0,
            (2.0 * 3.0 + 6.0 * 1.0) / 4.0,
            (0.5 * 3.0 + 1.5 * 1.0) / 4.0,
        ]
    );
}

#[test]
fn geometry_mismatch_rejected_and_target_untouched() {
    let mut a = image_1x1(Some(1), [0.5, 1.0, 3.0]);
    let b = Image {
        width: 2,
        height: 1,
        iters: Some(1),
        little: true,
        scale_mag: vec![49, 46, 48],
        data: bits(&[0.0, 0.0, 0.0, 0.0, 0.0, 0.0]),
    };
    assert_eq!(a.accumulate(b), Err(ImageError::GeometryMismatch));
    assert_eq!(a.width, 1);
    assert_eq!(a.iteration_count(), Some(1));
    assert_eq!(a.pixels(), &bits(&[0.5, 1.0, 3.0]));
}

#[test]
fn unspecified_iteration_count_weighs_as_one() {
    let mut a = image_1x1(None, [1.0, 1.0, 1.0]);
    let b = image_1x1(None, [3.0, 3.0, 3.0]);
    assert_eq!(a.accumulate(b), Ok(()));
    assert_eq!(a.iteration_count(), Some(2));
    let got: Vec<f32> = a.pixels().iter().map(|b| f32::from_bits(*b)).collect();
    assert_eq!(got, vec![2.0, 2.0, 2.0]);
}

#[test]
fn zero_iteration_count_weighs_as_one() {
    let mut a = image_1x1(Some(0), [1.0, 1.0, 1.0]);
    let b = image_1x1(Some(3), [5.0, 5.0, 5.0]);
    assert_eq!(a.accumulate(b), Ok(()));
    assert_eq!(a.iteration_count(), Some(4));
    let got: Vec<f32> = a.pixels().iter().map(|b| f32::from_bits(*b)).collect();
    assert_eq!(got, vec![4.0, 4.0, 4.0]);
}

#[test]
fn accumulate_matches_the_operation_order_of_the_update() {
    // The update is (a * w1 + b * w2) / (w1 + w2), rounded at each step.
    let mut a = image_1x1(Some(7), [0.1, 0.2, 0.3]);
    let b = image_1x1(Some(5), [0.9, 0.8, 0.7]);
    assert_eq!(a.accumulate(b), Ok(()));
    let got: Vec<f32> = a.pixels().iter().map(|b| f32::from_bits(*b)).collect();
    let expect = |x: f32, y: f32| (x * 7.0f32 + y * 5.0f32) / 12.0f32;
    assert_eq!(got, vec![expect(0.1, 0.9), expect(0.2, 0.8), expect(0.3, 0.7)]);
}
