use netpbm::{Image, ImageError};

fn bits(values: &[f32]) -> Vec<u32> {
    values.iter().map(|v| v.to_bits()).collect()
}

fn image(width: usize, height: usize, values: &[f32]) -> Image {
    Image {
        width,
        height,
        iters: Some(1),
        little: true,
        scale_mag: vec![49, 46, 48],
        data: bits(values),
    }
}

fn luminance(r: f32, g: f32, b: f32) -> f32 {
    0.2126 * r + 0.7152 * g + 0.0722 * b
}

fn rmse(candidate: &Image, reference: &Image) -> Result<f32, ImageError> {
    let mse = candidate.mse_bits(reference)?;
    Ok(f32::from_bits(mse).sqrt())
}

#[test]
fn rmse_of_identical_images_is_zero() {
    let img = image(2, 2, &[
        0.1, 0.2, 0.3, 0.4, 0.5, 0.6, 0.7, 0.8, 0.9, 1.0, 1.1, 1.2,
    ]);
    assert_eq!(img.mse_bits(&img), Ok(0));
    assert_eq!(rmse(&img, &img), Ok(0.0));
}

#[test]
fn rmse_of_red_versus_blue_pixel() {
    // A 1x1 red candidate against a blue reference: the error is the
    // difference of the red and blue luminance weights, about 0.1404.
    let candidate = image(1, 1, &[1.0, 0.0, 0.0]);
    let reference = image(1, 1, &[0.0, 0.0, 1.0]);
    let got = rmse(&candidate, &reference).unwrap();
    assert!((got - 0.1404).abs() < 1e-4, "rmse was {}", got);
}

#[test]
fn rmse_follows_the_luminance_formula() {
    let candidate = image(2, 1, &[0.3, 0.1, 0.9, 0.25, 0.5, 0.75]);
    let reference = image(2, 1, &[0.6, 0.2, 0.1, 0.5, 0.25, 1.0]);
    let d0 = luminance(0.3, 0.1, 0.9) - luminance(0.6, 0.2, 0.1);
    let d1 = luminance(0.25, 0.5, 0.75) - luminance(0.5, 0.25, 1.0);
    let expected = ((d0 * d0 + d1 * d1) / 2.0).sqrt();
    let got = rmse(&candidate, &reference).unwrap();
    assert_eq!(got, expected);
}

#[test]
fn rmse_geometry_mismatch_rejected() {
    let a = image(1, 1, &[1.0, 0.0, 0.0]);
    let b = image(2, 1, &[0.0, 0.0, 1.0, 0.0, 0.0, 0.0]);
    assert_eq!(a.mse_bits(&b), Err(ImageError::GeometryMismatch));
    // and neither operand was touched
    assert_eq!(a.pixels(), &bits(&[1.0, 0.0, 0.0]));
    assert_eq!(b.pixels(), &bits(&[0.0, 0.0, 1.0, 0.0, 0.0, 0.0]));
}

#[test]
fn mse_before_the_root_is_the_mean_of_squared_differences() {
    let candidate = image(1, 1, &[0.5, 0.5, 0.5]);
    let reference = image(1, 1, &[0.0, 0.0, 0.0]);
    let d = luminance(0.5, 0.5, 0.5) - luminance(0.0, 0.0, 0.0);
    let expected = d * d / 1.0;
    let got = f32::from_bits(candidate.mse_bits(&reference).unwrap());
    assert_eq!(got, expected);
}
