use fastvect::simd::{byte_sums, dot_product_f8};

/// Integer accumulation of the 8-bit quantized dot product, over a length
/// that is not a multiple of any register width.
#[test]
fn test_simd_dot_product_f8_integer_accumulation() {
    let bytes_a = vec![255u8; 35];
    let bytes_b = vec![2u8; 35];

    let mut expected_sums = (0u32, 0u32, 0u32);
    for (&x, &y) in bytes_a.iter().zip(bytes_b.iter()) {
        expected_sums.0 += (x as u32) * (y as u32);
        expected_sums.1 += x as u32;
        expected_sums.2 += y as u32;
    }

    let mut simd_sums = (0u32, 0u32, 0u32);
    dot_product_f8(&bytes_a, &bytes_b, &mut simd_sums);
    assert_eq!(
        simd_sums.0, expected_sums.0,
        "AVX2 F8 cross-product accumulation failure!"
    );
    assert_eq!(
        simd_sums.1, expected_sums.1,
        "AVX2 F8 vector A horizontal sum failure!"
    );
    assert_eq!(
        simd_sums.2, expected_sums.2,
        "AVX2 F8 vector B horizontal sum failure!"
    );
}

#[test]
fn dot_product_f8_adds_to_running_sums() {
    let mut sums = (10u32, 20u32, 30u32);
    dot_product_f8(&[1, 2, 3], &[4, 5, 6, 7], &mut sums);
    assert_eq!(sums, (10 + 4 + 10 + 18, 20 + 6, 30 + 15));
}

#[test]
fn byte_sums_exact_values() {
    assert_eq!(byte_sums(&[1, 2, 3], &[4, 5, 6]), Some((32, 6, 15)));
    assert_eq!(byte_sums(&[], &[]), Some((0, 0, 0)));
}

#[test]
fn byte_sums_reports_overflow() {
    // 70_000 * 255 * 255 exceeds u32::MAX.
    let a = vec![255u8; 70_000];
    assert_eq!(byte_sums(&a, &a), None);
}
