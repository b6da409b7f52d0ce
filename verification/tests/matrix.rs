use ledstrip::config::WS2812B_LED_MAX;
use ledstrip::error::Error;
use ledstrip::ws2812b::Matrix;
use ledstrip::ws2812b::Rgb;

#[test]
fn rgb_new_keeps_fields() {
    let c = Rgb::new(7, 8, 9);
    assert_eq!(c.r, 7);
    assert_eq!(c.g, 8);
    assert_eq!(c.b, 9);
}

#[test]
fn rgb_zero_is_black() {
    let c = Rgb::zero();
    assert_eq!(c.r, 0);
    assert_eq!(c.g, 0);
    assert_eq!(c.b, 0);
}

#[test]
fn pack_example_is_green_red_blue() {
    // (r=1, g=2, b=3) packs green-red-blue: 0x020103
    assert_eq!(Rgb::new(1, 2, 3).to_0grb(), 0x020103);
}

#[test]
fn pack_zero_is_zero() {
    assert_eq!(Rgb::zero().to_0grb(), 0);
}

#[test]
fn pack_max_fills_low_24_bits() {
    assert_eq!(Rgb::new(255, 255, 255).to_0grb(), 0x00FF_FFFF);
}

#[test]
fn pack_top_byte_always_zero() {
    assert_eq!(Rgb::new(255, 0, 0).to_0grb() >> 24, 0);
    assert_eq!(Rgb::new(0, 255, 0).to_0grb() >> 24, 0);
    assert_eq!(Rgb::new(0, 0, 255).to_0grb() >> 24, 0);
}

#[test]
fn matrix_zero_is_empty_with_full_capacity() {
    let m = Matrix::zero();
    assert_eq!(m.len, 0);
    assert_eq!(m.rgb.len(), WS2812B_LED_MAX);
    for i in 0..WS2812B_LED_MAX {
        assert_eq!(m.rgb[i], Rgb::zero());
    }
}

#[test]
fn set_raises_watermark_to_cover_index() {
    let mut m = Matrix::zero();
    assert_eq!(m.set(5, Rgb::new(1, 2, 3)), Ok(()));
    assert_eq!(m.len, 6);
    assert_eq!(m.rgb[5], Rgb::new(1, 2, 3));
}

#[test]
fn set_lower_index_keeps_watermark() {
    let mut m = Matrix::zero();
    assert_eq!(m.set(5, Rgb::new(1, 2, 3)), Ok(()));
    assert_eq!(m.set(0, Rgb::new(4, 5, 6)), Ok(()));
    assert_eq!(m.len, 6);
    assert_eq!(m.rgb[0], Rgb::new(4, 5, 6));
    assert_eq!(m.rgb[5], Rgb::new(1, 2, 3));
}

#[test]
fn set_len_monotonic_in_any_order() {
    let mut m = Matrix::zero();
    let mut last_len = m.len;
    for &i in &[3usize, 69, 0, 42, 7, 69, 1] {
        assert_eq!(m.set(i, Rgb::new(9, 9, 9)), Ok(()));
        assert!(m.len >= last_len);
        last_len = m.len;
    }
    assert_eq!(m.len, 70);
}

#[test]
fn set_out_of_bounds_is_error_and_no_change() {
    let mut m = Matrix::zero();
    assert_eq!(m.set(WS2812B_LED_MAX, Rgb::new(1, 1, 1)), Err(Error::LedIndexOutOfBounds));
    assert_eq!(m.len, 0);
    for i in 0..WS2812B_LED_MAX {
        assert_eq!(m.rgb[i], Rgb::zero());
    }
}

#[test]
fn set_to_zero_color_keeps_watermark() {
    let mut m = Matrix::zero();
    assert_eq!(m.set(2, Rgb::new(8, 8, 8)), Ok(()));
    assert_eq!(m.set(2, Rgb::zero()), Ok(()));
    assert_eq!(m.len, 3);
    assert_eq!(m.rgb[2], Rgb::zero());
}
