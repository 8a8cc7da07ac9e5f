use raytracer::color::{channel_byte, Rgb, OPAQUE};

#[test]
fn channel_in_range_is_kept() {
    assert_eq!(channel_byte(0), 0);
    assert_eq!(channel_byte(1), 1);
    assert_eq!(channel_byte(51), 51);
    assert_eq!(channel_byte(254), 254);
    assert_eq!(channel_byte(255), 255);
}

#[test]
fn channel_above_full_saturates() {
    assert_eq!(channel_byte(256), 255);
    assert_eq!(channel_byte(300), 255);
    assert_eq!(channel_byte(511), 255);
    assert_eq!(channel_byte(i32::MAX), 255);
}

#[test]
fn channel_below_zero_saturates() {
    assert_eq!(channel_byte(-1), 0);
    assert_eq!(channel_byte(-256), 0);
    assert_eq!(channel_byte(i32::MIN), 0);
}

#[test]
fn channel_never_wraps() {
    // 256 + 51 would read 51 if channels wrapped.
    assert_eq!(channel_byte(256 + 51), 255);
    assert_ne!(channel_byte(256 + 51), 51);
    assert_eq!(channel_byte(-205), 0);
}

#[test]
fn alpha_is_fully_opaque() {
    assert_eq!(OPAQUE, 0xff);
}

#[test]
fn colour_packs_red_green_blue_alpha() {
    assert_eq!(Rgb::new(1, 2, 3).to_bytes(), [1, 2, 3, 255]);
    assert_eq!(Rgb::new(255, 63, 63).to_bytes(), [255, 63, 63, 255]);
}

#[test]
fn colour_packs_each_channel_saturated() {
    assert_eq!(Rgb::new(-7, 128, 900).to_bytes(), [0, 128, 255, 255]);
    assert_eq!(Rgb::new(256, -1, 0).to_bytes(), [255, 0, 0, 255]);
}

#[test]
fn splat_fills_every_channel() {
    assert_eq!(Rgb::splat(51), Rgb::new(51, 51, 51));
    assert_eq!(Rgb::splat(51).to_bytes(), [51, 51, 51, 255]);
    let c = Rgb::splat(-3);
    assert_eq!((c.r, c.g, c.b), (-3, -3, -3));
}

#[test]
fn ambient_floor_packs_to_51() {
    let ambient: f32 = 0.2;
    let scaled = (ambient * 255.0) as i32;
    assert_eq!(Rgb::splat(scaled).to_bytes(), [51, 51, 51, 255]);
}

#[test]
fn saturating_matches_a_direct_byte_conversion() {
    let samples: [f32; 9] = [-3.0, -0.001, 0.0, 0.2, 0.25, 0.999, 1.0, 1.2, 4.0e9];
    for c in samples {
        let direct = (c * 255.0) as u8;
        assert_eq!(channel_byte((c * 255.0) as i32), direct);
    }
    assert_eq!(channel_byte((f32::NAN * 255.0) as i32), (f32::NAN * 255.0) as u8);
}
