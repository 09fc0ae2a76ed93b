use whstlrs::color::{pack_rgba, unpack_rgba};

#[test]
fn packs_red_in_the_high_byte() {
    assert_eq!(pack_rgba(0x12, 0x34, 0x56, 0x78), 0x12345678);
    assert_eq!(pack_rgba(255, 0, 0, 255), 0xFF0000FF);
    assert_eq!(pack_rgba(0, 0, 0, 0), 0);
}

#[test]
fn packing_round_trips_every_channel() {
    for &(r, g, b, a) in
        &[(0u8, 0u8, 0u8, 0u8), (255, 255, 255, 255), (1, 2, 3, 4), (200, 100, 50, 25)]
    {
        assert_eq!(unpack_rgba(pack_rgba(r, g, b, a)), (r, g, b, a));
    }
}

#[test]
fn rounded_opacity_scales_to_the_low_byte() {
    // An opacity of 0.5 rounds to 128 of 255; the packed colour keeps it
    // as the low byte.
    let a = (0.5f32 * 255.0).round() as u8;
    assert_eq!(a, 128);
    assert_eq!(pack_rgba(0, 0, 0, a) & 0xFF, 128);
}
