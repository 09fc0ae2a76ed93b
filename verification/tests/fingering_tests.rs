use whstlrs::sheet::SheetRenderer;

fn key_holes(key: u8) -> u16 {
    SheetRenderer::note2holes(&SheetRenderer::midi2note(key))
}

#[test]
fn maps_keys_to_note_names() {
    assert_eq!(SheetRenderer::midi2note(62), "D");
    assert_eq!(SheetRenderer::midi2note(66), "F#");
    assert_eq!(SheetRenderer::midi2note(74), "D'");
    assert_eq!(SheetRenderer::midi2note(86), "D''");
    assert_eq!(SheetRenderer::midi2note(63), "?");
    assert_eq!(SheetRenderer::midi2note(0), "?");
}

#[test]
fn fingering_table_composition() {
    // Every key of the playable range composes to the authored bitmask.
    let expected: &[(u8, u16)] = &[
        (62, 0b0111111),
        (64, 0b0111110),
        (65, 0b0111101),
        (66, 0b0111100),
        (67, 0b0111000),
        (68, 0b0110111),
        (69, 0b0110000),
        (70, 0b0101111),
        (71, 0b0100000),
        (72, 0b0011000),
        (73, 0b0000000),
        (74, 0b1011111),
        (76, 0b1111110),
        (77, 0b1111101),
        (78, 0b1111100),
        (79, 0b1111000),
        (80, 0b1110111),
        (81, 0b1110000),
        (82, 0b1101111),
        (83, 0b1100000),
        (84, 0b1011100),
        (85, 0b1000000),
        (86, 0b1011111),
    ];
    for &(key, holes) in expected {
        assert_eq!(key_holes(key), holes, "key {}", key);
    }
}

#[test]
fn keys_outside_the_set_finger_nothing() {
    for key in [0u8, 61, 63, 75, 87, 100, 255] {
        assert_eq!(key_holes(key), 0, "key {}", key);
    }
}

#[test]
fn unknown_note_names_finger_nothing() {
    assert_eq!(SheetRenderer::note2holes("?"), 0);
    assert_eq!(SheetRenderer::note2holes(""), 0);
    assert_eq!(SheetRenderer::note2holes("H"), 0);
}
