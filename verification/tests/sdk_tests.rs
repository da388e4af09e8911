use handheld::sdk::{frame_count, FrameCounter};
use handheld::runtime::write_input;
use handheld::sdk;
use handheld::sdk::{
    button, button_pressed, button_released, circle, circle_fill, clear, mem_read, mem_read_u16, pixel, rect,
    rect_fill, set_palette, sprite, sprite_region, text, tilemap_clear, tilemap_draw, tilemap_get, tilemap_scroll,
    tilemap_set, tone, tone_slide, waveform_number, xorshift32, Button, GuestMemory, ToneArgs, Waveform, MEMORY_SIZE,
    SPRITE_FLIP_X,
};

fn at(mem: &GuestMemory, x: usize, y: usize) -> u8 {
    mem.as_slice()[0x300 + y * 320 + x]
}

fn lit(mem: &GuestMemory) -> Vec<(usize, usize)> {
    let mut v = Vec::new();
    for y in 0..240 {
        for x in 0..320 {
            if at(mem, x, y) != 0 {
                v.push((x, y));
            }
        }
    }
    v
}

#[test]
fn new_memory_is_zeroed() {
    let mem = GuestMemory::new();
    assert_eq!(mem.len(), MEMORY_SIZE);
    assert!(mem.as_slice().iter().all(|&b| b == 0));
    assert!(GuestMemory::from_bytes(vec![0; 10]).is_none());
    assert!(GuestMemory::from_bytes(vec![0; MEMORY_SIZE + 5]).is_some());
}

#[test]
fn clear_fills_only_the_framebuffer() {
    let mut mem = GuestMemory::new();
    clear(&mut mem, 7);
    assert_eq!(at(&mem, 0, 0), 7);
    assert_eq!(at(&mem, 319, 239), 7);
    assert_eq!(mem_read(&mem, 0x2FF), 0);
    assert_eq!(mem_read(&mem, 0x300 + 76800), 0);
}

#[test]
fn pixel_is_bounds_checked() {
    let mut mem = GuestMemory::new();
    pixel(&mut mem, 5, 6, 3);
    pixel(&mut mem, -1, 0, 3);
    pixel(&mut mem, 320, 0, 3);
    pixel(&mut mem, 0, 240, 3);
    assert_eq!(lit(&mem), vec![(5, 6)]);
}

#[test]
fn line_follows_bresenham() {
    let mut mem = GuestMemory::new();
    sdk::line(&mut mem, 0, 0, 5, 2, 1);
    let mut got = lit(&mem);
    got.sort();
    assert_eq!(got, vec![(0, 0), (1, 0), (2, 1), (3, 1), (4, 2), (5, 2)]);
    let mut mem = GuestMemory::new();
    sdk::line(&mut mem, 10, 10, 7, 14, 1);
    let mut got = lit(&mem);
    got.sort();
    assert_eq!(got, vec![(7, 14), (8, 12), (8, 13), (9, 11), (10, 10)]);
}

#[test]
fn rect_outline_and_fill() {
    let mut mem = GuestMemory::new();
    rect(&mut mem, 2, 3, 4, 3, 9);
    let got = lit(&mem);
    assert_eq!(got.len(), 10);
    assert_eq!(at(&mem, 2, 3), 9);
    assert_eq!(at(&mem, 5, 5), 9);
    assert_eq!(at(&mem, 3, 4), 0);
    let mut mem = GuestMemory::new();
    rect_fill(&mut mem, 318, 238, 5, 5, 4);
    assert_eq!(lit(&mem), vec![(318, 238), (319, 238), (318, 239), (319, 239)]);
    let mut mem = GuestMemory::new();
    rect_fill(&mut mem, 0, 0, 0, 5, 4);
    assert!(lit(&mem).is_empty());
}

#[test]
fn circle_midpoint_points() {
    let mut mem = GuestMemory::new();
    circle(&mut mem, 50, 50, 3, 2);
    let mut got = lit(&mem);
    got.sort();
    let want = vec![
        (47, 49), (47, 50), (47, 51), (48, 48), (48, 52), (49, 47), (49, 53), (50, 47), (50, 53), (51, 47), (51, 53),
        (52, 48), (52, 52), (53, 49), (53, 50), (53, 51),
    ];
    assert_eq!(got, want);
}

#[test]
fn circle_fill_is_a_disk() {
    let mut mem = GuestMemory::new();
    circle_fill(&mut mem, 10, 10, 1, 5);
    let mut got = lit(&mem);
    got.sort();
    assert_eq!(got, vec![(9, 10), (10, 9), (10, 10), (10, 11), (11, 10)]);
}

#[test]
fn palette_is_rgb565() {
    let mut mem = GuestMemory::new();
    set_palette(&mut mem, 3, 0x50, 0x78, 0xFF);
    assert_eq!(mem_read_u16(&mem, 6), 0x53DF);
    set_palette(&mut mem, 255, 255, 255, 255);
    assert_eq!(mem_read_u16(&mem, 510), 0xFFFF);
}

#[test]
fn text_draws_glyphs_six_apart() {
    let mut mem = GuestMemory::new();
    text(&mut mem, "-!", 10, 20, 1);
    let mut got = lit(&mem);
    got.sort();
    let mut want: Vec<(usize, usize)> = (10..15).map(|x| (x, 23)).collect();
    for row in [0, 1, 2, 3, 4, 6] {
        want.push((18, 20 + row));
    }
    want.sort();
    assert_eq!(got, want);
    let mut mem = GuestMemory::new();
    text(&mut mem, "\u{e9}", 0, 0, 1);
    assert!(lit(&mem).is_empty());
}

#[test]
fn sprites_are_transparent_and_flip() {
    let mut mem = GuestMemory::new();
    let mut bytes = mem.as_slice().to_vec();
    // tile 1 starts at column 8 of the sheet
    bytes[0x14200 + 8] = 6;
    bytes[0x14200 + 9] = 7;
    let mut mem = GuestMemory::from_bytes(bytes).unwrap();
    sprite(&mut mem, 1, 100, 50, 0);
    assert_eq!(lit(&mem), vec![(100, 50), (101, 50)]);
    assert_eq!(at(&mem, 101, 50), 7);
    clear(&mut mem, 0);
    sprite(&mut mem, 1, 100, 50, SPRITE_FLIP_X);
    assert_eq!(lit(&mem), vec![(106, 50), (107, 50)]);
    assert_eq!(at(&mem, 106, 50), 7);
    clear(&mut mem, 0);
    sprite_region(&mut mem, 8, 0, 2, 1, -1, 0, 0);
    assert_eq!(lit(&mem), vec![(0, 0)]);
    assert_eq!(at(&mem, 0, 0), 7);
}

#[test]
fn tilemap_set_get_and_bounds() {
    let mut mem = GuestMemory::new();
    tilemap_set(&mut mem, 3, 2, 0x1234);
    assert_eq!(tilemap_get(&mem, 3, 2), 0x1234);
    assert_eq!(tilemap_get(&mem, 2, 3), 0);
    tilemap_set(&mut mem, 40, 0, 9);
    tilemap_set(&mut mem, 0, 30, 9);
    assert_eq!(tilemap_get(&mem, 40, 0), 0);
    assert_eq!(mem_read_u16(&mem, 0x18200 + (2 * 40 + 3) * 2), 0x1234);
    tilemap_scroll(&mut mem, -3, 5);
    assert_eq!(&mem.as_slice()[0x18B60..0x18B68], &[0xFD, 0xFF, 0xFF, 0xFF, 5, 0, 0, 0]);
    tilemap_clear(&mut mem);
    assert_eq!(tilemap_get(&mem, 3, 2), 0);
    assert_eq!(&mem.as_slice()[0x18B60..0x18B68], &[0; 8]);
}

#[test]
fn tilemap_draw_uses_scroll() {
    let mut bytes = GuestMemory::new().as_slice().to_vec();
    bytes[0x14200 + 8] = 4; // tile 1, top-left pixel
    let mut mem = GuestMemory::from_bytes(bytes).unwrap();
    tilemap_set(&mut mem, 2, 1, 1);
    tilemap_draw(&mut mem);
    assert_eq!(lit(&mem), vec![(16, 8)]);
    clear(&mut mem, 0);
    tilemap_scroll(&mut mem, 4, -2);
    tilemap_draw(&mut mem);
    assert_eq!(lit(&mem), vec![(12, 10)]);
}

#[test]
fn buttons_read_edges() {
    let mut mem = GuestMemory::new();
    write_input(&mut mem, 0x0011, 0x0001);
    assert!(button(&mem, Button::Up));
    assert!(button(&mem, Button::A));
    assert!(!button(&mem, Button::Down));
    assert!(button_pressed(&mem, Button::A));
    assert!(!button_pressed(&mem, Button::Up));
    assert!(!button_released(&mem, Button::Up));
    write_input(&mut mem, 0x0000, 0x0011);
    assert!(button_released(&mem, Button::A));
    assert!(!button_pressed(&mem, Button::A));
    write_input(&mut mem, 0x0800, 0);
    assert!(button_pressed(&mem, Button::R));
}

#[test]
fn tones_pack_their_arguments() {
    assert_eq!(
        tone(2, 440, 100, 200, Waveform::Triangle),
        Some(ToneArgs { channel: 2, frequency: 440, duration: 100, volume: 200, waveform: 2 })
    );
    assert_eq!(tone(4, 440, 100, 200, Waveform::Triangle), None);
    assert_eq!(
        tone_slide(1, 0x1_0200, 0x300, 50, 10, Waveform::Sawtooth),
        Some(ToneArgs { channel: 0x81, frequency: 0x0300_0200, duration: 50, volume: 10, waveform: 4 })
    );
    assert_eq!(tone_slide(9, 1, 2, 3, 4, Waveform::Noise), None);
    assert_eq!(waveform_number(Waveform::Pulse25), 0);
    assert_eq!(waveform_number(Waveform::Noise), 3);
}

#[test]
fn xorshift_known_values() {
    assert_eq!(xorshift32(12345), 3336926330);
    assert_eq!(xorshift32(3336926330), 1697253807);
    assert_eq!(xorshift32(1), 270369);
    assert_eq!(xorshift32(0), 0);
}

#[test]
fn drawing_leaves_other_memory_alone() {
    let mut bytes = vec![0u8; MEMORY_SIZE];
    for (i, b) in bytes.iter_mut().enumerate() {
        *b = (i % 251) as u8;
    }
    let mut mem = GuestMemory::from_bytes(bytes.clone()).unwrap();
    clear(&mut mem, 1);
    pixel(&mut mem, -5, 3, 2);
    sdk::line(&mut mem, -100, -100, 400, 300, 3);
    rect(&mut mem, -10, -10, 400, 300, 4);
    rect_fill(&mut mem, 300, 200, 100, 100, 5);
    circle(&mut mem, 0, 0, 500, 6);
    circle_fill(&mut mem, 319, 239, 30, 7);
    text(&mut mem, "edge text", 300, 235, 8);
    sprite(&mut mem, 5, 316, 236, 3);
    tilemap_draw(&mut mem);
    let after = mem.as_slice();
    for i in 0..MEMORY_SIZE {
        if !(0x300..0x300 + 76800).contains(&i) {
            assert_eq!(after[i], bytes[i], "byte {i}");
        }
    }
}

#[test]
fn frame_counter_counts_ticks() {
    let mut c = FrameCounter::new();
    assert_eq!(frame_count(&c), 0);
    c.tick();
    c.tick();
    c.tick();
    assert_eq!(frame_count(&c), 3);
}

#[test]
fn tiles_survive_drawing_and_other_tiles() {
    let mut mem = GuestMemory::new();
    tilemap_set(&mut mem, 7, 3, 42);
    clear(&mut mem, 5);
    rect(&mut mem, 0, 0, 320, 240, 1);
    text(&mut mem, "tiles", 4, 4, 2);
    set_palette(&mut mem, 3, 10, 20, 30);
    tilemap_scroll(&mut mem, -8, 16);
    tilemap_set(&mut mem, 8, 3, 9);
    tilemap_draw(&mut mem);
    assert_eq!(tilemap_get(&mem, 7, 3), 42);
    assert_eq!(tilemap_get(&mem, 8, 3), 9);
    assert_eq!(tilemap_get(&mem, 40, 3), 0);
    assert_eq!(tilemap_get(&mem, 7, 30), 0);
}
