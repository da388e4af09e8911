use handheld::hello;
use handheld::launcher::Launcher;
use handheld::runtime::write_input;
use handheld::sdk::{mem_read_u16, text, GuestMemory};
use handheld::snake::{draw_number, init, SnakeGame};

fn frame_of(mem: &GuestMemory) -> &[u8] {
    &mem.as_slice()[0x300..0x300 + 76800]
}

fn press(mem: &mut GuestMemory, bits: u16) {
    write_input(mem, bits, 0);
}

fn release(mem: &mut GuestMemory) {
    write_input(mem, 0, 0);
}

#[test]
fn numbers_are_drawn_as_text() {
    let mut a = GuestMemory::new();
    let mut b = GuestMemory::new();
    draw_number(&mut a, 4096, 10, 10, 1);
    text(&mut b, "4096", 10, 10, 1);
    assert_eq!(a.as_slice(), b.as_slice());
    let mut a = GuestMemory::new();
    let mut b = GuestMemory::new();
    draw_number(&mut a, 0, 3, 4, 2);
    text(&mut b, "0", 3, 4, 2);
    assert_eq!(a.as_slice(), b.as_slice());
    let mut a = GuestMemory::new();
    let mut b = GuestMemory::new();
    draw_number(&mut a, u32::MAX, 0, 0, 2);
    text(&mut b, "4294967295", 0, 0, 2);
    assert_eq!(a.as_slice(), b.as_slice());
}

#[test]
fn snake_palette() {
    let mut mem = GuestMemory::new();
    init(&mut mem);
    assert_eq!(mem_read_u16(&mem, 2), 0xDEFB);
    assert_eq!(mem_read_u16(&mem, 20), 0x05A7);
}

#[test]
fn snake_starts_on_start_and_moves_every_eighth_frame() {
    let mut mem = GuestMemory::new();
    let mut g = SnakeGame::new();
    let mut title = GuestMemory::new();
    g.draw(&mut title, 0);
    g.update(&mem, 0);
    let mut still = GuestMemory::new();
    g.draw(&mut still, 0);
    assert_eq!(frame_of(&title), frame_of(&still));
    press(&mut mem, 256);
    g.update(&mem, 100);
    release(&mut mem);
    let mut first = GuestMemory::new();
    g.draw(&mut first, 0);
    // head cell (20, 14) is drawn full at (160, 128)
    assert_eq!(first.as_slice()[0x300 + 128 * 320 + 160], 2);
    assert_eq!(first.as_slice()[0x300 + 128 * 320 + 168], 0);
    for _ in 0..7 {
        g.update(&mem, 100);
    }
    let mut same = GuestMemory::new();
    g.draw(&mut same, 0);
    assert_eq!(frame_of(&first), frame_of(&same));
    g.update(&mem, 100);
    let mut moved = GuestMemory::new();
    g.draw(&mut moved, 0);
    // the head has moved one cell right
    assert_eq!(moved.as_slice()[0x300 + 128 * 320 + 168], 2);
    assert_eq!(moved.as_slice()[0x300 + 128 * 320 + 160], 0);
    assert_eq!(moved.as_slice()[0x300 + 129 * 320 + 161], 10);
}

#[test]
fn snake_dies_at_the_wall() {
    let mut mem = GuestMemory::new();
    let mut g = SnakeGame::new();
    press(&mut mem, 16);
    g.update(&mem, 7);
    release(&mut mem);
    // 20 cells to the right wall, one move every 8 frames
    for _ in 0..(8 * 25) {
        g.update(&mem, 7);
    }
    let mut over = GuestMemory::new();
    g.draw(&mut over, 0);
    let mut game_over_text = GuestMemory::new();
    text(&mut game_over_text, "GAME OVER", 112, 90, 5);
    let row = 0x300 + 90 * 320;
    assert_eq!(&over.as_slice()[row + 112..row + 170], &game_over_text.as_slice()[row + 112..row + 170]);
}

#[test]
fn snake_cannot_reverse() {
    let mut mem = GuestMemory::new();
    let mut g = SnakeGame::new();
    press(&mut mem, 256);
    g.update(&mem, 1);
    // left is the reverse of right and is ignored
    press(&mut mem, 4);
    g.update(&mem, 1);
    release(&mut mem);
    for _ in 0..7 {
        g.update(&mem, 1);
    }
    let mut a = GuestMemory::new();
    g.draw(&mut a, 0);
    assert_eq!(a.as_slice()[0x300 + 128 * 320 + 168], 2);
}

#[test]
fn launcher_selection_wraps_and_launches() {
    let mut mem = GuestMemory::new();
    let mut l = Launcher::init(&mut mem, 3, &[b"A".to_vec(), b"B".to_vec(), b"C".to_vec()]);
    press(&mut mem, 1);
    assert_eq!(l.update(&mem), None);
    press(&mut mem, 16);
    assert_eq!(l.update(&mem), Some(2));
    press(&mut mem, 2);
    l.update(&mem);
    press(&mut mem, 256);
    assert_eq!(l.update(&mem), Some(0));
    let mut empty = Launcher::init(&mut GuestMemory::new(), 0, &[]);
    assert_eq!(empty.update(&mem), None);
}

#[test]
fn launcher_draws_menu() {
    let mut mem = GuestMemory::new();
    let l = Launcher::init(&mut mem, 1, &[b"Snake".to_vec()]);
    let mut a = GuestMemory::new();
    l.draw(&mut a, 0);
    let mut t = GuestMemory::new();
    text(&mut t, "Snake", 40, 65, 1);
    for y in 65..72 {
        for x in 40..70 {
            let i = 0x300 + y * 320 + x;
            let want = if t.as_slice()[i] != 0 { 1 } else { 3 };
            assert_eq!(a.as_slice()[i], want);
        }
    }
    // the selected row is highlighted
    assert_eq!(a.as_slice()[0x300 + 63 * 320 + 22], 3);
    let empty = Launcher::init(&mut GuestMemory::new(), 0, &[]);
    let mut b = GuestMemory::new();
    empty.draw(&mut b, 30);
    let mut t = GuestMemory::new();
    text(&mut t, "No games found", 92, 120, 1);
    let row = 0x300 + 120 * 320;
    assert_eq!(&b.as_slice()[row + 92..row + 176], &t.as_slice()[row + 92..row + 176]);
}

#[test]
fn hello_frame() {
    let mut mem = GuestMemory::new();
    hello::init(&mut mem);
    assert_eq!(mem_read_u16(&mem, 2), 0xFFFF);
    hello::draw(&mut mem);
    let fb = frame_of(&mem);
    // the filled square and its outline
    assert_eq!(fb[100 * 320 + 70], 3);
    assert_eq!(fb[90 * 320 + 60], 1);
    // the disk's center
    assert_eq!(fb[110 * 320 + 160], 4);
}

#[test]
fn numbers_near_the_right_edge_of_the_coordinate_range() {
    let mut a = GuestMemory::new();
    let mut b = GuestMemory::new();
    draw_number(&mut a, 42, i32::MAX - 12, 0, 1);
    text(&mut b, "42", i32::MAX - 12, 0, 1);
    assert_eq!(a.as_slice(), b.as_slice());
    let mut a = GuestMemory::new();
    draw_number(&mut a, 0, i32::MAX, 0, 1);
    assert_eq!(a.as_slice(), GuestMemory::new().as_slice());
}
