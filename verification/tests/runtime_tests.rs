use handheld::runtime::{read_input, HostKey};
use handheld::cart::CartWriter;
use handheld::launcher::Launcher;
use handheld::runtime::{
    cart_names, cart_title, decode_tone, default_palette, game_name_bytes, latch_input, read_palette,
    read_palette_channels, render_frame, rgb565_to_rgb888, rgb888_to_rgb565, write_input, write_names,
    write_palette, PendingLaunch, RuntimeAction, ToneCommand,
};
use handheld::sdk::{button_pressed, mem_read, mem_read_u16, pixel, set_palette, tone, tone_slide, Button, GuestMemory, Waveform};

#[test]
fn rgb565_expands_to_rgb888() {
    assert_eq!(rgb565_to_rgb888(0xF800), 0xFF0000);
    assert_eq!(rgb565_to_rgb888(0x07E0), 0x00FF00);
    assert_eq!(rgb565_to_rgb888(0x001F), 0x0000FF);
    assert_eq!(rgb565_to_rgb888(0xFFFF), 0xFFFFFF);
    assert_eq!(rgb565_to_rgb888(0x1234), 0x1044A4);
    assert_eq!(rgb565_to_rgb888(0), 0);
}

#[test]
fn rgb888_packs_to_rgb565() {
    assert_eq!(rgb888_to_rgb565(0x00C850), 0x064A);
    assert_eq!(rgb888_to_rgb565(0x5078FF), 0x53DF);
    assert_eq!(rgb888_to_rgb565(0xFFFFFF), 0xFFFF);
    assert_eq!(rgb565_to_rgb888(rgb888_to_rgb565(0x5078FF)), 0x5279FF);
}

#[test]
fn default_palette_colors() {
    let p = default_palette();
    assert_eq!(p.len(), 256);
    assert_eq!(p[1], 0xFFFFFF);
    assert_eq!(p[15], 0x008080);
    assert_eq!(p[16], 0x000000);
    assert_eq!(p[17], 0x010101);
    assert_eq!(p[100], 0x595959);
    assert_eq!(p[255], 0xFFFFFF);
}

#[test]
fn palette_written_is_read_back() {
    let mut mem = GuestMemory::new();
    write_palette(&mut mem, &default_palette());
    assert_eq!(mem_read_u16(&mem, 4), 0x064A);
    let shown = read_palette(&mem);
    assert_eq!(shown[2], rgb565_to_rgb888(0x064A));
    assert_eq!(shown[1], 0xFFFFFF);
    set_palette(&mut mem, 7, 255, 0, 0);
    assert_eq!(read_palette(&mem)[7], 0xFF0000);
    assert_eq!(read_palette_channels(&mem)[7], (255, 0, 0));
    assert_eq!(read_palette_channels(&mem)[1], (255, 255, 255));
}

#[test]
fn frames_render_through_the_palette() {
    let mut mem = GuestMemory::new();
    set_palette(&mut mem, 3, 0, 0, 255);
    pixel(&mut mem, 2, 1, 3);
    let out = render_frame(&mem);
    assert_eq!(out.len(), 76800);
    assert_eq!(out[322], 0x0000FF);
    assert_eq!(out[0], 0);
}

#[test]
fn input_registers_reach_the_game() {
    let mut mem = GuestMemory::new();
    write_input(&mut mem, 0x0110, 0x0100);
    assert_eq!(&mem.as_slice()[0x200..0x204], &[0x10, 0x01, 0x00, 0x01]);
    assert!(button_pressed(&mem, Button::A));
    assert!(!button_pressed(&mem, Button::Start));
    latch_input(&mut mem, 0x0001);
    assert_eq!(mem_read_u16(&mem, 0x200), 0x0001);
    assert_eq!(mem_read_u16(&mem, 0x202), 0x0110);
}

#[test]
fn names_roundtrip_through_memory() {
    let names: Vec<String> = vec!["Hello".into(), "A name that is longer than thirty-one bytes".into()];
    let mut mem = GuestMemory::new();
    write_names(&mut mem, &names);
    assert_eq!(mem_read_u16(&mem, 0x210), 2);
    assert_eq!(mem_read(&mem, 0x214), 5);
    assert_eq!(mem_read(&mem, 0x234), 31);
    let launcher = Launcher::init(&mut mem, 2, &[Vec::new(), Vec::new()]);
    let mut mem2 = GuestMemory::new();
    launcher.draw(&mut mem2, 0);
    // the name list is what the launcher knows of the games
    let mut mem3 = GuestMemory::new();
    let names3: Vec<String> = vec!["Hello".into()];
    write_names(&mut mem3, &names3);
    let l3 = Launcher::init(&mut mem3, 5, &[Vec::new()]);
    let mut a = GuestMemory::new();
    let mut b = GuestMemory::new();
    l3.draw(&mut a, 0);
    let l4 = Launcher::init(&mut GuestMemory::new(), 1, &[b"Hello".to_vec()]);
    l4.draw(&mut b, 0);
    assert_eq!(a.as_slice(), b.as_slice());
}

#[test]
fn at_most_sixteen_names_are_stored() {
    let names: Vec<String> = (0..20).map(|i| format!("g{i}")).collect();
    let mut mem = GuestMemory::new();
    write_names(&mut mem, &names);
    assert_eq!(mem_read_u16(&mem, 0x210), 16);
    assert_eq!(mem_read(&mem, 0x214 + 15 * 32), 3);
    assert_eq!(mem_read(&mem, 0x214 + 16 * 32), 0);
}

#[test]
fn game_names_for_the_host_call() {
    let names: Vec<String> = vec!["Snake".into(), "Hi".into()];
    assert_eq!(game_name_bytes(&names, 0, 32), b"Snake".to_vec());
    assert_eq!(game_name_bytes(&names, 0, 3), b"Sna".to_vec());
    assert_eq!(game_name_bytes(&names, 2, 32), Vec::<u8>::new());
}

#[test]
fn tone_calls_decode() {
    let a = tone(2, 440, 100, 200, Waveform::Triangle).unwrap();
    assert_eq!(
        decode_tone(a.channel, a.frequency, a.duration, a.volume, a.waveform),
        Some(ToneCommand {
            channel: 2,
            slide: false,
            freq_start: 440,
            freq_end: 440,
            duration_ms: 100,
            volume: 200,
            waveform: 2
        })
    );
    let s = tone_slide(3, 220, 880, 10, 5, Waveform::Pulse50).unwrap();
    assert_eq!(
        decode_tone(s.channel, s.frequency, s.duration, s.volume, s.waveform),
        Some(ToneCommand {
            channel: 3,
            slide: true,
            freq_start: 220,
            freq_end: 880,
            duration_ms: 10,
            volume: 5,
            waveform: 1
        })
    );
    assert_eq!(decode_tone(4, 1, 1, 1, 1), None);
    assert_eq!(decode_tone(0x84, 1, 1, 1, 1), None);
    assert_eq!(decode_tone(0x100, 1, 1, 1, 0x105).unwrap().waveform, 5);
}

fn cart(name: Option<&str>, wasm: bool) -> Vec<u8> {
    let mut w = CartWriter::new();
    if let Some(n) = name {
        w.set_meta(n, "me", "1");
    }
    if wasm {
        w.set_wasm(&[0, 97, 115, 109]);
    }
    w.build()
}

#[test]
fn cart_titles() {
    assert_eq!(cart_title(&cart(Some("Snake"), true), "file"), Some("Snake".to_string()));
    let mut no_meta = cart(None, true);
    no_meta[8] = 9; // the metadata section becomes one of an unknown type
    assert_eq!(cart_title(&no_meta, "file"), Some("file".to_string()));
    assert_eq!(cart_title(b"junk", "file"), None);
    let a = cart(Some("Snake"), true);
    let c: Vec<&[u8]> = vec![a.as_slice(), &b"junk"[..]];
    assert_eq!(cart_names(&c), vec!["Snake".to_string(), "Unknown".to_string()]);
}

#[test]
fn launch_requests() {
    let good = cart(Some("G"), true);
    let mut no_wasm = cart(Some("N"), true);
    no_wasm[20] = 9; // the module section becomes one of an unknown type
    let carts: Vec<&[u8]> = vec![good.as_slice(), no_wasm.as_slice()];
    let mut p = PendingLaunch::new();
    assert_eq!(p.take(&carts), None);
    p.request_launch(0);
    assert_eq!(p.take(&carts), Some(RuntimeAction::LaunchGame(0)));
    assert_eq!(p.take(&carts), None);
    p.request_launch(1);
    assert_eq!(p.take(&carts), None);
    p.request_launch(7);
    assert_eq!(p.take(&carts), None);
    p.request_quit();
    assert_eq!(p.take(&carts), Some(RuntimeAction::ReturnToLauncher));
    assert_eq!(p.take(&carts), None);
    // an index past i32::MAX reads as -2 in the signed register
    p.request_launch(0xFFFF_FFFE);
    assert_eq!(p.take(&carts), Some(RuntimeAction::ReturnToLauncher));
}

#[test]
fn desktop_keys_to_buttons() {
    assert_eq!(read_input(&[]), 0);
    assert_eq!(read_input(&[HostKey::Up, HostKey::Space]), 17);
    assert_eq!(read_input(&[HostKey::Z, HostKey::Space]), 16);
    assert_eq!(read_input(&[HostKey::Backspace, HostKey::Q, HostKey::W, HostKey::Enter]), 512 + 1024 + 2048 + 256);
    assert_eq!(read_input(&[HostKey::X, HostKey::A, HostKey::S]), 32 + 64 + 128);
}
