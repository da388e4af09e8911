use handheld::input::{init_outcome, InitError};
use handheld::input::{input_device, VIRTIO_DEV_INPUT, VIRTIO_MAGIC};
use handheld::input::{find_input_device, PROBE_BASE};
use handheld::input::features_accepted;
use handheld::input::{event_descriptor, queue_layout, QueueLayout, VirtqDesc};
use handheld::input::{keycode_to_button, InputEvent, VirtioInput, EV_KEY, KEY_ENTER, KEY_Q, KEY_UP, KEY_W, KEY_Z};

fn key(code: u16, value: u32) -> InputEvent {
    InputEvent { ev_type: EV_KEY, code, value }
}

#[test]
fn key_mapping() {
    assert_eq!(keycode_to_button(KEY_UP), Some(1));
    assert_eq!(keycode_to_button(KEY_W), Some(1));
    assert_eq!(keycode_to_button(108), Some(2));
    assert_eq!(keycode_to_button(31), Some(2));
    assert_eq!(keycode_to_button(105), Some(4));
    assert_eq!(keycode_to_button(30), Some(4));
    assert_eq!(keycode_to_button(106), Some(8));
    assert_eq!(keycode_to_button(32), Some(8));
    assert_eq!(keycode_to_button(57), Some(16));
    assert_eq!(keycode_to_button(KEY_Z), Some(16));
    assert_eq!(keycode_to_button(KEY_ENTER), Some(256));
    assert_eq!(keycode_to_button(KEY_Q), None);
    assert_eq!(keycode_to_button(1), None);
}

#[test]
fn press_and_release() {
    let mut k = VirtioInput::new();
    k.handle_event(key(KEY_UP, 1));
    k.handle_event(key(KEY_ENTER, 1));
    assert_eq!(k.buttons(), 257);
    k.handle_event(key(KEY_UP, 2));
    assert_eq!(k.buttons(), 257);
    k.handle_event(key(KEY_UP, 0));
    assert_eq!(k.buttons(), 256);
    k.handle_event(InputEvent { ev_type: 2, code: KEY_ENTER, value: 0 });
    assert_eq!(k.buttons(), 256);
    assert!(!k.quit_requested());
}

#[test]
fn q_asks_to_quit() {
    let mut k = VirtioInput::new();
    k.handle_event(key(KEY_Q, 0));
    assert!(!k.quit_requested());
    k.handle_event(key(KEY_Q, 1));
    assert!(k.quit_requested());
    assert_eq!(k.buttons(), 0);
    k.clear_quit();
    assert!(!k.quit_requested());
}

fn identity_ring() -> Vec<u32> {
    (0..16).collect()
}

#[test]
fn poll_reads_the_ring_in_order() {
    let mut slots = vec![InputEvent { ev_type: 0, code: 0, value: 0 }; 16];
    slots[0] = key(KEY_UP, 1);
    slots[1] = key(KEY_Z, 1);
    slots[2] = key(KEY_UP, 0);
    let ring = identity_ring();
    let mut k = VirtioInput::new();
    assert_eq!(k.poll_events(2, &ring, &slots), vec![0, 1]);
    assert_eq!(k.buttons(), 17);
    assert_eq!(k.poll_events(2, &ring, &slots), Vec::<u16>::new());
    assert_eq!(k.poll_events(3, &ring, &slots), vec![2]);
    assert_eq!(k.buttons(), 16);
}

#[test]
fn poll_reads_events_by_descriptor_id() {
    let mut events = vec![InputEvent { ev_type: 0, code: 0, value: 0 }; 16];
    events[5] = key(KEY_ENTER, 1);
    events[9] = key(KEY_UP, 1);
    events[3] = key(KEY_ENTER, 0);
    let mut ring = vec![0u32; 16];
    ring[0] = 9;
    ring[1] = 5;
    ring[2] = 3;
    let mut k = VirtioInput::new();
    assert_eq!(k.poll_events(2, &ring, &events), vec![9, 5]);
    assert_eq!(k.buttons(), 0x101);
    assert_eq!(k.poll_events(3, &ring, &events), vec![3]);
    assert_eq!(k.buttons(), 1);
}

#[test]
fn poll_wraps_around_the_index() {
    let mut slots = vec![InputEvent { ev_type: 0, code: 0, value: 0 }; 16];
    slots[15] = key(KEY_UP, 1);
    slots[0] = key(KEY_W, 0);
    slots[1] = key(KEY_Z, 1);
    let ring = identity_ring();
    let mut k = VirtioInput::new();
    // read up to index 65535, which leaves the ring at slot 15
    let read = k.poll_events(65535, &ring, &[InputEvent { ev_type: 0, code: 0, value: 0 }; 16]);
    assert_eq!(read.len(), 65535);
    assert_eq!(read[16], 0);
    assert_eq!(k.poll_events(2, &ring, &slots), vec![15, 0, 1]);
    assert_eq!(k.buttons(), 16);
}

#[test]
fn setting_up_the_keyboard() {
    let found = [(0, 0), (0x74726976, 18)];
    assert_eq!(init_outcome(&[], 2, 0xF), Err(InitError::NoDevice));
    assert_eq!(init_outcome(&[(0x74726976, 16)], 1, 0), Err(InitError::NoDevice));
    assert_eq!(init_outcome(&found, 2, 0b0111), Err(InitError::FeaturesRejected));
    assert_eq!(init_outcome(&found, 2, 0b1011), Ok(0x10002000));
    assert_eq!(init_outcome(&found, 1, 0), Ok(0x10002000));
    assert_eq!(InitError::NoDevice.message(), "No virtio-input device found");
    assert_eq!(InitError::FeaturesRejected.message(), "VirtIO features negotiation failed");
}

#[test]
fn queue_layouts() {
    assert_eq!(queue_layout(16, 1), QueueLayout { size: 16, avail_offset: 256, used_offset: 4096, buffer_len: 12288 });
    assert_eq!(queue_layout(64, 2), QueueLayout { size: 16, avail_offset: 256, used_offset: 296, buffer_len: 4524 });
    assert_eq!(queue_layout(8, 2), QueueLayout { size: 8, avail_offset: 128, used_offset: 152, buffer_len: 4316 });
    assert_eq!(event_descriptor(3, 0x8000_0000), VirtqDesc { addr: 0x8000_0018, len: 8, flags: 2, next: 0 });
}

#[test]
fn input_device_is_recognised_by_magic_and_id() {
    assert_eq!(VIRTIO_MAGIC, 0x74726976);
    assert!(input_device(0x74726976, 18));
    assert!(input_device(VIRTIO_MAGIC, VIRTIO_DEV_INPUT));
    assert!(!input_device(0x74726976, 16));
    assert!(!input_device(0, 18));
}

#[test]
fn probing_finds_the_first_input_slot() {
    let none: [(u32, u32); 0] = [];
    assert_eq!(find_input_device(&none), None);
    let slots = [(0x74726976, 1), (0, 18), (0x74726976, 18), (0x74726976, 18)];
    assert_eq!(find_input_device(&slots), Some(PROBE_BASE + 0x2000));
    assert_eq!(find_input_device(&slots), Some(0x10003000));
    let empty = [(0x74726976, 0); 8];
    assert_eq!(find_input_device(&empty), None);
    let last = [(0, 0), (0, 0), (0, 0), (0, 0), (0, 0), (0, 0), (0, 0), (0x74726976, 18)];
    assert_eq!(find_input_device(&last), Some(0x10008000));
}

#[test]
fn features_ok_is_checked_on_the_status_read_back() {
    assert!(features_accepted(0b1011));
    assert!(features_accepted(8));
    assert!(!features_accepted(0b0011));
    assert!(!features_accepted(0));
}

#[test]
fn keyboard_follows_latest_press_over_many_events() {
    let mut k = VirtioInput::new();
    k.handle_event(key(KEY_UP, 1));
    k.handle_event(key(KEY_W, 0));
    assert_eq!(k.buttons(), 0);
    k.handle_event(key(KEY_W, 1));
    k.handle_event(key(KEY_ENTER, 1));
    k.handle_event(key(KEY_UP, 2));
    assert_eq!(k.buttons(), 0x101);
    k.handle_event(key(200, 1));
    assert_eq!(k.buttons() & !0x11F, 0);
    assert!(!k.quit_requested());
    k.handle_event(key(KEY_Q, 1));
    k.handle_event(key(KEY_Q, 0));
    assert!(k.quit_requested());
    assert_eq!(k.buttons(), 0x101);
}
