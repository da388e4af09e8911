//! The keyboard side of the console: Linux key events, as a VirtIO input
//! device delivers them, turned into the button bits games read.
//!
//! The device's queues live in memory shared with it; reading them and
//! handing descriptors back is the caller's part. What the events do to the
//! buttons is decided here.
use vstd::prelude::*;

verus! {

/// Event type of key presses and releases.
pub const EV_KEY: u16 = 1;

/// Slots in the device's rings.
pub const QUEUE_SIZE: u16 = 16;

pub const KEY_Q: u16 = 16;
pub const KEY_W: u16 = 17;
pub const KEY_A: u16 = 30;
pub const KEY_S: u16 = 31;
pub const KEY_D: u16 = 32;
pub const KEY_Z: u16 = 44;
pub const KEY_SPACE: u16 = 57;
pub const KEY_ENTER: u16 = 28;
pub const KEY_UP: u16 = 103;
pub const KEY_DOWN: u16 = 108;
pub const KEY_LEFT: u16 = 105;
pub const KEY_RIGHT: u16 = 106;

/// The button bit a key drives: arrows or WASD for the pad, space or Z for
/// A, Enter for Start.
pub open spec fn key_bit(code: u16) -> Option<u16> {
    if code == KEY_UP || code == KEY_W {
        Some(1)
    } else if code == KEY_DOWN || code == KEY_S {
        Some(2)
    } else if code == KEY_LEFT || code == KEY_A {
        Some(4)
    } else if code == KEY_RIGHT || code == KEY_D {
        Some(8)
    } else if code == KEY_SPACE || code == KEY_Z {
        Some(16)
    } else if code == KEY_ENTER {
        Some(256)
    } else {
        None
    }
}

/// The button bit for a Linux key code, if the key drives one.
pub fn keycode_to_button(code: u16) -> (r: Option<u16>)
    ensures
        r == key_bit(code),
{
    match code {
        KEY_UP | KEY_W => Some(1),
        KEY_DOWN | KEY_S => Some(2),
        KEY_LEFT | KEY_A => Some(4),
        KEY_RIGHT | KEY_D => Some(8),
        KEY_SPACE | KEY_Z => Some(16),
        KEY_ENTER => Some(256),
        _ => None,
    }
}

/// One input event: type, code and value (1 press, 0 release, 2 repeat).
#[derive(Clone, Copy, Debug, PartialEq, Eq, Structural)]
pub struct InputEvent {
    pub ev_type: u16,
    pub code: u16,
    pub value: u32,
}

/// The state of the keyboard: held buttons, whether quit was asked for,
/// and how far the used ring has been read.
pub struct InputState {
    pub buttons: u16,
    pub quit: bool,
    pub last_seen_used: u16,
}

/// What one event does to the buttons and the quit request: `Q` pressed
/// asks to quit; a mapped key pressed sets its bit, released clears it;
/// anything else changes nothing.
pub open spec fn event_step(buttons: u16, quit: bool, ev: InputEvent) -> (u16, bool) {
    if ev.ev_type == EV_KEY {
        if ev.code == KEY_Q && ev.value == 1 {
            (buttons, true)
        } else {
            match key_bit(ev.code) {
                Some(b) => if ev.value == 1 {
                    (buttons | b, quit)
                } else if ev.value == 0 {
                    (buttons & !b, quit)
                } else {
                    (buttons, quit)
                },
                None => (buttons, quit),
            }
        }
    } else {
        (buttons, quit)
    }
}

/// The state after reading `n` more entries of the used ring, whose event
/// at ring slot `i` is `slots[i]`.
pub open spec fn read_events(s: InputState, slots: Seq<InputEvent>, n: nat) -> InputState
    decreases n,
{
    if n == 0 {
        s
    } else {
        let before = read_events(s, slots, (n - 1) as nat);
        let ev = slots[(before.last_seen_used % QUEUE_SIZE) as int];
        let (b, q) = event_step(before.buttons, before.quit, ev);
        InputState {
            buttons: b,
            quit: q,
            last_seen_used: ((before.last_seen_used + 1) % 0x10000) as u16,
        }
    }
}

/// The event each used-ring slot hands over: `used_ring[i]` names the
/// descriptor, and `events[d]` is the event in descriptor `d`'s buffer.
pub open spec fn slot_events(used_ring: Seq<u32>, events: Seq<InputEvent>) -> Seq<InputEvent> {
    Seq::new(16, |i: int| events[used_ring[i] as int])
}

/// The `n` descriptor ids the used ring hands over from index `last` on.
pub open spec fn recycled_ids(last: u16, used_ring: Seq<u32>, n: nat) -> Seq<u16> {
    Seq::new(n, |k: int| used_ring[((last + k) % 0x10000) % 16] as u16)
}

/// How many entries the device has added since `last_seen`, counting
/// around the 16-bit index.
pub open spec fn unread(last_seen: u16, used_idx: u16) -> nat {
    ((used_idx - last_seen + 0x10000) % 0x10000) as nat
}

/// Bytes of one input event.
pub const EVENT_SIZE: usize = 8;

/// The memory page size the legacy transport aligns the queue to.
pub const PAGE_SIZE: usize = 4096;

/// `x` rounded up to a multiple of `a`.
pub open spec fn align_up(x: int, a: int) -> int {
    ((x + a - 1) / a) * a
}

/// Where the parts of a virtqueue lie in its buffer, as offsets from the
/// descriptor table, and how big a buffer to allocate.
#[derive(Clone, Copy, Debug, PartialEq, Eq, Structural)]
pub struct QueueLayout {
    /// Entries in the queue: 16, or fewer if the device takes fewer.
    pub size: u16,
    pub avail_offset: usize,
    pub used_offset: usize,
    pub buffer_len: usize,
}

/// The layout of the event queue for a device that takes at most `max_q`
/// entries. The legacy transport (version 1) puts the used ring on the next
/// page after the descriptors and the available ring; the modern one packs
/// the three, the used ring 4-byte aligned.
pub open spec fn layout_of(max_q: u32, version: u32) -> QueueLayout {
    let q = if max_q < 16 {
        max_q as int
    } else {
        16
    };
    let desc = 16 * q;
    let avail = 6 + 2 * q;
    let used = 6 + 8 * q;
    if version == 1 {
        let total = align_up(desc + avail, 4096);
        QueueLayout {
            size: q as u16,
            avail_offset: desc as usize,
            used_offset: total as usize,
            buffer_len: (align_up(total + used, 4096) + 4096) as usize,
        }
    } else {
        QueueLayout {
            size: q as u16,
            avail_offset: desc as usize,
            used_offset: align_up(desc + avail, 4) as usize,
            buffer_len: (desc + avail + used + 4096) as usize,
        }
    }
}

/// Lays out the event queue; see `layout_of`.
pub fn queue_layout(max_q: u32, version: u32) -> (l: QueueLayout)
    ensures
        l == layout_of(max_q, version),
{
    let qsz: usize = if max_q < 16 {
        max_q as usize
    } else {
        16
    };
    let desc_size = qsz * 16;
    let avail_size = 6 + 2 * qsz;
    let used_size = 6 + 8 * qsz;
    if version == 1 {
        let total = desc_size + avail_size;
        let t1 = total + PAGE_SIZE - 1;
        let total_aligned = t1 & !(PAGE_SIZE - 1);
        assert(total_aligned == (t1 / 4096) * 4096) by (bit_vector)
            requires
                total_aligned == t1 & !4095usize,
                t1 < 10000,
        ;
        let full_size = total_aligned + used_size;
        let f1 = full_size + PAGE_SIZE - 1;
        let full_aligned = f1 & !(PAGE_SIZE - 1);
        assert(full_aligned == (f1 / 4096) * 4096) by (bit_vector)
            requires
                full_aligned == f1 & !4095usize,
                f1 < 20000,
        ;
        QueueLayout {
            size: qsz as u16,
            avail_offset: desc_size,
            used_offset: total_aligned,
            buffer_len: full_aligned + PAGE_SIZE,
        }
    } else {
        let avail_end = desc_size + avail_size;
        let a1 = avail_end + 3;
        let used_offset = a1 & !3;
        assert(used_offset == (a1 / 4) * 4) by (bit_vector)
            requires
                used_offset == a1 & !3usize,
                a1 < 1000,
        ;
        QueueLayout {
            size: qsz as u16,
            avail_offset: desc_size,
            used_offset,
            buffer_len: desc_size + avail_size + used_size + 4096,
        }
    }
}

/// A virtqueue descriptor.
#[derive(Clone, Copy, Debug, PartialEq, Eq, Structural)]
pub struct VirtqDesc {
    pub addr: u64,
    pub len: u32,
    pub flags: u16,
    pub next: u16,
}

/// The descriptor of event buffer `i`, the buffers lying one after another
/// from `events_phys`: device-writable, 8 bytes, unchained.
pub fn event_descriptor(i: u16, events_phys: u64) -> (d: VirtqDesc)
    requires
        events_phys + 8 * i <= u64::MAX,
    ensures
        d == (VirtqDesc { addr: (events_phys + 8 * i) as u64, len: 8, flags: 2, next: 0 }),
{
    VirtqDesc { addr: events_phys + (i as u64) * 8, len: 8, flags: 2, next: 0 }
}

/// The events a sequence hands over, applied one after another to the
/// buttons and the quit request.
pub open spec fn events_applied(buttons: u16, quit: bool, evs: Seq<InputEvent>) -> (u16, bool)
    decreases evs.len(),
{
    if evs.len() == 0 {
        (buttons, quit)
    } else {
        let p = events_applied(buttons, quit, evs.drop_last());
        event_step(p.0, p.1, evs.last())
    }
}

/// The `n` events the used ring hands over from index `last` on, where
/// `slots[i]` is the event of ring slot `i`.
pub open spec fn ring_events(last: u16, slots: Seq<InputEvent>, n: nat) -> Seq<InputEvent> {
    Seq::new(n, |k: int| slots[((last + k) % 0x10000) % 16])
}

/// Reading `n` entries of the ring applies the events they hold, in ring
/// order, and moves the read index `n` on.
pub proof fn lemma_read_events(s: InputState, slots: Seq<InputEvent>, n: nat)
    ensures
        read_events(s, slots, n) == (InputState {
            buttons: events_applied(s.buttons, s.quit, ring_events(s.last_seen_used, slots, n)).0,
            quit: events_applied(s.buttons, s.quit, ring_events(s.last_seen_used, slots, n)).1,
            last_seen_used: ((s.last_seen_used + n) % 0x10000) as u16,
        }),
    decreases n,
{
    if n > 0 {
        lemma_read_events(s, slots, (n - 1) as nat);
        let evs = ring_events(s.last_seen_used, slots, n);
        assert(evs.drop_last() =~= ring_events(s.last_seen_used, slots, (n - 1) as nat));
        let before = read_events(s, slots, (n - 1) as nat);
        assert(before.last_seen_used == (s.last_seen_used + n - 1) % 0x10000);
        assert(evs.last() == slots[((s.last_seen_used + (n - 1)) % 0x10000) % 16]);
        assert((before.last_seen_used + 1) % 0x10000 == (s.last_seen_used + n) % 0x10000);
    }
}

// === Finding the device ===

/// The magic number of a VirtIO MMIO device ("virt").
pub const VIRTIO_MAGIC: u32 = 0x74726976;

/// The VirtIO device id of input devices.
pub const VIRTIO_DEV_INPUT: u32 = 18;

/// The first address probed; the next seven pages follow.
pub const PROBE_BASE: usize = 0x10001000;

/// The status bit the device keeps set when it accepts the features.
pub const VIRTIO_STATUS_FEATURES_OK: u32 = 8;

/// Whether the magic number and device id read from a device slot are
/// those of an input device.
pub open spec fn is_input_device(magic: u32, device_id: u32) -> bool {
    magic == VIRTIO_MAGIC && device_id == VIRTIO_DEV_INPUT
}

/// Whether the magic number and device id read from a device slot are
/// those of an input device.
pub fn input_device(magic: u32, device_id: u32) -> (r: bool)
    ensures
        r == is_input_device(magic, device_id),
{
    magic == VIRTIO_MAGIC && device_id == VIRTIO_DEV_INPUT
}

/// The address of the first probed slot that holds an input device;
/// `probed[k]` is the magic number and device id read at `PROBE_BASE` plus
/// `k` pages. `None` when none does.
pub fn find_input_device(probed: &[(u32, u32)]) -> (r: Option<usize>)
    requires
        probed@.len() <= 8,
    ensures
        match r {
            Some(addr) => exists|k: int|
                0 <= k < probed@.len() && addr == PROBE_BASE + 0x1000 * k && is_input_device(
                    #[trigger] probed@[k].0,
                    probed@[k].1,
                ) && forall|j: int| 0 <= j < k ==> !is_input_device(#[trigger] probed@[j].0, probed@[j].1),
            None => forall|k: int| 0 <= k < probed@.len() ==> !is_input_device(#[trigger] probed@[k].0, probed@[k].1),
        },
{
    let mut k: usize = 0;
    while k < probed.len()
        invariant
            k <= probed@.len() <= 8,
            forall|j: int| 0 <= j < k ==> !is_input_device(#[trigger] probed@[j].0, probed@[j].1),
        decreases probed@.len() - k,
    {
        let (magic, id) = probed[k];
        if input_device(magic, id) {
            return Some(PROBE_BASE + 0x1000 * k);
        }
        k += 1;
    }
    None
}

/// Whether the device accepted the driver's features: the status read back
/// keeps `FEATURES_OK` set.
pub fn features_accepted(status: u32) -> (r: bool)
    ensures
        r == (status & VIRTIO_STATUS_FEATURES_OK != 0),
{
    status & VIRTIO_STATUS_FEATURES_OK != 0
}

/// Why the keyboard could not be set up.
#[derive(Clone, Copy, Debug, PartialEq, Eq, Structural)]
pub enum InitError {
    /// No probed slot holds an input device.
    NoDevice,
    /// A modern (version 2 or later) device cleared `FEATURES_OK`.
    FeaturesRejected,
}

/// The message the kernel reports for each setup error.
pub open spec fn init_error_text(e: InitError) -> Seq<char> {
    match e {
        InitError::NoDevice => "No virtio-input device found"@,
        InitError::FeaturesRejected => "VirtIO features negotiation failed"@,
    }
}

impl InitError {
    /// The message the kernel reports.
    pub fn message(&self) -> (s: &'static str)
        ensures
            s@ == init_error_text(*self),
    {
        match self {
            InitError::NoDevice => "No virtio-input device found",
            InitError::FeaturesRejected => "VirtIO features negotiation failed",
        }
    }
}

/// Whether the probe results hold an input device.
pub open spec fn any_input_device(probed: Seq<(u32, u32)>) -> bool {
    exists|k: int| 0 <= k < probed.len() && is_input_device(#[trigger] probed[k].0, probed[k].1)
}

/// How setting up the keyboard ends: `probed[k]` is the magic number and
/// device id read in probe slot `k`; `version` the found device's version,
/// and `status` the status it reads back after the driver sets
/// `FEATURES_OK` (read only from version 2 on). Fails with `NoDevice` when
/// no slot holds an input device, else with `FeaturesRejected` when a
/// modern device cleared `FEATURES_OK`; else gives the device's address.
pub fn init_outcome(probed: &[(u32, u32)], version: u32, status: u32) -> (r: Result<usize, InitError>)
    requires
        probed@.len() <= 8,
    ensures
        r == Err::<usize, InitError>(InitError::NoDevice) <==> !any_input_device(probed@),
        r == Err::<usize, InitError>(InitError::FeaturesRejected) <==> (any_input_device(probed@) && version >= 2
            && status & VIRTIO_STATUS_FEATURES_OK == 0),
        r matches Ok(addr) ==> exists|k: int|
            0 <= k < probed@.len() && addr == PROBE_BASE + 0x1000 * k && is_input_device(
                #[trigger] probed@[k].0,
                probed@[k].1,
            ) && forall|j: int| 0 <= j < k ==> !is_input_device(#[trigger] probed@[j].0, probed@[j].1),
{
    match find_input_device(probed) {
        None => Err(InitError::NoDevice),
        Some(addr) => {
            if version >= 2 && !features_accepted(status) {
                Err(InitError::FeaturesRejected)
            } else {
                Ok(addr)
            }
        },
    }
}

/// A keyboard on a VirtIO input queue.
pub struct VirtioInput {
    buttons: u16,
    quit: bool,
    last_seen_used: u16,
}

impl View for VirtioInput {
    type V = InputState;

    closed spec fn view(&self) -> InputState {
        InputState { buttons: self.buttons, quit: self.quit, last_seen_used: self.last_seen_used }
    }
}

impl VirtioInput {
    /// A keyboard with nothing held and nothing read.
    pub fn new() -> (k: Self)
        ensures
            k@ == (InputState { buttons: 0, quit: false, last_seen_used: 0 }),
    {
        VirtioInput { buttons: 0, quit: false, last_seen_used: 0 }
    }

    /// Applies one event.
    pub fn handle_event(&mut self, ev: InputEvent)
        ensures
            (final(self)@.buttons, final(self)@.quit) == event_step(old(self)@.buttons, old(self)@.quit, ev),
            final(self)@.last_seen_used == old(self)@.last_seen_used,
    {
        if ev.ev_type == EV_KEY {
            let bit = keycode_to_button(ev.code);
            if ev.code == KEY_Q && ev.value == 1 {
                self.quit = true;
            } else if let Some(b) = bit {
                if ev.value == 1 {
                    self.buttons = self.buttons | b;
                } else if ev.value == 0 {
                    self.buttons = self.buttons & !b;
                }
            }
        }
    }

    /// Reads the used ring up to `used_idx`. `used_ring[i]` is the
    /// descriptor id in used-ring slot `i`, and `events[d]` the event in the
    /// buffer of descriptor `d`. Returns the descriptor ids read, in order:
    /// each goes back on the available ring, in that order.
    pub fn poll_events(&mut self, used_idx: u16, used_ring: &[u32], events: &[InputEvent]) -> (recycled: Vec<u16>)
        requires
            used_ring@.len() == QUEUE_SIZE,
            events@.len() == QUEUE_SIZE,
            forall|i: int| 0 <= i < QUEUE_SIZE ==> #[trigger] used_ring@[i] < QUEUE_SIZE,
        ensures
            recycled@.len() == unread(old(self)@.last_seen_used, used_idx),
            recycled@ == recycled_ids(old(self)@.last_seen_used, used_ring@, recycled@.len()),
            final(self)@ == read_events(old(self)@, slot_events(used_ring@, events@), recycled@.len()),
            final(self)@.last_seen_used == used_idx,
    {
        let ghost start = self@;
        let ghost slots = slot_events(used_ring@, events@);
        let count = used_idx.wrapping_sub(self.last_seen_used);
        proof {
            if used_idx >= start.last_seen_used {
                assert(count == used_idx - start.last_seen_used);
            } else {
                assert(count == used_idx - start.last_seen_used + 0x10000);
            }
        }
        let mut recycled: Vec<u16> = Vec::new();
        let mut i: u16 = 0;
        while i < count
            invariant
                used_ring@.len() == QUEUE_SIZE,
                events@.len() == QUEUE_SIZE,
                forall|j: int| 0 <= j < QUEUE_SIZE ==> #[trigger] used_ring@[j] < QUEUE_SIZE,
                slots == slot_events(used_ring@, events@),
                i <= count,
                count == unread(start.last_seen_used, used_idx),
                recycled@.len() == i,
                recycled@ == recycled_ids(start.last_seen_used, used_ring@, i as nat),
                self@ == read_events(start, slots, i as nat),
                self@.last_seen_used == (start.last_seen_used + i) % 0x10000,
            decreases count - i,
        {
            let slot = (self.last_seen_used % QUEUE_SIZE) as usize;
            let d = used_ring[slot];
            let ev = events[d as usize];
            proof {
                assert(ev == slots[slot as int]);
            }
            self.handle_event(ev);
            recycled.push(d as u16);
            self.last_seen_used = self.last_seen_used.wrapping_add(1);
            i = i + 1;
            proof {
                assert(recycled@ =~= recycled_ids(start.last_seen_used, used_ring@, i as nat));
            }
        }
        proof {
            if used_idx >= start.last_seen_used {
                assert(start.last_seen_used + count == used_idx);
            } else {
                assert(start.last_seen_used + count == used_idx + 0x10000);
            }
        }
        recycled
    }

    /// The buttons held now.
    pub fn buttons(&self) -> (b: u16)
        ensures
            b == self@.buttons,
    {
        self.buttons
    }

    /// Whether `Q` was pressed since the request was last cleared.
    pub fn quit_requested(&self) -> (q: bool)
        ensures
            q == self@.quit,
    {
        self.quit
    }

    /// Forgets the quit request.
    pub fn clear_quit(&mut self)
        ensures
            final(self)@ == (InputState { quit: false, ..old(self)@ }),
    {
        self.quit = false;
    }
}

} // verus!
