//! The host side of the console: what a runtime writes into a game's memory
//! before each frame, what it reads back to show it, and the requests a
//! game makes of it.
use vstd::prelude::*;
use crate::cart::{CartReader, find_section_spec, header_error, key_name, meta_field, SECTION_META, SECTION_WASM};
use crate::sdk::{
    GuestMemory,
    MEMORY_SIZE,
    le_u16_at,
    mem_read,
    mem_write,
    current_of,
    previous_of,
    in_framebuffer,
};
use vstd::string::StringSliceAdditionalSpecFns;
use vstd::utf8::encode_utf8;

verus! {

// === Colors ===

/// The 24-bit color an RGB565 value stands for, each channel scaled to
/// 0..=255.
pub open spec fn rgb888_of(c: u16) -> u32 {
    let r = c / 2048;
    let g = (c / 32) % 64;
    let b = c % 32;
    ((r * 255 / 31) * 65536 + (g * 255 / 63) * 256 + b * 255 / 31) as u32
}

/// The RGB565 value of a 24-bit color: the top 5, 6 and 5 bits of red,
/// green and blue.
pub open spec fn rgb565_of(color: u32) -> u16 {
    let r = (color / 65536) % 256;
    let g = (color / 256) % 256;
    let b = color % 256;
    ((r - r % 8) * 256 + (g - g % 4) * 8 + b / 8) as u16
}

/// Expands an RGB565 color to 24-bit `0xRRGGBB`.
pub fn rgb565_to_rgb888(rgb565: u16) -> (c: u32)
    ensures
        c == rgb888_of(rgb565),
{
    let r = (rgb565 / 2048) as u32;
    let g = ((rgb565 / 32) % 64) as u32;
    let b = (rgb565 % 32) as u32;
    (r * 255 / 31) * 65536 + (g * 255 / 63) * 256 + b * 255 / 31
}

/// Packs a 24-bit `0xRRGGBB` color as RGB565.
pub fn rgb888_to_rgb565(color: u32) -> (c: u16)
    ensures
        c == rgb565_of(color),
{
    let r = (color / 65536) % 256;
    let g = (color / 256) % 256;
    let b = color % 256;
    ((r - r % 8) * 256 + (g - g % 4) * 8 + b / 8) as u16
}

/// The palette a game starts with: sixteen named colors, then a gray ramp
/// from black to white.
pub open spec fn default_color(i: int) -> u32 {
    if i == 0 {
        0x000000
    } else if i == 1 {
        0xFFFFFF
    } else if i == 2 {
        0x00C850
    } else if i == 3 {
        0x5078FF
    } else if i == 4 {
        0xFF5050
    } else if i == 5 {
        0xFFC800
    } else if i == 6 {
        0xFF00FF
    } else if i == 7 {
        0x00FFFF
    } else if i == 8 {
        0x808080
    } else if i == 9 {
        0x404040
    } else if i == 10 {
        0x008000
    } else if i == 11 {
        0x000080
    } else if i == 12 {
        0x800000
    } else if i == 13 {
        0x808000
    } else if i == 14 {
        0x800080
    } else if i == 15 {
        0x008080
    } else {
        let v = (i - 16) * 255 / 239;
        (v * 65536 + v * 256 + v) as u32
    }
}

/// The default palette, 256 colors as `0xRRGGBB`.
pub fn default_palette() -> (pal: Vec<u32>)
    ensures
        pal@.len() == 256,
        forall|i: int| 0 <= i < 256 ==> #[trigger] pal@[i] == default_color(i),
{
    let mut pal: Vec<u32> = vec![
        0x000000, 0xFFFFFF, 0x00C850, 0x5078FF, 0xFF5050, 0xFFC800, 0xFF00FF, 0x00FFFF,
        0x808080, 0x404040, 0x008000, 0x000080, 0x800000, 0x808000, 0x800080, 0x008080,
    ];
    let mut i: usize = 16;
    while i < 256
        invariant
            16 <= i <= 256,
            pal@.len() == i,
            forall|j: int| 0 <= j < i ==> #[trigger] pal@[j] == default_color(j),
        decreases 256 - i,
    {
        let v = ((i - 16) as u32 * 255) / 239;
        pal.push(v * 65536 + v * 256 + v);
        i += 1;
    }
    pal
}

/// Memory with palette entry `k` of `pal` stored as little-endian RGB565,
/// for `k < n`.
pub open spec fn palette_written(m: Seq<u8>, pal: Seq<u32>, n: int) -> Seq<u8> {
    Seq::new(
        m.len(),
        |j: int|
            if 0 <= j < 2 * n {
                let c = rgb565_of(pal[j / 2]);
                if j % 2 == 0 {
                    (c % 256) as u8
                } else {
                    (c / 256) as u8
                }
            } else {
                m[j]
            },
    )
}

/// Stores a 256-color palette at the start of memory, as a game's palette
/// registers hold it.
pub fn write_palette(mem: &mut GuestMemory, pal: &[u32])
    requires
        pal@.len() == 256,
    ensures
        final(mem)@ == palette_written(old(mem)@, pal@, 256),
{
    let _n = mem.len();
    let ghost start = mem@;
    let mut i: usize = 0;
    while i < 256
        invariant
            i <= 256,
            pal@.len() == 256,
            start.len() >= MEMORY_SIZE,
            mem@ == palette_written(start, pal@, i as int),
        decreases 256 - i,
    {
        let c = rgb888_to_rgb565(pal[i]);
        mem_write(mem, i * 2, (c % 256) as u8);
        mem_write(mem, i * 2 + 1, (c / 256) as u8);
        proof {
            assert(mem@ =~= palette_written(start, pal@, i + 1));
        }
        i += 1;
    }
}

/// The 24-bit colors of the palette registers of `m`.
pub open spec fn palette_colors(m: Seq<u8>) -> Seq<u32> {
    Seq::new(256, |i: int| rgb888_of(le_u16_at(m, 2 * i)))
}

/// Reads the palette registers as 24-bit colors.
pub fn read_palette(mem: &GuestMemory) -> (pal: Vec<u32>)
    ensures
        pal@ == palette_colors(mem@),
{
    let _n = mem.len();
    let mut pal: Vec<u32> = Vec::new();
    let mut i: usize = 0;
    while i < 256
        invariant
            i <= 256,
            mem@.len() >= MEMORY_SIZE,
            pal@ == palette_colors(mem@).take(i as int),
        decreases 256 - i,
    {
        let lo = mem_read(mem, i * 2) as u16;
        let hi = mem_read(mem, i * 2 + 1) as u16;
        pal.push(rgb565_to_rgb888(lo + hi * 256));
        proof {
            assert(pal@ =~= palette_colors(mem@).take(i + 1));
        }
        i += 1;
    }
    proof {
        assert(palette_colors(mem@).take(256) =~= palette_colors(mem@));
    }
    pal
}

/// The picture on screen: each framebuffer pixel looked up in the
/// palette, row by row.
pub open spec fn frame_colors(m: Seq<u8>) -> Seq<u32> {
    Seq::new(76800, |i: int| palette_colors(m)[m[0x300 + i] as int])
}

/// The frame as 24-bit colors, ready for a window.
pub fn render_frame(mem: &GuestMemory) -> (out: Vec<u32>)
    ensures
        out@ == frame_colors(mem@),
{
    let _n = mem.len();
    let pal = read_palette(mem);
    let mut out: Vec<u32> = Vec::new();
    let mut i: usize = 0;
    while i < 76800
        invariant
            i <= 76800,
            mem@.len() >= MEMORY_SIZE,
            pal@ == palette_colors(mem@),
            out@ == frame_colors(mem@).take(i as int),
        decreases 76800 - i,
    {
        let idx = mem_read(mem, 0x300 + i);
        out.push(pal[idx as usize]);
        proof {
            assert(out@ =~= frame_colors(mem@).take(i + 1));
        }
        i += 1;
    }
    proof {
        assert(frame_colors(mem@).take(76800) =~= frame_colors(mem@));
    }
    out
}

/// A palette entry as 8-bit channels, each scaled to 0..=255.
pub open spec fn channels_of(c: u16) -> (u8, u8, u8) {
    (((c / 2048) * 255 / 31) as u8, (((c / 32) % 64) * 255 / 63) as u8, ((c % 32) * 255 / 31) as u8)
}

/// Reads the palette registers as 8-bit red, green and blue.
pub fn read_palette_channels(mem: &GuestMemory) -> (pal: Vec<(u8, u8, u8)>)
    ensures
        pal@ == Seq::new(256, |i: int| channels_of(le_u16_at(mem@, 2 * i))),
{
    let _n = mem.len();
    let ghost want = Seq::new(256, |i: int| channels_of(le_u16_at(mem@, 2 * i)));
    let mut pal: Vec<(u8, u8, u8)> = Vec::new();
    let mut i: usize = 0;
    while i < 256
        invariant
            i <= 256,
            mem@.len() >= MEMORY_SIZE,
            want == Seq::new(256, |i: int| channels_of(le_u16_at(mem@, 2 * i))),
            pal@ == want.take(i as int),
        decreases 256 - i,
    {
        let lo = mem_read(mem, i * 2) as u16;
        let hi = mem_read(mem, i * 2 + 1) as u16;
        let c: u16 = lo + hi * 256;
        let r = (c / 2048) as u32;
        let g = ((c / 32) % 64) as u32;
        let b = (c % 32) as u32;
        pal.push(((r * 255 / 31) as u8, (g * 255 / 63) as u8, (b * 255 / 31) as u8));
        proof {
            assert(pal@ =~= want.take(i + 1));
        }
        i += 1;
    }
    proof {
        assert(want.take(256) =~= want);
    }
    pal
}

// === Input ===

/// Memory with the input registers set: buttons held now, then buttons
/// held the frame before, each a little-endian `u16`.
pub open spec fn input_written(m: Seq<u8>, current: u16, previous: u16) -> Seq<u8> {
    m.update(0x200, (current % 256) as u8).update(0x201, (current / 256) as u8).update(
        0x202,
        (previous % 256) as u8,
    ).update(0x203, (previous / 256) as u8)
}

/// Sets the input registers for a frame.
pub fn write_input(mem: &mut GuestMemory, current: u16, previous: u16)
    ensures
        final(mem)@ == input_written(old(mem)@, current, previous),
{
    let _n = mem.len();
    mem_write(mem, 0x200, (current % 256) as u8);
    mem_write(mem, 0x201, (current / 256) as u8);
    mem_write(mem, 0x202, (previous % 256) as u8);
    mem_write(mem, 0x203, (previous / 256) as u8);
}

/// Sets the input registers for a frame from the buttons held now; what
/// the registers held as current becomes the previous frame's buttons.
pub fn latch_input(mem: &mut GuestMemory, buttons: u16)
    ensures
        final(mem)@ == input_written(old(mem)@, buttons, current_of(old(mem)@)),
{
    let _n = mem.len();
    let prev = crate::sdk::mem_read_u16(mem, 0x200);
    write_input(mem, buttons, prev);
}

/// The keys of the desktop keyboard the console listens to.
#[derive(Clone, Copy, Debug, PartialEq, Eq, Structural)]
pub enum HostKey {
    Up,
    Down,
    Left,
    Right,
    Z,
    Space,
    X,
    A,
    S,
    Enter,
    RightShift,
    Backspace,
    Q,
    W,
}

/// The button a desktop key stands for: arrows for the pad, Z or space for
/// A, X for B, A for X, S for Y, Enter for Start, right shift or backspace
/// for Select, Q and W for the shoulder buttons.
pub open spec fn host_key_bit(k: HostKey) -> u16 {
    match k {
        HostKey::Up => 1,
        HostKey::Down => 2,
        HostKey::Left => 4,
        HostKey::Right => 8,
        HostKey::Z | HostKey::Space => 16,
        HostKey::X => 32,
        HostKey::A => 64,
        HostKey::S => 128,
        HostKey::Enter => 256,
        HostKey::RightShift | HostKey::Backspace => 512,
        HostKey::Q => 1024,
        HostKey::W => 2048,
    }
}

/// The buttons held while the keys `keys` are down.
pub open spec fn held_buttons(keys: Seq<HostKey>) -> u16
    decreases keys.len(),
{
    if keys.len() == 0 {
        0
    } else {
        held_buttons(keys.drop_last()) | host_key_bit(keys.last())
    }
}

fn key_bit(k: HostKey) -> (b: u16)
    ensures
        b == host_key_bit(k),
{
    match k {
        HostKey::Up => 1,
        HostKey::Down => 2,
        HostKey::Left => 4,
        HostKey::Right => 8,
        HostKey::Z | HostKey::Space => 16,
        HostKey::X => 32,
        HostKey::A => 64,
        HostKey::S => 128,
        HostKey::Enter => 256,
        HostKey::RightShift | HostKey::Backspace => 512,
        HostKey::Q => 1024,
        HostKey::W => 2048,
    }
}

/// The button bits of the keys that are down.
pub fn read_input(keys: &[HostKey]) -> (b: u16)
    ensures
        b == held_buttons(keys@),
{
    let mut b: u16 = 0;
    let mut i: usize = 0;
    while i < keys.len()
        invariant
            i <= keys@.len(),
            b == held_buttons(keys@.take(i as int)),
        decreases keys@.len() - i,
    {
        b = b | key_bit(keys[i]);
        proof {
            assert(keys@.take(i + 1).drop_last() =~= keys@.take(i as int));
        }
        i += 1;
    }
    proof {
        assert(keys@.take(keys@.len() as int) =~= keys@);
    }
    b
}

// === Game names ===

/// Where the list of game names starts: a `u32` count, then one 32-byte
/// slot per name holding its length and up to 31 bytes.
pub const NAME_BASE: usize = 0x210;

/// The most names the list holds.
pub const MAX_NAMES: usize = 16;

/// The bytes of a name that its slot keeps.
pub open spec fn kept_name(name: Seq<u8>) -> Seq<u8> {
    if name.len() <= 31 {
        name
    } else {
        name.take(31)
    }
}

/// Memory after the first `k` names of `names` are stored in their slots.
pub open spec fn names_written(m: Seq<u8>, names: Seq<Seq<u8>>, k: int) -> Seq<u8> {
    Seq::new(
        m.len(),
        |j: int|
            if 0x214 <= j < 0x214 + 32 * k {
                let i = (j - 0x214) / 32;
                let o = (j - 0x214) % 32;
                let kept = kept_name(names[i]);
                if o == 0 {
                    kept.len() as u8
                } else if o - 1 < kept.len() {
                    kept[o - 1]
                } else {
                    m[j]
                }
            } else {
                m[j]
            },
    )
}

/// The number of names stored, as the little-endian `u32` count.
pub open spec fn count_written(m: Seq<u8>, count: int) -> Seq<u8> {
    m.update(0x210, (count % 256) as u8).update(0x211, (count / 256) as u8).update(0x212, 0u8).update(
        0x213,
        0u8,
    )
}

/// Memory after storing the list `names`: at most sixteen are kept.
pub open spec fn name_list_written(m: Seq<u8>, names: Seq<Seq<u8>>) -> Seq<u8> {
    let n = if names.len() < 16 {
        names.len() as int
    } else {
        16
    };
    names_written(count_written(m, n), names, n)
}

/// The UTF-8 bytes of each name.
pub open spec fn utf8_names(names: Seq<String>) -> Seq<Seq<u8>> {
    names.map_values(|s: String| encode_utf8(s@))
}

/// Stores the names of the games for the launcher to read.
pub fn write_names(mem: &mut GuestMemory, names: &[String])
    ensures
        final(mem)@ == name_list_written(old(mem)@, utf8_names(names@)),
{
    let _n = mem.len();
    let ghost start = mem@;
    let ghost bytes = utf8_names(names@);
    let n: usize = if names.len() < MAX_NAMES {
        names.len()
    } else {
        MAX_NAMES
    };
    mem_write(mem, 0x210, (n % 256) as u8);
    mem_write(mem, 0x211, (n / 256) as u8);
    mem_write(mem, 0x212, 0);
    mem_write(mem, 0x213, 0);
    let ghost counted = mem@;
    let mut i: usize = 0;
    while i < n
        invariant
            i <= n <= 16,
            n <= names@.len(),
            bytes == utf8_names(names@),
            counted.len() >= MEMORY_SIZE,
            mem@ == names_written(counted, bytes, i as int),
        decreases n - i,
    {
        let b = names[i].as_str().as_bytes();
        let len: usize = if b.len() < 31 {
            b.len()
        } else {
            31
        };
        let offset = 0x214 + i * 32;
        let ghost before = mem@;
        mem_write(mem, offset, len as u8);
        let mut j: usize = 0;
        while j < len
            invariant
                j <= len <= 31,
                i < 16,
                i < bytes.len(),
                len <= b@.len(),
                len == kept_name(b@).len(),
                b@ == bytes[i as int],
                offset == 0x214 + i * 32,
                mem@.len() == before.len(),
                before.len() >= MEMORY_SIZE,
                forall|x: int|
                    0 <= x < before.len() ==> #[trigger] mem@[x] == if x == offset {
                        len as u8
                    } else if offset + 1 <= x < offset + 1 + j {
                        b@[x - offset - 1]
                    } else {
                        before[x]
                    },
            decreases len - j,
        {
            mem_write(mem, offset + 1 + j, b[j]);
            j += 1;
        }
        proof {
            let want = names_written(counted, bytes, i + 1);
            assert forall|x: int| 0 <= x < mem@.len() implies #[trigger] mem@[x] == want[x] by {
                if offset <= x < offset + 32 {
                    assert((x - 0x214) / 32 == i);
                    assert((x - 0x214) % 32 == x - offset);
                    if x > offset && x - offset - 1 < len {
                        assert(kept_name(b@)[x - offset - 1] == b@[x - offset - 1]);
                    }
                } else if 0x214 <= x < offset {
                    assert((x - 0x214) / 32 < i);
                }
            }
            assert(mem@ =~= want);
        }
        i += 1;
    }
}

/// The bytes the host copies for a game-name request: the name at `index`
/// (none past the end of the list), cut to `len` bytes.
pub fn game_name_bytes(names: &[String], index: u32, len: u32) -> (out: Vec<u8>)
    ensures
        out@ == ({
            let name = if (index as int) < names@.len() {
                utf8_names(names@)[index as int]
            } else {
                Seq::<u8>::empty()
            };
            if name.len() <= len {
                name
            } else {
                name.take(len as int)
            }
        }),
{
    let mut out: Vec<u8> = Vec::new();
    if (index as usize) < names.len() {
        let b = names[index as usize].as_str().as_bytes();
        let n: usize = if b.len() < len as usize {
            b.len()
        } else {
            len as usize
        };
        let mut i: usize = 0;
        while i < n
            invariant
                i <= n <= b@.len(),
                out@ == b@.take(i as int),
            decreases n - i,
        {
            out.push(b[i]);
            proof {
                assert(out@ =~= b@.take(i + 1));
            }
            i += 1;
        }
        proof {
            assert(b@.take(b@.len() as int) =~= b@);
        }
    }
    out
}

// === Tones ===

/// A tone request as the host reads it.
#[derive(Clone, Copy, Debug, PartialEq, Eq, Structural)]
pub struct ToneCommand {
    pub channel: usize,
    pub slide: bool,
    pub freq_start: u32,
    pub freq_end: u32,
    pub duration_ms: u32,
    pub volume: u32,
    pub waveform: u8,
}

/// What the host makes of a tone call: bit 7 of the channel marks a sweep
/// whose start and end frequencies share the frequency word (low and high
/// 16 bits); the other bits pick one of four channels.
pub open spec fn tone_command(channel: u32, frequency: u32, duration: u32, volume: u32, waveform: u32) -> Option<
    ToneCommand,
> {
    let slide = (channel / 0x80) % 2 == 1;
    let idx = channel % 0x80;
    if idx >= 4 {
        None
    } else {
        Some(
            ToneCommand {
                channel: idx as usize,
                slide,
                freq_start: if slide {
                    (frequency % 0x10000) as u32
                } else {
                    frequency
                },
                freq_end: if slide {
                    (frequency / 0x10000) as u32
                } else {
                    frequency
                },
                duration_ms: duration,
                volume,
                waveform: (waveform % 256) as u8,
            },
        )
    }
}

/// Reads the arguments of a tone call; `None` for a channel that does not
/// exist.
pub fn decode_tone(channel: u32, frequency: u32, duration: u32, volume: u32, waveform: u32) -> (r: Option<
    ToneCommand,
>)
    ensures
        r == tone_command(channel, frequency, duration, volume, waveform),
{
    let slide = (channel / 0x80) % 2 == 1;
    let idx = channel % 0x80;
    if idx >= 4 {
        return None;
    }
    let (freq_start, freq_end) = if slide {
        (frequency % 0x10000, frequency / 0x10000)
    } else {
        (frequency, frequency)
    };
    Some(
        ToneCommand {
            channel: idx as usize,
            slide,
            freq_start,
            freq_end,
            duration_ms: duration,
            volume,
            waveform: (waveform % 256) as u8,
        },
    )
}

// === Carts ===

/// The title a cart shows: its `name` field where it has metadata, else
/// `fallback`; `None` for bytes that are no cart.
pub open spec fn cart_title_bytes(d: Seq<u8>, fallback: Seq<u8>) -> Option<Seq<u8>> {
    if header_error(d) is Some {
        None
    } else {
        match find_section_spec(d, SECTION_META) {
            Some(raw) => Some(meta_field(raw, key_name())),
            None => Some(fallback),
        }
    }
}

/// The title of a cart, or `None` where the bytes are no cart.
pub fn cart_title(data: &[u8], fallback: &str) -> (r: Option<String>)
    ensures
        match r {
            Some(t) => cart_title_bytes(data@, fallback.spec_bytes()) == Some(encode_utf8(t@)),
            None => cart_title_bytes(data@, fallback.spec_bytes()) is None,
        },
{
    match CartReader::new(data) {
        Ok(reader) => match reader.meta() {
            Some(m) => Some(String::from_str(m.name())),
            None => Some(String::from_str(fallback)),
        },
        Err(_) => None,
    }
}

/// The titles of the built-in carts, `Unknown` for any that has none.
pub fn cart_names(carts: &[&[u8]]) -> (names: Vec<String>)
    ensures
        names@.len() == carts@.len(),
        forall|i: int|
            0 <= i < carts@.len() ==> #[trigger] encode_utf8(names@[i]@) == match cart_title_bytes(
                carts@[i]@,
                "Unknown".spec_bytes(),
            ) {
                Some(t) => t,
                None => "Unknown".spec_bytes(),
            },
{
    let mut names: Vec<String> = Vec::new();
    let mut i: usize = 0;
    while i < carts.len()
        invariant
            i <= carts@.len(),
            names@.len() == i,
            forall|j: int|
                0 <= j < i ==> #[trigger] encode_utf8(names@[j]@) == match cart_title_bytes(
                    carts@[j]@,
                    "Unknown".spec_bytes(),
                ) {
                    Some(t) => t,
                    None => "Unknown".spec_bytes(),
                },
        decreases carts@.len() - i,
    {
        let name = match cart_title(carts[i], "Unknown") {
            Some(t) => t,
            None => String::from_str("Unknown"),
        };
        names.push(name);
        i += 1;
    }
    names
}

// === Requests of a game ===

/// What a game asked the runtime to do.
#[derive(Clone, Copy, Debug, PartialEq, Eq, Structural)]
pub enum RuntimeAction {
    LaunchGame(usize),
    ReturnToLauncher,
}

/// Whether cart bytes hold a game that can be launched.
pub open spec fn launchable(d: Seq<u8>) -> bool {
    header_error(d) is None && find_section_spec(d, SECTION_WASM) is Some
}

/// The request register of the kernel's runtime: -1 for none, -2 to go back
/// to the launcher, a game's index to launch it.
pub struct PendingLaunch {
    code: i32,
}

impl View for PendingLaunch {
    type V = i32;

    closed spec fn view(&self) -> i32 {
        self.code
    }
}

/// What the runtime does with request `code`, given the carts: the action
/// and the request left afterwards. A launch of a game that is not there or
/// not launchable is dropped.
pub open spec fn take_request(code: i32, carts: Seq<Seq<u8>>) -> (Option<RuntimeAction>, i32) {
    if code >= 0 {
        if (code as int) < carts.len() && launchable(carts[code as int]) {
            (Some(RuntimeAction::LaunchGame(code as usize)), -1i32)
        } else {
            (None, -1i32)
        }
    } else if code == -2 {
        (Some(RuntimeAction::ReturnToLauncher), -1i32)
    } else {
        (None, code)
    }
}

/// The bytes of each cart.
pub open spec fn cart_bytes(carts: Seq<&[u8]>) -> Seq<Seq<u8>> {
    carts.map_values(|c: &[u8]| c@)
}

impl PendingLaunch {
    /// No request.
    pub fn new() -> (p: Self)
        ensures
            p@ == -1,
    {
        PendingLaunch { code: -1 }
    }

    /// The game asks to go back to the launcher.
    pub fn request_quit(&mut self)
        ensures
            final(self)@ == -2,
    {
        self.code = -2;
    }

    /// The launcher asks to launch game `index`; the index is kept as the
    /// register's signed word.
    pub fn request_launch(&mut self, index: u32)
        ensures
            final(self)@ == index as i32,
    {
        self.code = index as i32;
    }

    /// Takes the request, given the carts there are.
    pub fn take(&mut self, carts: &[&[u8]]) -> (r: Option<RuntimeAction>)
        ensures
            (r, final(self)@) == take_request(old(self)@, cart_bytes(carts@)),
    {
        let code = self.code;
        if code >= 0 {
            self.code = -1;
            let idx = code as usize;
            if idx < carts.len() {
                proof {
                    assert(cart_bytes(carts@)[idx as int] == carts@[idx as int]@);
                }
                match CartReader::new(carts[idx]) {
                    Ok(reader) => {
                        if reader.wasm().is_some() {
                            return Some(RuntimeAction::LaunchGame(idx));
                        }
                    },
                    Err(_) => {},
                }
            }
            None
        } else if code == -2 {
            self.code = -1;
            Some(RuntimeAction::ReturnToLauncher)
        } else {
            None
        }
    }
}

} // verus!
