//! The game SDK: drawing, tilemap and input over the console's memory map.
//!
//! A game sees one linear memory. The palette (256 RGB565 entries) sits at
//! the start, the input registers at `INPUT_BASE`, the 320x240 indexed
//! framebuffer at `FRAMEBUFFER_BASE`, then the save area, the 128x128
//! spritesheet and the 40x30 tilemap with its scroll registers.
//! Every operation here takes that memory explicitly.
use vstd::prelude::*;
use vstd::arithmetic::div_mod::lemma_fundamental_div_mod_converse;
use vstd::string::*;

verus! {

pub const SYSTEM_BASE: usize = 0x00000;
pub const SYSTEM_SIZE: usize = 512;
pub const INPUT_BASE: usize = 0x00200;
pub const INPUT_SIZE: usize = 48;
pub const FRAMEBUFFER_BASE: usize = 0x00300;
pub const SCREEN_WIDTH: usize = 320;
pub const SCREEN_HEIGHT: usize = 240;
pub const FRAMEBUFFER_SIZE: usize = 76800;
pub const SAVE_BASE: usize = 0x13200;
pub const SAVE_SIZE: usize = 4096;
pub const SPRITESHEET_BASE: usize = 0x14200;
pub const SPRITESHEET_SIZE: usize = 16384;
pub const TILEMAP_BASE: usize = 0x18200;
pub const TILEMAP_SIZE: usize = 2400;
pub const PALETTE_BASE: usize = SYSTEM_BASE;

pub const BTN_UP: u16 = 1;
pub const BTN_DOWN: u16 = 2;
pub const BTN_LEFT: u16 = 4;
pub const BTN_RIGHT: u16 = 8;
pub const BTN_A: u16 = 16;
pub const BTN_B: u16 = 32;
pub const BTN_X: u16 = 64;
pub const BTN_Y: u16 = 128;
pub const BTN_START: u16 = 256;
pub const BTN_SELECT: u16 = 512;
pub const BTN_L: u16 = 1024;
pub const BTN_R: u16 = 2048;

pub const AUDIO_CHANNELS: usize = 4;
pub const AUDIO_BASE: usize = 0x00208;
pub const AUDIO_CHANNEL_SIZE: usize = 8;

pub const SPRITE_FLIP_X: u8 = 1;
pub const SPRITE_FLIP_Y: u8 = 2;
pub const SPRITESHEET_WIDTH: usize = 128;
pub const SPRITESHEET_HEIGHT: usize = 128;
pub const TILEMAP_WIDTH: usize = 40;
pub const TILEMAP_HEIGHT: usize = 30;

/// The tilemap scroll registers (two little-endian `i32`), right after the tilemap.
pub const TILEMAP_SCROLL_BASE: usize = 0x18B60;

/// The smallest memory that holds every region of the map.
pub const MEMORY_SIZE: usize = 0x18B68;

/// The memory a game draws into.
pub struct GuestMemory {
    bytes: Vec<u8>,
}

impl View for GuestMemory {
    type V = Seq<u8>;

    closed spec fn view(&self) -> Seq<u8> {
        self.bytes@
    }
}

impl GuestMemory {
    #[verifier::type_invariant]
    spec fn inv(self) -> bool {
        self.bytes@.len() >= MEMORY_SIZE
    }

    /// A zeroed memory of exactly `MEMORY_SIZE` bytes.
    pub fn new() -> (m: Self)
        ensures
            m@ == Seq::new(MEMORY_SIZE as nat, |i: int| 0u8),
    {
        let v: Vec<u8> = vec![0u8; MEMORY_SIZE];
        assert(v@ =~= Seq::new(MEMORY_SIZE as nat, |i: int| 0u8));
        GuestMemory { bytes: v }
    }

    /// Wraps existing memory contents; `None` when they are too short to
    /// hold the memory map.
    pub fn from_bytes(bytes: Vec<u8>) -> (r: Option<Self>)
        ensures
            bytes@.len() >= MEMORY_SIZE <==> r is Some,
            r matches Some(m) ==> m@ == bytes@,
    {
        if bytes.len() >= MEMORY_SIZE {
            Some(GuestMemory { bytes })
        } else {
            None
        }
    }

    /// The memory contents.
    pub fn as_slice(&self) -> (s: &[u8])
        ensures
            s@ == self@,
    {
        self.bytes.as_slice()
    }

    /// The size of the memory, at least `MEMORY_SIZE`.
    pub fn len(&self) -> (n: usize)
        ensures
            n == self@.len(),
            n >= MEMORY_SIZE,
    {
        proof {
            use_type_invariant(self);
        }
        self.bytes.len()
    }

    pub(crate) fn set(&mut self, i: usize, v: u8)
        requires
            i < old(self)@.len(),
        ensures
            final(self)@ == old(self)@.update(i as int, v),
        no_unwind
    {
        proof {
            use_type_invariant(&*self);
        }
        self.bytes[i] = v;
    }

    pub(crate) fn get(&self, i: usize) -> (v: u8)
        requires
            i < self@.len(),
        ensures
            v == self@[i as int],
    {
        self.bytes[i]
    }
}

/// Reads a byte of memory.
pub fn mem_read(mem: &GuestMemory, offset: usize) -> (v: u8)
    requires
        offset < mem@.len(),
    ensures
        v == mem@[offset as int],
{
    mem.get(offset)
}

/// The little-endian `u16` at `i`.
pub open spec fn le_u16_at(m: Seq<u8>, i: int) -> u16 {
    (m[i] + m[i + 1] * 256) as u16
}

/// Reads a little-endian `u16`.
pub fn mem_read_u16(mem: &GuestMemory, offset: usize) -> (v: u16)
    requires
        offset + 1 < mem@.len(),
    ensures
        v == le_u16_at(mem@, offset as int),
{
    let _n = mem.len();
    mem.get(offset) as u16 + mem.get(offset + 1) as u16 * 256
}

/// Writes a byte of memory.
pub(crate) fn mem_write(mem: &mut GuestMemory, offset: usize, v: u8)
    requires
        offset < old(mem)@.len(),
    ensures
        final(mem)@ == old(mem)@.update(offset as int, v),
{
    mem.set(offset, v);
}

/// Writes a little-endian `u16`.
pub(crate) fn mem_write_u16(mem: &mut GuestMemory, offset: usize, v: u16)
    requires
        offset + 1 < old(mem)@.len(),
    ensures
        final(mem)@ == old(mem)@.update(offset as int, (v % 256) as u8).update(
            offset + 1,
            (v / 256) as u8,
        ),
{
    let _n = mem.len();
    mem.set(offset, (v % 256) as u8);
    mem.set(offset + 1, (v / 256) as u8);
}

// === Framebuffer model ===

/// Whether `(x, y)` is a pixel of the 320x240 screen.
pub open spec fn on_screen(x: int, y: int) -> bool {
    0 <= x < 320 && 0 <= y < 240
}

/// Where pixel `(x, y)` lives in memory.
pub open spec fn fb_index(x: int, y: int) -> int {
    0x300 + y * 320 + x
}

/// Whether byte `i` of memory is a framebuffer pixel.
pub open spec fn in_framebuffer(i: int) -> bool {
    0x300 <= i < 0x300 + 76800
}

/// The column of framebuffer byte `i`.
pub open spec fn fb_x(i: int) -> int {
    (i - 0x300) % 320
}

/// The row of framebuffer byte `i`.
pub open spec fn fb_y(i: int) -> int {
    (i - 0x300) / 320
}

/// Memory `m` with each on-screen pixel `(x, y)` for which `f(x, y)` is
/// `Some(c)` set to `c`; every other byte unchanged.
pub open spec fn paint(m: Seq<u8>, f: spec_fn(int, int) -> Option<u8>) -> Seq<u8> {
    Seq::new(
        m.len(),
        |i: int|
            if in_framebuffer(i) {
                match f(fb_x(i), fb_y(i)) {
                    Some(c) => c,
                    None => m[i],
                }
            } else {
                m[i]
            },
    )
}

/// One color on the pixels where `p` holds.
pub open spec fn uniform(p: spec_fn(int, int) -> bool, c: u8) -> spec_fn(int, int) -> Option<u8> {
    |x: int, y: int|
        if p(x, y) {
            Some(c)
        } else {
            None
        }
}

/// Setting pixel `(x, y)`: a no-op off screen.
pub open spec fn plot(m: Seq<u8>, x: int, y: int, c: u8) -> Seq<u8> {
    if on_screen(x, y) {
        m.update(fb_index(x, y), c)
    } else {
        m
    }
}

/// Setting each point of `pts` in turn.
pub open spec fn plot_all(m: Seq<u8>, pts: Seq<(int, int)>, c: u8) -> Seq<u8>
    decreases pts.len(),
{
    if pts.len() == 0 {
        m
    } else {
        plot_all(plot(m, pts[0].0, pts[0].1, c), pts.drop_first(), c)
    }
}

/// Distinct on-screen pixels live at distinct addresses.
pub proof fn lemma_fb_injective(x1: int, y1: int, x2: int, y2: int)
    requires
        on_screen(x1, y1),
        on_screen(x2, y2),
        fb_index(x1, y1) == fb_index(x2, y2),
    ensures
        x1 == x2 && y1 == y2,
{
    lemma_fundamental_div_mod_converse(fb_index(x1, y1) - 0x300, 320, y1, x1);
    lemma_fundamental_div_mod_converse(fb_index(x2, y2) - 0x300, 320, y2, x2);
}

/// An on-screen pixel lives in the framebuffer, at its column and row.
pub proof fn lemma_fb_coords(x: int, y: int)
    requires
        on_screen(x, y),
    ensures
        in_framebuffer(fb_index(x, y)),
        fb_x(fb_index(x, y)) == x,
        fb_y(fb_index(x, y)) == y,
{
    lemma_fundamental_div_mod_converse(fb_index(x, y) - 0x300, 320, y, x);
}

/// Each framebuffer byte is the pixel at its column and row.
pub proof fn lemma_fb_inverse(i: int)
    requires
        in_framebuffer(i),
    ensures
        on_screen(fb_x(i), fb_y(i)),
        fb_index(fb_x(i), fb_y(i)) == i,
{
    let k = i - 0x300;
    assert(k == 320 * (k / 320) + k % 320) by (nonlinear_arith);
    assert(0 <= k % 320 < 320) by (nonlinear_arith);
    assert(0 <= k / 320 < 240) by (nonlinear_arith)
        requires
            0 <= k < 76800,
    ;
}

/// `n` is `paint(m, f)` when it agrees with it pixel by pixel.
pub proof fn lemma_paint_by_pixels(m: Seq<u8>, n: Seq<u8>, f: spec_fn(int, int) -> Option<u8>)
    requires
        n.len() == m.len(),
        m.len() >= 0x300 + 76800,
        forall|i: int| 0 <= i < m.len() && !in_framebuffer(i) ==> n[i] == m[i],
        forall|x: int, y: int|
            on_screen(x, y) ==> n[#[trigger] fb_index(x, y)] == match f(x, y) {
                Some(c) => c,
                None => m[fb_index(x, y)],
            },
    ensures
        n == paint(m, f),
{
    assert forall|i: int| 0 <= i < m.len() implies n[i] == paint(m, f)[i] by {
        if in_framebuffer(i) {
            lemma_fb_inverse(i);
            let x = fb_x(i);
            let y = fb_y(i);
            assert(n[fb_index(x, y)] == match f(x, y) {
                Some(c) => c,
                None => m[fb_index(x, y)],
            });
        }
    }
    assert(n =~= paint(m, f));
}

fn plot_px(mem: &mut GuestMemory, x: i64, y: i64, color: u8)
    ensures
        final(mem)@ == plot(old(mem)@, x as int, y as int, color),
{
    proof {
        use_type_invariant(&*mem);
    }
    if x >= 0 && x < 320 && y >= 0 && y < 240 {
        let i = 0x300 + (y as usize) * 320 + (x as usize);
        mem.set(i, color);
    }
}

// === Graphics ===

/// Memory with every framebuffer byte set to `color`.
pub open spec fn cleared(m: Seq<u8>, color: u8) -> Seq<u8> {
    Seq::new(
        m.len(),
        |i: int|
            if in_framebuffer(i) {
                color
            } else {
                m[i]
            },
    )
}

/// Clears the whole framebuffer to `color`.
pub fn clear(mem: &mut GuestMemory, color: u8)
    ensures
        final(mem)@ == cleared(old(mem)@, color),
{
    proof {
        use_type_invariant(&*mem);
    }
    let ghost start = mem@;
    let mut i: usize = 0;
    while i < FRAMEBUFFER_SIZE
        invariant
            i <= FRAMEBUFFER_SIZE,
            mem@.len() == start.len(),
            start.len() >= MEMORY_SIZE,
            forall|j: int|
                0 <= j < start.len() ==> mem@[j] == if 0x300 <= j < 0x300 + i {
                    color
                } else {
                    start[j]
                },
        decreases FRAMEBUFFER_SIZE - i,
    {
        mem.set(FRAMEBUFFER_BASE + i, color);
        i += 1;
    }
    assert(mem@ =~= Seq::new(
        start.len(),
        |j: int|
            if in_framebuffer(j) {
                color
            } else {
                start[j]
            },
    ));
}

/// Sets one pixel; nothing happens off screen.
pub fn pixel(mem: &mut GuestMemory, x: i32, y: i32, color: u8)
    ensures
        final(mem)@ == plot(old(mem)@, x as int, y as int, color),
{
    plot_px(mem, x as i64, y as i64, color);
}

/// A `u32` size read as an `i32`, as the drawing functions take it.
pub open spec fn as_i32(v: u32) -> int {
    if v <= 0x7fff_ffff {
        v as int
    } else {
        v - 0x1_0000_0000
    }
}

/// The pixels of the filled rectangle at `(x, y)` of size `w` by `h`.
pub open spec fn in_rect(x: int, y: int, w: int, h: int, px: int, py: int) -> bool {
    x <= px < x + w && y <= py < y + h
}

/// Fills the pixels `(px, py)` with `xs <= px < xe`, `ys <= py < ye` that
/// are on screen, all with one color.
fn fill_box(mem: &mut GuestMemory, xs: i64, xe: i64, ys: i64, ye: i64, color: u8)
    requires
        -0x1_0000_0000_0000 <= xs,
        xe <= 0x1_0000_0000_0000,
        -0x1_0000_0000_0000 <= ys,
        ye <= 0x1_0000_0000_0000,
    ensures
        final(mem)@ == paint(
            old(mem)@,
            uniform(|px: int, py: int| xs <= px < xe && ys <= py < ye, color),
        ),
{
    proof {
        use_type_invariant(&*mem);
    }
    let ghost start = mem@;
    let ghost p = |px: int, py: int| xs <= px < xe && ys <= py < ye;
    let x0: i64 = if xs < 0 {
        0
    } else {
        xs
    };
    let x1: i64 = if xe > 320 {
        320
    } else {
        xe
    };
    let y0: i64 = if ys < 0 {
        0
    } else {
        ys
    };
    let y1: i64 = if ye > 240 {
        240
    } else {
        ye
    };
    let mut py = y0;
    while py < y1
        invariant
            0 <= y0 <= py,
            y1 <= 240,
            x0 >= 0,
            x1 <= 320,
            y0 == if ys < 0 { 0 } else { ys },
            y1 == if ye > 240 { 240 } else { ye },
            x0 == if xs < 0 { 0 } else { xs },
            x1 == if xe > 320 { 320 } else { xe },
            mem@.len() == start.len(),
            start.len() >= MEMORY_SIZE,
            forall|i: int| 0 <= i < start.len() && !in_framebuffer(i) ==> mem@[i] == start[i],
            forall|x: int, y: int|
                on_screen(x, y) ==> mem@[#[trigger] fb_index(x, y)] == if xs <= x < xe && ys <= y < ye && y < py {
                    color
                } else {
                    start[fb_index(x, y)]
                },
        decreases y1 - py,
    {
        let mut px = x0;
        while px < x1
            invariant
                0 <= y0 <= py < y1 <= 240,
                0 <= x0 <= px,
                x1 <= 320,
                y0 == if ys < 0 { 0 } else { ys },
                y1 == if ye > 240 { 240 } else { ye },
                x0 == if xs < 0 { 0 } else { xs },
                x1 == if xe > 320 { 320 } else { xe },
                mem@.len() == start.len(),
                start.len() >= MEMORY_SIZE,
                forall|i: int| 0 <= i < start.len() && !in_framebuffer(i) ==> mem@[i] == start[i],
                forall|x: int, y: int|
                    on_screen(x, y) ==> mem@[#[trigger] fb_index(x, y)] == if xs <= x < xe && ys <= y < ye && (y < py
                        || (y == py && x < px)) {
                        color
                    } else {
                        start[fb_index(x, y)]
                    },
            decreases x1 - px,
        {
            proof {
                lemma_fb_coords(px as int, py as int);
            }
            let ghost before = mem@;
            mem.set(0x300 + (py as usize) * 320 + (px as usize), color);
            proof {
                assert forall|x: int, y: int| on_screen(x, y) && !(x == px && y == py) implies mem@[
                    #[trigger] fb_index(x, y)] == before[fb_index(x, y)] by {
                    if fb_index(x, y) == fb_index(px as int, py as int) {
                        lemma_fb_injective(x, y, px as int, py as int);
                    }
                }
            }
            px += 1;
        }
        py += 1;
    }
    proof {
        lemma_paint_by_pixels(start, mem@, uniform(p, color));
    }
}

/// Memory with the rectangle at `(x, y)`, `w` by `h`, filled with `color`.
pub open spec fn rect_filled(m: Seq<u8>, x: int, y: int, w: u32, h: u32, color: u8) -> Seq<u8> {
    paint(m, uniform(|px: int, py: int| in_rect(x, y, as_i32(w), as_i32(h), px, py), color))
}

/// Fills the rectangle at `(x, y)`, `w` wide and `h` high (a size above
/// `i32::MAX` counts as negative, so nothing is drawn).
pub fn rect_fill(mem: &mut GuestMemory, x: i32, y: i32, w: u32, h: u32, color: u8)
    ensures
        final(mem)@ == rect_filled(old(mem)@, x as int, y as int, w, h, color),
{
    let we: i64 = if w <= 0x7fff_ffff {
        w as i64
    } else {
        0
    };
    let he: i64 = if h <= 0x7fff_ffff {
        h as i64
    } else {
        0
    };
    fill_box(mem, x as i64, x as i64 + we, y as i64, y as i64 + he, color);
    proof {
        let p1 = |px: int, py: int| x as i64 <= px < x as i64 + we && y as i64 <= py < y as i64 + he;
        let p2 = |px: int, py: int| in_rect(x as int, y as int, as_i32(w), as_i32(h), px, py);
        assert(uniform(p1, color) =~= uniform(p2, color));
    }
}

// === Lines ===

/// The absolute value.
pub open spec fn abs(v: int) -> int {
    if v < 0 {
        -v
    } else {
        v
    }
}

/// One iteration of Bresenham's walk: the next point and error term.
pub open spec fn line_step(x: int, y: int, err: int, dx: int, dy: int, sx: int, sy: int) -> (
    int,
    int,
    int,
) {
    let e2 = 2 * err;
    let x2 = if e2 >= dy {
        x + sx
    } else {
        x
    };
    let err2 = if e2 >= dy {
        err + dy
    } else {
        err
    };
    let y2 = if e2 <= dx {
        y + sy
    } else {
        y
    };
    let err3 = if e2 <= dx {
        err2 + dx
    } else {
        err2
    };
    (x2, y2, err3)
}

/// The points Bresenham's walk visits from `(x, y)` until it reaches
/// `(x1, y1)` (or runs out of `fuel`).
pub open spec fn line_walk(
    x: int,
    y: int,
    err: int,
    x1: int,
    y1: int,
    dx: int,
    dy: int,
    sx: int,
    sy: int,
    fuel: nat,
) -> Seq<(int, int)>
    decreases fuel,
{
    if (x == x1 && y == y1) || fuel == 0 {
        seq![(x, y)]
    } else {
        let (nx, ny, ne) = line_step(x, y, err, dx, dy, sx, sy);
        seq![(x, y)] + line_walk(nx, ny, ne, x1, y1, dx, dy, sx, sy, (fuel - 1) as nat)
    }
}

/// The points of the line from `(x0, y0)` to `(x1, y1)`, in drawing order.
pub open spec fn line_points(x0: int, y0: int, x1: int, y1: int) -> Seq<(int, int)> {
    let dx = abs(x1 - x0);
    let dy = -abs(y1 - y0);
    let sx = if x0 < x1 {
        1int
    } else {
        -1int
    };
    let sy = if y0 < y1 {
        1int
    } else {
        -1int
    };
    line_walk(x0, y0, dx + dy, x1, y1, dx, dy, sx, sy, (dx - dy) as nat)
}

proof fn lemma_plot_all_cons(m: Seq<u8>, p: (int, int), rest: Seq<(int, int)>, c: u8)
    ensures
        plot_all(m, seq![p] + rest, c) == plot_all(plot(m, p.0, p.1, c), rest, c),
        plot_all(m, seq![p], c) == plot(m, p.0, p.1, c),
{
    let s = seq![p] + rest;
    assert(s[0] == p);
    assert(s.drop_first() =~= rest);
    assert(seq![p].drop_first() =~= Seq::<(int, int)>::empty());
    assert(plot_all(plot(m, p.0, p.1, c), Seq::<(int, int)>::empty(), c) == plot(m, p.0, p.1, c));
}

proof fn lemma_line_err_step(dxa: int, dya: int, xs: int, ys: int, err: int, sx_step: bool, sy_step: bool)
    requires
        err == dxa * (ys + 1) - dya * (xs + 1),
    ensures
        err + (if sx_step {
            -dya
        } else {
            0
        }) + (if sy_step {
            dxa
        } else {
            0
        }) == dxa * (ys + (if sy_step {
            1int
        } else {
            0
        }) + 1) - dya * (xs + (if sx_step {
            1int
        } else {
            0
        }) + 1),
{
    if sx_step {
        assert(dya * (xs + 2) == dya * (xs + 1) + dya) by (nonlinear_arith);
    }
    if sy_step {
        assert(dxa * (ys + 2) == dxa * (ys + 1) + dxa) by (nonlinear_arith);
    }
}

proof fn lemma_line_no_x_overshoot(dxa: int, dya: int, ys: int, err: int)
    requires
        dxa >= 0,
        dya > 0,
        0 <= ys < dya,
        err == dxa * (ys + 1) - dya * (dxa + 1),
    ensures
        2 * err < -dya,
{
    assert(dxa * (ys + 1) <= dxa * dya) by (nonlinear_arith)
        requires
            dxa >= 0,
            ys + 1 <= dya,
    ;
    assert(dya * (dxa + 1) == dya * dxa + dya) by (nonlinear_arith);
    assert(dxa * dya == dya * dxa) by (nonlinear_arith);
}

proof fn lemma_line_no_y_overshoot(dxa: int, dya: int, xs: int, err: int)
    requires
        dya >= 0,
        dxa > 0,
        0 <= xs < dxa,
        err == dxa * (dya + 1) - dya * (xs + 1),
    ensures
        2 * err > dxa,
{
    assert(dya * (xs + 1) <= dya * dxa) by (nonlinear_arith)
        requires
            dya >= 0,
            xs + 1 <= dxa,
    ;
    assert(dxa * (dya + 1) == dxa * dya + dxa) by (nonlinear_arith);
    assert(dxa * dya == dya * dxa) by (nonlinear_arith);
}

/// Whether `w` is `v`, or one step on from `v` toward `target`.
pub open spec fn steps_toward(v: int, w: int, target: int) -> bool {
    ||| w == v
    ||| v < target && w == v + 1
    ||| target < v && w == v - 1
}

/// Whether the points `w[k]` and `w[k + 1]` are neighbours, the second one
/// step on from the first toward `(x1, y1)` in x, in y or in both.
pub open spec fn joined_at(w: Seq<(int, int)>, k: int, x1: int, y1: int) -> bool {
    &&& steps_toward(w[k].0, w[k + 1].0, x1)
    &&& steps_toward(w[k].1, w[k + 1].1, y1)
    &&& w[k] != w[k + 1]
}

proof fn lemma_walk_shape(
    x0: int,
    y0: int,
    x1: int,
    y1: int,
    a: int,
    b: int,
    sx: int,
    sy: int,
    x: int,
    y: int,
    xs: int,
    ys: int,
    err: int,
    fuel: nat,
)
    requires
        a == abs(x1 - x0),
        b == abs(y1 - y0),
        sx == (if x0 < x1 { 1int } else { -1int }),
        sy == (if y0 < y1 { 1int } else { -1int }),
        x == (if x0 < x1 { x0 + xs } else { x0 - xs }),
        y == (if y0 < y1 { y0 + ys } else { y0 - ys }),
        0 <= xs <= a,
        0 <= ys <= b,
        err == a * (ys + 1) - b * (xs + 1),
        a >= b ==> 2 * err >= -b,
        b >= a ==> 2 * err <= a,
        fuel >= (a - xs) + (b - ys),
    ensures
        line_walk(x, y, err, x1, y1, a, -b, sx, sy, fuel).len() >= 1,
        line_walk(x, y, err, x1, y1, a, -b, sx, sy, fuel)[0] == (x, y),
        line_walk(x, y, err, x1, y1, a, -b, sx, sy, fuel).last() == (x1, y1),
        a >= b ==> line_walk(x, y, err, x1, y1, a, -b, sx, sy, fuel).len() == a - xs + 1,
        b >= a ==> line_walk(x, y, err, x1, y1, a, -b, sx, sy, fuel).len() == b - ys + 1,
        forall|k: int|
            0 <= k < line_walk(x, y, err, x1, y1, a, -b, sx, sy, fuel).len() - 1 ==> #[trigger] joined_at(
                line_walk(x, y, err, x1, y1, a, -b, sx, sy, fuel),
                k,
                x1,
                y1,
            ),
    decreases fuel,
{
    let w = line_walk(x, y, err, x1, y1, a, -b, sx, sy, fuel);
    if (x == x1 && y == y1) || fuel == 0 {
        assert(xs == a && ys == b);
        assert(w == seq![(x, y)]);
    } else {
        let e2 = 2 * err;
        let xstep = e2 >= -b;
        let ystep = e2 <= a;
        if xs == a && ys < b {
            lemma_line_no_x_overshoot(a, b, ys, err);
        }
        if ys == b && xs < a {
            lemma_line_no_y_overshoot(a, b, xs, err);
        }
        assert(!(xs == a && ys == b));
        assert(xstep ==> xs < a);
        assert(ystep ==> ys < b);
        assert(xstep || ystep);
        lemma_line_err_step(a, b, xs, ys, err, xstep, ystep);
        let nxs = if xstep { xs + 1 } else { xs };
        let nys = if ystep { ys + 1 } else { ys };
        let (nx, ny, ne) = line_step(x, y, err, a, -b, sx, sy);
        assert(ne == a * (nys + 1) - b * (nxs + 1));
        assert(nx == (if x0 < x1 { x0 + nxs } else { x0 - nxs }));
        assert(ny == (if y0 < y1 { y0 + nys } else { y0 - nys }));
        if a >= b {
            assert(xstep);
        }
        if b >= a {
            assert(ystep);
        }
        lemma_walk_shape(x0, y0, x1, y1, a, b, sx, sy, nx, ny, nxs, nys, ne, (fuel - 1) as nat);
        let rest = line_walk(nx, ny, ne, x1, y1, a, -b, sx, sy, (fuel - 1) as nat);
        assert(w == seq![(x, y)] + rest);
        assert(w[0] == (x, y));
        assert(w.last() == rest.last());
        assert forall|k: int| 0 <= k < w.len() - 1 implies #[trigger] joined_at(w, k, x1, y1) by {
            if k > 0 {
                assert(joined_at(rest, k - 1, x1, y1));
                assert(w[k] == rest[k - 1]);
                assert(w[k + 1] == rest[k]);
            } else {
                assert(w[1] == rest[0]);
            }
        }
    }
}

/// The points of a line run from its start to its end, each a neighbour of
/// the one before, one step on toward the end in x, in y or in both; there
/// are as many as the longer side has pixels, `max(|x1 - x0|, |y1 - y0|) + 1`,
/// so no pixel is skipped and none is drawn twice.
pub proof fn law_line_connected(x0: int, y0: int, x1: int, y1: int)
    ensures
        ({
            let p = line_points(x0, y0, x1, y1);
            &&& p.len() == (if abs(x1 - x0) >= abs(y1 - y0) {
                abs(x1 - x0)
            } else {
                abs(y1 - y0)
            }) + 1
            &&& p[0] == (x0, y0)
            &&& p.last() == (x1, y1)
            &&& forall|k: int| 0 <= k < p.len() - 1 ==> #[trigger] joined_at(p, k, x1, y1)
        }),
{
    let a = abs(x1 - x0);
    let b = abs(y1 - y0);
    let sx = if x0 < x1 { 1int } else { -1int };
    let sy = if y0 < y1 { 1int } else { -1int };
    assert(a * (0int + 1) - b * (0int + 1) == a - b);
    lemma_walk_shape(x0, y0, x1, y1, a, b, sx, sy, x0, y0, 0, 0, a - b, (a + b) as nat);
}

/// Bresenham's line over 64-bit coordinates.
fn draw_line(mem: &mut GuestMemory, x0: i64, y0: i64, x1: i64, y1: i64, color: u8)
    requires
        -0x100_0000_0000 <= x0 <= 0x100_0000_0000,
        -0x100_0000_0000 <= y0 <= 0x100_0000_0000,
        -0x100_0000_0000 <= x1 <= 0x100_0000_0000,
        -0x100_0000_0000 <= y1 <= 0x100_0000_0000,
    ensures
        final(mem)@ == plot_all(
            old(mem)@,
            line_points(x0 as int, y0 as int, x1 as int, y1 as int),
            color,
        ),
{
    let ghost start = mem@;
    let ghost total = line_points(x0 as int, y0 as int, x1 as int, y1 as int);
    let dx: i64 = if x1 >= x0 {
        x1 - x0
    } else {
        x0 - x1
    };
    let dy: i64 = if y1 >= y0 {
        y0 - y1
    } else {
        y1 - y0
    };
    let sx: i64 = if x0 < x1 {
        1
    } else {
        -1
    };
    let sy: i64 = if y0 < y1 {
        1
    } else {
        -1
    };
    let mut err: i64 = dx + dy;
    let mut x = x0;
    let mut y = y0;
    let ghost dxa: int = dx as int;
    let ghost dya: int = -dy;
    let ghost mut xs: int = 0;
    let ghost mut ys: int = 0;
    let ghost mut fuel: nat = (dx - dy) as nat;
    proof {
        assert(dxa * (0int + 1) == dxa) by (nonlinear_arith);
        assert(dya * (0int + 1) == dya) by (nonlinear_arith);
    }
    loop
        invariant
            start == old(mem)@,
            total == line_points(x0 as int, y0 as int, x1 as int, y1 as int),
            dxa == dx,
            dya == -dy,
            0 <= dxa <= 0x200_0000_0000,
            0 <= dya <= 0x200_0000_0000,
            dxa == abs(x1 - x0),
            dya == abs(y1 - y0),
            sx == (if x0 < x1 { 1int } else { -1int }),
            sy == (if y0 < y1 { 1int } else { -1int }),
            0 <= xs <= dxa,
            0 <= ys <= dya,
            x == (if sx == 1 { x0 + xs } else { x0 - xs }),
            y == (if sy == 1 { y0 + ys } else { y0 - ys }),
            err == dxa * (ys + 1) - dya * (xs + 1),
            -2 * dya <= err <= 2 * dxa,
            fuel >= (dxa - xs) + (dya - ys),
            plot_all(mem@, line_walk(x as int, y as int, err as int, x1 as int, y1 as int, dx as int, dy as int, sx as int, sy as int, fuel), color)
                == plot_all(start, total, color),
        decreases (dxa - xs) + (dya - ys),
    {
        let ghost before = mem@;
        plot_px(mem, x, y, color);
        if x == x1 && y == y1 {
            proof {
                lemma_plot_all_cons(before, (x as int, y as int), Seq::empty(), color);
                assert(line_walk(x as int, y as int, err as int, x1 as int, y1 as int, dx as int, dy as int, sx as int, sy as int, fuel) == seq![(x as int, y as int)]);
                assert(plot_all(before, seq![(x as int, y as int)], color) == mem@);
            }
            return;
        }
        proof {
            assert(fuel > 0);
            let (nx, ny, ne) = line_step(x as int, y as int, err as int, dx as int, dy as int, sx as int, sy as int);
            lemma_plot_all_cons(
                before,
                (x as int, y as int),
                line_walk(nx, ny, ne, x1 as int, y1 as int, dx as int, dy as int, sx as int, sy as int, (fuel - 1) as nat),
                color,
            );
        }
        let e2 = 2 * err;
        let xstep = e2 >= dy;
        let ystep = e2 <= dx;
        proof {
            if xs == dxa {
                if ys < dya {
                    lemma_line_no_x_overshoot(dxa, dya, ys, err as int);
                }
            }
            if ys == dya {
                if xs < dxa {
                    lemma_line_no_y_overshoot(dxa, dya, xs, err as int);
                }
            }
            lemma_line_err_step(dxa, dya, xs, ys, err as int, xstep, ystep);
        }
        if xstep {
            err += dy;
            x += sx;
        }
        if ystep {
            err += dx;
            y += sy;
        }
        proof {
            if xstep {
                xs = xs + 1;
            }
            if ystep {
                ys = ys + 1;
            }
            fuel = (fuel - 1) as nat;
        }
    }
}

/// Draws the line from `(x0, y0)` to `(x1, y1)` with Bresenham's algorithm.
pub fn line(mem: &mut GuestMemory, x0: i32, y0: i32, x1: i32, y1: i32, color: u8)
    ensures
        final(mem)@ == plot_all(
            old(mem)@,
            line_points(x0 as int, y0 as int, x1 as int, y1 as int),
            color,
        ),
{
    draw_line(mem, x0 as i64, y0 as i64, x1 as i64, y1 as i64, color);
}

/// The four edges of the outline of the rectangle at `(x, y)`, `w` by `h`,
/// drawn in the order top, bottom, left, right.
pub open spec fn rect_outline(m: Seq<u8>, x: int, y: int, w: int, h: int, c: u8) -> Seq<u8> {
    let m1 = plot_all(m, line_points(x, y, x + w - 1, y), c);
    let m2 = plot_all(m1, line_points(x, y + h - 1, x + w - 1, y + h - 1), c);
    let m3 = plot_all(m2, line_points(x, y, x, y + h - 1), c);
    plot_all(m3, line_points(x + w - 1, y, x + w - 1, y + h - 1), c)
}

/// Draws a rectangle outline (a size above `i32::MAX` counts as negative).
pub fn rect(mem: &mut GuestMemory, x: i32, y: i32, w: u32, h: u32, color: u8)
    ensures
        final(mem)@ == rect_outline(old(mem)@, x as int, y as int, as_i32(w), as_i32(h), color),
{
    let wi: i64 = if w <= 0x7fff_ffff {
        w as i64
    } else {
        w as i64 - 0x1_0000_0000
    };
    let hi: i64 = if h <= 0x7fff_ffff {
        h as i64
    } else {
        h as i64 - 0x1_0000_0000
    };
    let x = x as i64;
    let y = y as i64;
    draw_line(mem, x, y, x + wi - 1, y, color);
    draw_line(mem, x, y + hi - 1, x + wi - 1, y + hi - 1, color);
    draw_line(mem, x, y, x, y + hi - 1, color);
    draw_line(mem, x + wi - 1, y, x + wi - 1, y + hi - 1, color);
}

// === Circles ===

/// The eight symmetric points of `(x, y)` around `(cx, cy)`, in drawing order.
pub open spec fn octants(cx: int, cy: int, x: int, y: int) -> Seq<(int, int)> {
    seq![
        (cx + x, cy + y),
        (cx + y, cy + x),
        (cx - y, cy + x),
        (cx - x, cy + y),
        (cx - x, cy - y),
        (cx - y, cy - x),
        (cx + y, cy - x),
        (cx + x, cy - y),
    ]
}

/// The points the midpoint algorithm visits from state `(x, y, err)`.
pub open spec fn circle_walk(cx: int, cy: int, x: int, y: int, err: int) -> Seq<(int, int)>
    decreases x - y + 2,
{
    if x < y {
        Seq::empty()
    } else {
        let y2 = y + 1;
        let (x2, err2) = if err < 0 {
            (x, err + 2 * y2 + 1)
        } else {
            (x - 1, err + 2 * (y2 - (x - 1)) + 1)
        };
        octants(cx, cy, x, y) + circle_walk(cx, cy, x2, y2, err2)
    }
}

/// The points of the circle outline of radius `r` around `(cx, cy)`, in
/// drawing order (none for a radius above `i32::MAX`, which counts as negative).
pub open spec fn circle_points(cx: int, cy: int, r: int) -> Seq<(int, int)> {
    if r > 0x7fff_ffff {
        Seq::empty()
    } else {
        circle_walk(cx, cy, r, 0, 1 - r)
    }
}

proof fn lemma_plot_all_append(m: Seq<u8>, a: Seq<(int, int)>, b: Seq<(int, int)>, c: u8)
    ensures
        plot_all(m, a + b, c) == plot_all(plot_all(m, a, c), b, c),
    decreases a.len(),
{
    if a.len() == 0 {
        assert(a + b =~= b);
    } else {
        assert((a + b).drop_first() =~= a.drop_first() + b);
        assert((a + b)[0] == a[0]);
        lemma_plot_all_append(plot(m, a[0].0, a[0].1, c), a.drop_first(), b, c);
    }
}

proof fn lemma_circle_err(r: int, x: int, y: int, err: int, dec: bool)
    requires
        err == x * x - x + y * y + 2 * y + 1 - r * r,
    ensures
        !dec ==> err + 2 * (y + 1) + 1 == x * x - x + (y + 1) * (y + 1) + 2 * (y + 1) + 1 - r * r,
        dec ==> err + 2 * ((y + 1) - (x - 1)) + 1 == (x - 1) * (x - 1) - (x - 1) + (y + 1) * (y
            + 1) + 2 * (y + 1) + 1 - r * r,
{
    assert((y + 1) * (y + 1) == y * y + 2 * y + 1) by (nonlinear_arith);
    assert((x - 1) * (x - 1) == x * x - 2 * x + 1) by (nonlinear_arith);
}

proof fn lemma_circle_err_bound(r: int, x: int, y: int, err: int)
    requires
        0 <= r <= 0x7fff_ffff,
        0 <= y <= x + 2,
        -1 <= x <= r,
        err == x * x - x + y * y + 2 * y + 1 - r * r,
    ensures
        -0x10_0000_0000_0000_0000 <= err <= 0x10_0000_0000_0000_0000,
{
    assert(0 <= x * x + 1 <= 0x4000_0000_0000_0000 + 1) by (nonlinear_arith)
        requires
            -1 <= x <= r,
            r <= 0x7fff_ffff,
    ;
    assert(0 <= y * y <= 0x4000_0010_0000_0000) by (nonlinear_arith)
        requires
            0 <= y <= r + 2,
            r <= 0x7fff_ffff,
    ;
    assert(0 <= r * r <= 0x4000_0000_0000_0000) by (nonlinear_arith)
        requires
            0 <= r <= 0x7fff_ffff,
    ;
}

/// Draws a circle outline with the midpoint algorithm.
pub fn circle(mem: &mut GuestMemory, cx: i32, cy: i32, r: u32, color: u8)
    ensures
        final(mem)@ == plot_all(old(mem)@, circle_points(cx as int, cy as int, r as int), color),
{
    if r > 0x7fff_ffff {
        proof {
            assert(plot_all(old(mem)@, Seq::empty(), color) == old(mem)@);
        }
        return;
    }
    let ghost start = mem@;
    let ghost total = circle_points(cx as int, cy as int, r as int);
    let ghost ri = r as int;
    let cx = cx as i64;
    let cy = cy as i64;
    let mut x: i64 = r as i64;
    let mut y: i64 = 0;
    let mut err: i128 = 1 - r as i128;
    while x >= y
        invariant
            ri == r,
            0 <= r <= 0x7fff_ffff,
            -0x8000_0000 <= cx < 0x8000_0000,
            -0x8000_0000 <= cy < 0x8000_0000,
            0 <= y <= x + 2,
            -1 <= x <= r,
            err == x * x - x + y * y + 2 * y + 1 - ri * ri,
            plot_all(mem@, circle_walk(cx as int, cy as int, x as int, y as int, err as int), color)
                == plot_all(start, total, color),
        decreases x - y + 2,
    {
        let ghost before = mem@;
        let ghost eight = octants(cx as int, cy as int, x as int, y as int);
        plot_px(mem, cx + x, cy + y, color);
        plot_px(mem, cx + y, cy + x, color);
        plot_px(mem, cx - y, cy + x, color);
        plot_px(mem, cx - x, cy + y, color);
        plot_px(mem, cx - x, cy - y, color);
        plot_px(mem, cx - y, cy - x, color);
        plot_px(mem, cx + y, cy - x, color);
        plot_px(mem, cx + x, cy - y, color);
        proof {
            reveal_with_fuel(plot_all, 9);
            assert(plot_all(before, eight, color) == mem@);
            let y2 = y + 1;
            let (x2, err2) = if err < 0 {
                (x as int, err + 2 * y2 + 1)
            } else {
                (x - 1, err + 2 * (y2 - (x - 1)) + 1)
            };
            lemma_plot_all_append(before, eight, circle_walk(cx as int, cy as int, x2, y2, err2), color);
            lemma_circle_err(ri, x as int, y as int, err as int, err >= 0);
            lemma_circle_err_bound(ri, x as int, y as int, err as int);
        }
        y += 1;
        if err < 0 {
            err += 2 * y as i128 + 1;
        } else {
            x -= 1;
            err += 2 * (y as i128 - x as i128) + 1;
        }
    }
    proof {
        assert(circle_walk(cx as int, cy as int, x as int, y as int, err as int) == Seq::<(int, int)>::empty());
    }
}

/// The pixels of the filled disk of radius `r` around `(cx, cy)`.
pub open spec fn in_disk(cx: int, cy: int, r: int, px: int, py: int) -> bool {
    &&& r <= 0x7fff_ffff
    &&& -r <= px - cx <= r
    &&& -r <= py - cy <= r
    &&& (px - cx) * (px - cx) + (py - cy) * (py - cy) <= r * r
}

/// Fills the disk of radius `r` around `(cx, cy)`.
pub fn circle_fill(mem: &mut GuestMemory, cx: i32, cy: i32, r: u32, color: u8)
    ensures
        final(mem)@ == paint(
            old(mem)@,
            uniform(|px: int, py: int| in_disk(cx as int, cy as int, r as int, px, py), color),
        ),
{
    proof {
        use_type_invariant(&*mem);
    }
    let ghost start = mem@;
    let ghost f = uniform(|px: int, py: int| in_disk(cx as int, cy as int, r as int, px, py), color);
    if r > 0x7fff_ffff {
        proof {
            lemma_paint_by_pixels(start, mem@, f);
        }
        return;
    }
    let ri = r as i64;
    let cx = cx as i64;
    let cy = cy as i64;
    let x0: i64 = if cx - ri < 0 {
        0
    } else {
        cx - ri
    };
    let x1: i64 = if cx + ri + 1 > 320 {
        320
    } else {
        cx + ri + 1
    };
    let y0: i64 = if cy - ri < 0 {
        0
    } else {
        cy - ri
    };
    let y1: i64 = if cy + ri + 1 > 240 {
        240
    } else {
        cy + ri + 1
    };
    let mut py = y0;
    while py < y1
        invariant
            0 <= ri <= 0x7fff_ffff,
            ri == r,
            -0x8000_0000 <= cx < 0x8000_0000,
            -0x8000_0000 <= cy < 0x8000_0000,
            0 <= y0 <= py,
            y1 <= 240,
            x0 >= 0,
            x1 <= 320,
            y0 == if cy - ri < 0 { 0 } else { cy - ri },
            y1 == if cy + ri + 1 > 240 { 240 } else { cy + ri + 1 },
            x0 == if cx - ri < 0 { 0 } else { cx - ri },
            x1 == if cx + ri + 1 > 320 { 320 } else { cx + ri + 1 },
            mem@.len() == start.len(),
            start.len() >= MEMORY_SIZE,
            forall|i: int| 0 <= i < start.len() && !in_framebuffer(i) ==> mem@[i] == start[i],
            forall|x: int, y: int|
                on_screen(x, y) ==> mem@[#[trigger] fb_index(x, y)] == if in_disk(cx as int, cy as int, ri as int, x, y) && y < py {
                    color
                } else {
                    start[fb_index(x, y)]
                },
        decreases y1 - py,
    {
        let mut px = x0;
        while px < x1
            invariant
                0 <= ri <= 0x7fff_ffff,
                -0x8000_0000 <= cx < 0x8000_0000,
                -0x8000_0000 <= cy < 0x8000_0000,
                0 <= y0 <= py < y1 <= 240,
                0 <= x0 <= px,
                x1 <= 320,
                y0 == if cy - ri < 0 { 0 } else { cy - ri },
                y1 == if cy + ri + 1 > 240 { 240 } else { cy + ri + 1 },
                x0 == if cx - ri < 0 { 0 } else { cx - ri },
                x1 == if cx + ri + 1 > 320 { 320 } else { cx + ri + 1 },
                mem@.len() == start.len(),
                start.len() >= MEMORY_SIZE,
                forall|i: int| 0 <= i < start.len() && !in_framebuffer(i) ==> mem@[i] == start[i],
                forall|x: int, y: int|
                    on_screen(x, y) ==> mem@[#[trigger] fb_index(x, y)] == if in_disk(cx as int, cy as int, ri as int, x, y) && (y < py
                        || (y == py && x < px)) {
                        color
                    } else {
                        start[fb_index(x, y)]
                    },
            decreases x1 - px,
        {
            let ddx = px - cx;
            let ddy = py - cy;
            proof {
                assert(ddx * ddx <= 0x3fff_ffff_0000_0001) by (nonlinear_arith)
                    requires
                        -0x7fff_ffff <= ddx <= 0x7fff_ffff,
                ;
                assert(ddy * ddy <= 0x3fff_ffff_0000_0001) by (nonlinear_arith)
                    requires
                        -0x7fff_ffff <= ddy <= 0x7fff_ffff,
                ;
                assert(0 <= ddx * ddx) by (nonlinear_arith);
                assert(0 <= ddy * ddy) by (nonlinear_arith);
                assert(0 <= ri * ri <= 0x3fff_ffff_0000_0001) by (nonlinear_arith)
                    requires
                        0 <= ri <= 0x7fff_ffff,
                ;
            }
            let inside = ddx * ddx + ddy * ddy <= ri * ri;
            let ghost before = mem@;
            if inside {
                proof {
                    lemma_fb_coords(px as int, py as int);
                }
                mem.set(0x300 + (py as usize) * 320 + (px as usize), color);
                proof {
                    assert forall|x: int, y: int| on_screen(x, y) && !(x == px && y == py) implies mem@[
                        #[trigger] fb_index(x, y)] == before[fb_index(x, y)] by {
                        if fb_index(x, y) == fb_index(px as int, py as int) {
                            lemma_fb_injective(x, y, px as int, py as int);
                        }
                    }
                }
            }
            px += 1;
        }
        py += 1;
    }
    proof {
        lemma_paint_by_pixels(start, mem@, f);
    }
}

/// What `plot` does to each pixel.
pub proof fn lemma_plot_pixelwise(m: Seq<u8>, x: int, y: int, c: u8)
    requires
        m.len() >= 0x300 + 76800,
    ensures
        plot(m, x, y, c).len() == m.len(),
        forall|i: int| 0 <= i < m.len() && !in_framebuffer(i) ==> plot(m, x, y, c)[i] == m[i],
        forall|a: int, b: int|
            on_screen(a, b) ==> plot(m, x, y, c)[#[trigger] fb_index(a, b)] == if a == x && b
                == y {
                c
            } else {
                m[fb_index(a, b)]
            },
{
    if on_screen(x, y) {
        lemma_fb_coords(x, y);
        assert forall|a: int, b: int| on_screen(a, b) && !(a == x && b == y) implies plot(
            m,
            x,
            y,
            c,
        )[#[trigger] fb_index(a, b)] == m[fb_index(a, b)] by {
            if fb_index(a, b) == fb_index(x, y) {
                lemma_fb_injective(a, b, x, y);
            }
        }
    }
}

// === Palette ===

/// The RGB565 encoding of a color: 5 bits of red, 6 of green, 5 of blue.
pub open spec fn rgb565(r: u8, g: u8, b: u8) -> u16 {
    ((r / 8) * 2048 + (g / 4) * 32 + b / 8) as u16
}

/// Memory with palette entry `index` holding `(r, g, b)` as RGB565.
pub open spec fn palette_entry(m: Seq<u8>, index: u8, r: u8, g: u8, b: u8) -> Seq<u8> {
    m.update(index * 2, (rgb565(r, g, b) % 256) as u8).update(index * 2 + 1, (rgb565(r, g, b) / 256) as u8)
}

/// Sets palette entry `index` to the RGB565 encoding of `(r, g, b)`.
pub fn set_palette(mem: &mut GuestMemory, index: u8, r: u8, g: u8, b: u8)
    ensures
        final(mem)@ == palette_entry(old(mem)@, index, r, g, b),
{
    let _n = mem.len();
    let v: u16 = (r as u16 / 8) * 2048 + (g as u16 / 4) * 32 + b as u16 / 8;
    mem_write_u16(mem, PALETTE_BASE + index as usize * 2, v);
}

// === Text ===

/// The built-in 5x7 font: five column bytes per character from ' ' to '~';
/// bit `row` of a column byte is the pixel at that row.
pub open spec fn font() -> Seq<u8> {
    seq![
        0x00u8, 0x00u8, 0x00u8, 0x00u8, 0x00u8,
        0x00u8, 0x00u8, 0x5Fu8, 0x00u8, 0x00u8,
        0x00u8, 0x07u8, 0x00u8, 0x07u8, 0x00u8,
        0x14u8, 0x7Fu8, 0x14u8, 0x7Fu8, 0x14u8,
        0x24u8, 0x2Au8, 0x7Fu8, 0x2Au8, 0x12u8,
        0x23u8, 0x13u8, 0x08u8, 0x64u8, 0x62u8,
        0x36u8, 0x49u8, 0x55u8, 0x22u8, 0x50u8,
        0x00u8, 0x05u8, 0x03u8, 0x00u8, 0x00u8,
        0x00u8, 0x1Cu8, 0x22u8, 0x41u8, 0x00u8,
        0x00u8, 0x41u8, 0x22u8, 0x1Cu8, 0x00u8,
        0x14u8, 0x08u8, 0x3Eu8, 0x08u8, 0x14u8,
        0x08u8, 0x08u8, 0x3Eu8, 0x08u8, 0x08u8,
        0x00u8, 0x50u8, 0x30u8, 0x00u8, 0x00u8,
        0x08u8, 0x08u8, 0x08u8, 0x08u8, 0x08u8,
        0x00u8, 0x60u8, 0x60u8, 0x00u8, 0x00u8,
        0x20u8, 0x10u8, 0x08u8, 0x04u8, 0x02u8,
        0x3Eu8, 0x51u8, 0x49u8, 0x45u8, 0x3Eu8,
        0x00u8, 0x42u8, 0x7Fu8, 0x40u8, 0x00u8,
        0x42u8, 0x61u8, 0x51u8, 0x49u8, 0x46u8,
        0x21u8, 0x41u8, 0x45u8, 0x4Bu8, 0x31u8,
        0x18u8, 0x14u8, 0x12u8, 0x7Fu8, 0x10u8,
        0x27u8, 0x45u8, 0x45u8, 0x45u8, 0x39u8,
        0x3Cu8, 0x4Au8, 0x49u8, 0x49u8, 0x30u8,
        0x01u8, 0x71u8, 0x09u8, 0x05u8, 0x03u8,
        0x36u8, 0x49u8, 0x49u8, 0x49u8, 0x36u8,
        0x06u8, 0x49u8, 0x49u8, 0x29u8, 0x1Eu8,
        0x00u8, 0x36u8, 0x36u8, 0x00u8, 0x00u8,
        0x00u8, 0x56u8, 0x36u8, 0x00u8, 0x00u8,
        0x08u8, 0x14u8, 0x22u8, 0x41u8, 0x00u8,
        0x14u8, 0x14u8, 0x14u8, 0x14u8, 0x14u8,
        0x00u8, 0x41u8, 0x22u8, 0x14u8, 0x08u8,
        0x02u8, 0x01u8, 0x51u8, 0x09u8, 0x06u8,
        0x32u8, 0x49u8, 0x79u8, 0x41u8, 0x3Eu8,
        0x7Eu8, 0x11u8, 0x11u8, 0x11u8, 0x7Eu8,
        0x7Fu8, 0x49u8, 0x49u8, 0x49u8, 0x36u8,
        0x3Eu8, 0x41u8, 0x41u8, 0x41u8, 0x22u8,
        0x7Fu8, 0x41u8, 0x41u8, 0x22u8, 0x1Cu8,
        0x7Fu8, 0x49u8, 0x49u8, 0x49u8, 0x41u8,
        0x7Fu8, 0x09u8, 0x09u8, 0x09u8, 0x01u8,
        0x3Eu8, 0x41u8, 0x49u8, 0x49u8, 0x7Au8,
        0x7Fu8, 0x08u8, 0x08u8, 0x08u8, 0x7Fu8,
        0x00u8, 0x41u8, 0x7Fu8, 0x41u8, 0x00u8,
        0x20u8, 0x40u8, 0x41u8, 0x3Fu8, 0x01u8,
        0x7Fu8, 0x08u8, 0x14u8, 0x22u8, 0x41u8,
        0x7Fu8, 0x40u8, 0x40u8, 0x40u8, 0x40u8,
        0x7Fu8, 0x02u8, 0x0Cu8, 0x02u8, 0x7Fu8,
        0x7Fu8, 0x04u8, 0x08u8, 0x10u8, 0x7Fu8,
        0x3Eu8, 0x41u8, 0x41u8, 0x41u8, 0x3Eu8,
        0x7Fu8, 0x09u8, 0x09u8, 0x09u8, 0x06u8,
        0x3Eu8, 0x41u8, 0x51u8, 0x21u8, 0x5Eu8,
        0x7Fu8, 0x09u8, 0x19u8, 0x29u8, 0x46u8,
        0x46u8, 0x49u8, 0x49u8, 0x49u8, 0x31u8,
        0x01u8, 0x01u8, 0x7Fu8, 0x01u8, 0x01u8,
        0x3Fu8, 0x40u8, 0x40u8, 0x40u8, 0x3Fu8,
        0x1Fu8, 0x20u8, 0x40u8, 0x20u8, 0x1Fu8,
        0x3Fu8, 0x40u8, 0x38u8, 0x40u8, 0x3Fu8,
        0x63u8, 0x14u8, 0x08u8, 0x14u8, 0x63u8,
        0x07u8, 0x08u8, 0x70u8, 0x08u8, 0x07u8,
        0x61u8, 0x51u8, 0x49u8, 0x45u8, 0x43u8,
        0x00u8, 0x7Fu8, 0x41u8, 0x41u8, 0x00u8,
        0x02u8, 0x04u8, 0x08u8, 0x10u8, 0x20u8,
        0x00u8, 0x41u8, 0x41u8, 0x7Fu8, 0x00u8,
        0x04u8, 0x02u8, 0x01u8, 0x02u8, 0x04u8,
        0x40u8, 0x40u8, 0x40u8, 0x40u8, 0x40u8,
        0x00u8, 0x01u8, 0x02u8, 0x04u8, 0x00u8,
        0x20u8, 0x54u8, 0x54u8, 0x54u8, 0x78u8,
        0x7Fu8, 0x48u8, 0x44u8, 0x44u8, 0x38u8,
        0x38u8, 0x44u8, 0x44u8, 0x44u8, 0x20u8,
        0x38u8, 0x44u8, 0x44u8, 0x48u8, 0x7Fu8,
        0x38u8, 0x54u8, 0x54u8, 0x54u8, 0x18u8,
        0x08u8, 0x7Eu8, 0x09u8, 0x01u8, 0x02u8,
        0x0Cu8, 0x52u8, 0x52u8, 0x52u8, 0x3Eu8,
        0x7Fu8, 0x08u8, 0x04u8, 0x04u8, 0x78u8,
        0x00u8, 0x44u8, 0x7Du8, 0x40u8, 0x00u8,
        0x20u8, 0x40u8, 0x44u8, 0x3Du8, 0x00u8,
        0x7Fu8, 0x10u8, 0x28u8, 0x44u8, 0x00u8,
        0x00u8, 0x41u8, 0x7Fu8, 0x40u8, 0x00u8,
        0x7Cu8, 0x04u8, 0x18u8, 0x04u8, 0x78u8,
        0x7Cu8, 0x08u8, 0x04u8, 0x04u8, 0x78u8,
        0x38u8, 0x44u8, 0x44u8, 0x44u8, 0x38u8,
        0x7Cu8, 0x14u8, 0x14u8, 0x14u8, 0x08u8,
        0x08u8, 0x14u8, 0x14u8, 0x18u8, 0x7Cu8,
        0x7Cu8, 0x08u8, 0x04u8, 0x04u8, 0x08u8,
        0x48u8, 0x54u8, 0x54u8, 0x54u8, 0x20u8,
        0x04u8, 0x3Fu8, 0x44u8, 0x40u8, 0x20u8,
        0x3Cu8, 0x40u8, 0x40u8, 0x20u8, 0x7Cu8,
        0x1Cu8, 0x20u8, 0x40u8, 0x20u8, 0x1Cu8,
        0x3Cu8, 0x40u8, 0x30u8, 0x40u8, 0x3Cu8,
        0x44u8, 0x28u8, 0x10u8, 0x28u8, 0x44u8,
        0x0Cu8, 0x50u8, 0x50u8, 0x50u8, 0x3Cu8,
        0x44u8, 0x64u8, 0x54u8, 0x4Cu8, 0x44u8,
        0x00u8, 0x08u8, 0x36u8, 0x41u8, 0x00u8,
        0x00u8, 0x00u8, 0x7Fu8, 0x00u8, 0x00u8,
        0x00u8, 0x41u8, 0x36u8, 0x08u8, 0x00u8,
        0x10u8, 0x08u8, 0x08u8, 0x10u8, 0x10u8,
    ]
}

fn font_table() -> (t: Vec<u8>)
    ensures
        t@ == font(),
{
    let t: Vec<u8> = vec![
        0x00u8, 0x00u8, 0x00u8, 0x00u8, 0x00u8,
        0x00u8, 0x00u8, 0x5Fu8, 0x00u8, 0x00u8,
        0x00u8, 0x07u8, 0x00u8, 0x07u8, 0x00u8,
        0x14u8, 0x7Fu8, 0x14u8, 0x7Fu8, 0x14u8,
        0x24u8, 0x2Au8, 0x7Fu8, 0x2Au8, 0x12u8,
        0x23u8, 0x13u8, 0x08u8, 0x64u8, 0x62u8,
        0x36u8, 0x49u8, 0x55u8, 0x22u8, 0x50u8,
        0x00u8, 0x05u8, 0x03u8, 0x00u8, 0x00u8,
        0x00u8, 0x1Cu8, 0x22u8, 0x41u8, 0x00u8,
        0x00u8, 0x41u8, 0x22u8, 0x1Cu8, 0x00u8,
        0x14u8, 0x08u8, 0x3Eu8, 0x08u8, 0x14u8,
        0x08u8, 0x08u8, 0x3Eu8, 0x08u8, 0x08u8,
        0x00u8, 0x50u8, 0x30u8, 0x00u8, 0x00u8,
        0x08u8, 0x08u8, 0x08u8, 0x08u8, 0x08u8,
        0x00u8, 0x60u8, 0x60u8, 0x00u8, 0x00u8,
        0x20u8, 0x10u8, 0x08u8, 0x04u8, 0x02u8,
        0x3Eu8, 0x51u8, 0x49u8, 0x45u8, 0x3Eu8,
        0x00u8, 0x42u8, 0x7Fu8, 0x40u8, 0x00u8,
        0x42u8, 0x61u8, 0x51u8, 0x49u8, 0x46u8,
        0x21u8, 0x41u8, 0x45u8, 0x4Bu8, 0x31u8,
        0x18u8, 0x14u8, 0x12u8, 0x7Fu8, 0x10u8,
        0x27u8, 0x45u8, 0x45u8, 0x45u8, 0x39u8,
        0x3Cu8, 0x4Au8, 0x49u8, 0x49u8, 0x30u8,
        0x01u8, 0x71u8, 0x09u8, 0x05u8, 0x03u8,
        0x36u8, 0x49u8, 0x49u8, 0x49u8, 0x36u8,
        0x06u8, 0x49u8, 0x49u8, 0x29u8, 0x1Eu8,
        0x00u8, 0x36u8, 0x36u8, 0x00u8, 0x00u8,
        0x00u8, 0x56u8, 0x36u8, 0x00u8, 0x00u8,
        0x08u8, 0x14u8, 0x22u8, 0x41u8, 0x00u8,
        0x14u8, 0x14u8, 0x14u8, 0x14u8, 0x14u8,
        0x00u8, 0x41u8, 0x22u8, 0x14u8, 0x08u8,
        0x02u8, 0x01u8, 0x51u8, 0x09u8, 0x06u8,
        0x32u8, 0x49u8, 0x79u8, 0x41u8, 0x3Eu8,
        0x7Eu8, 0x11u8, 0x11u8, 0x11u8, 0x7Eu8,
        0x7Fu8, 0x49u8, 0x49u8, 0x49u8, 0x36u8,
        0x3Eu8, 0x41u8, 0x41u8, 0x41u8, 0x22u8,
        0x7Fu8, 0x41u8, 0x41u8, 0x22u8, 0x1Cu8,
        0x7Fu8, 0x49u8, 0x49u8, 0x49u8, 0x41u8,
        0x7Fu8, 0x09u8, 0x09u8, 0x09u8, 0x01u8,
        0x3Eu8, 0x41u8, 0x49u8, 0x49u8, 0x7Au8,
        0x7Fu8, 0x08u8, 0x08u8, 0x08u8, 0x7Fu8,
        0x00u8, 0x41u8, 0x7Fu8, 0x41u8, 0x00u8,
        0x20u8, 0x40u8, 0x41u8, 0x3Fu8, 0x01u8,
        0x7Fu8, 0x08u8, 0x14u8, 0x22u8, 0x41u8,
        0x7Fu8, 0x40u8, 0x40u8, 0x40u8, 0x40u8,
        0x7Fu8, 0x02u8, 0x0Cu8, 0x02u8, 0x7Fu8,
        0x7Fu8, 0x04u8, 0x08u8, 0x10u8, 0x7Fu8,
        0x3Eu8, 0x41u8, 0x41u8, 0x41u8, 0x3Eu8,
        0x7Fu8, 0x09u8, 0x09u8, 0x09u8, 0x06u8,
        0x3Eu8, 0x41u8, 0x51u8, 0x21u8, 0x5Eu8,
        0x7Fu8, 0x09u8, 0x19u8, 0x29u8, 0x46u8,
        0x46u8, 0x49u8, 0x49u8, 0x49u8, 0x31u8,
        0x01u8, 0x01u8, 0x7Fu8, 0x01u8, 0x01u8,
        0x3Fu8, 0x40u8, 0x40u8, 0x40u8, 0x3Fu8,
        0x1Fu8, 0x20u8, 0x40u8, 0x20u8, 0x1Fu8,
        0x3Fu8, 0x40u8, 0x38u8, 0x40u8, 0x3Fu8,
        0x63u8, 0x14u8, 0x08u8, 0x14u8, 0x63u8,
        0x07u8, 0x08u8, 0x70u8, 0x08u8, 0x07u8,
        0x61u8, 0x51u8, 0x49u8, 0x45u8, 0x43u8,
        0x00u8, 0x7Fu8, 0x41u8, 0x41u8, 0x00u8,
        0x02u8, 0x04u8, 0x08u8, 0x10u8, 0x20u8,
        0x00u8, 0x41u8, 0x41u8, 0x7Fu8, 0x00u8,
        0x04u8, 0x02u8, 0x01u8, 0x02u8, 0x04u8,
        0x40u8, 0x40u8, 0x40u8, 0x40u8, 0x40u8,
        0x00u8, 0x01u8, 0x02u8, 0x04u8, 0x00u8,
        0x20u8, 0x54u8, 0x54u8, 0x54u8, 0x78u8,
        0x7Fu8, 0x48u8, 0x44u8, 0x44u8, 0x38u8,
        0x38u8, 0x44u8, 0x44u8, 0x44u8, 0x20u8,
        0x38u8, 0x44u8, 0x44u8, 0x48u8, 0x7Fu8,
        0x38u8, 0x54u8, 0x54u8, 0x54u8, 0x18u8,
        0x08u8, 0x7Eu8, 0x09u8, 0x01u8, 0x02u8,
        0x0Cu8, 0x52u8, 0x52u8, 0x52u8, 0x3Eu8,
        0x7Fu8, 0x08u8, 0x04u8, 0x04u8, 0x78u8,
        0x00u8, 0x44u8, 0x7Du8, 0x40u8, 0x00u8,
        0x20u8, 0x40u8, 0x44u8, 0x3Du8, 0x00u8,
        0x7Fu8, 0x10u8, 0x28u8, 0x44u8, 0x00u8,
        0x00u8, 0x41u8, 0x7Fu8, 0x40u8, 0x00u8,
        0x7Cu8, 0x04u8, 0x18u8, 0x04u8, 0x78u8,
        0x7Cu8, 0x08u8, 0x04u8, 0x04u8, 0x78u8,
        0x38u8, 0x44u8, 0x44u8, 0x44u8, 0x38u8,
        0x7Cu8, 0x14u8, 0x14u8, 0x14u8, 0x08u8,
        0x08u8, 0x14u8, 0x14u8, 0x18u8, 0x7Cu8,
        0x7Cu8, 0x08u8, 0x04u8, 0x04u8, 0x08u8,
        0x48u8, 0x54u8, 0x54u8, 0x54u8, 0x20u8,
        0x04u8, 0x3Fu8, 0x44u8, 0x40u8, 0x20u8,
        0x3Cu8, 0x40u8, 0x40u8, 0x20u8, 0x7Cu8,
        0x1Cu8, 0x20u8, 0x40u8, 0x20u8, 0x1Cu8,
        0x3Cu8, 0x40u8, 0x30u8, 0x40u8, 0x3Cu8,
        0x44u8, 0x28u8, 0x10u8, 0x28u8, 0x44u8,
        0x0Cu8, 0x50u8, 0x50u8, 0x50u8, 0x3Cu8,
        0x44u8, 0x64u8, 0x54u8, 0x4Cu8, 0x44u8,
        0x00u8, 0x08u8, 0x36u8, 0x41u8, 0x00u8,
        0x00u8, 0x00u8, 0x7Fu8, 0x00u8, 0x00u8,
        0x00u8, 0x41u8, 0x36u8, 0x08u8, 0x00u8,
        0x10u8, 0x08u8, 0x08u8, 0x10u8, 0x10u8,
    ];
    assert(t@ =~= font());
    t
}

/// Whether pixel `(col, row)` of the glyph of byte `ch` is set.
pub open spec fn glyph_on(ch: u8, col: int, row: int) -> bool {
    &&& 32 <= ch <= 126
    &&& 0 <= col < 5
    &&& 0 <= row < 7
    &&& (font()[(ch - 32) * 5 + col] & (1u8 << (row as u8))) != 0
}

/// The glyph of byte `ch` with its top-left corner at `(gx, gy)`.
pub open spec fn glyph_pixels(ch: u8, gx: int, gy: int) -> spec_fn(int, int) -> bool {
    |px: int, py: int| glyph_on(ch, px - gx, py - gy)
}

/// Memory after drawing the first `k` bytes of `s` at `(x, y)`, each
/// character cell 6 pixels wide.
pub open spec fn text_drawn(m: Seq<u8>, s: Seq<u8>, x: int, y: int, c: u8, k: int) -> Seq<u8>
    decreases k,
{
    if k <= 0 {
        m
    } else {
        paint(
            text_drawn(m, s, x, y, c, k - 1),
            uniform(glyph_pixels(s[k - 1], x + 6 * (k - 1), y), c),
        )
    }
}

fn draw_glyph(mem: &mut GuestMemory, table: &Vec<u8>, ch: u8, gx: i128, gy: i128, color: u8)
    requires
        table@ == font(),
    ensures
        final(mem)@ == paint(old(mem)@, uniform(glyph_pixels(ch, gx as int, gy as int), color)),
{
    proof {
        use_type_invariant(&*mem);
    }
    let ghost start = mem@;
    if ch >= 32 && ch <= 126 && -8 <= gx && gx <= 328 && -8 <= gy && gy <= 248 {
        let idx = (ch - 32) as usize * 5;
        let mut col: u8 = 0;
        while col < 5
            invariant
                32 <= ch <= 126,
                idx == (ch - 32) * 5,
                -8 <= gx <= 328,
                -8 <= gy <= 248,
                table@ == font(),
                table@.len() == 475,
                col <= 5,
                mem@.len() == start.len(),
                start.len() >= MEMORY_SIZE,
                forall|i: int| 0 <= i < start.len() && !in_framebuffer(i) ==> mem@[i] == start[i],
                forall|x: int, y: int|
                    on_screen(x, y) ==> mem@[#[trigger] fb_index(x, y)] == if glyph_on(ch, x - gx, y - gy) && x - gx < col {
                        color
                    } else {
                        start[fb_index(x, y)]
                    },
            decreases 5 - col,
        {
            let column_data = table[idx + col as usize];
            let mut row: u8 = 0;
            while row < 7
                invariant
                    32 <= ch <= 126,
                    idx == (ch - 32) * 5,
                    -8 <= gx <= 328,
                    -8 <= gy <= 248,
                    table@ == font(),
                    col < 5,
                    row <= 7,
                    column_data == font()[(ch - 32) * 5 + col],
                    mem@.len() == start.len(),
                    start.len() >= MEMORY_SIZE,
                    forall|i: int| 0 <= i < start.len() && !in_framebuffer(i) ==> mem@[i] == start[i],
                    forall|x: int, y: int|
                        on_screen(x, y) ==> mem@[#[trigger] fb_index(x, y)] == if glyph_on(ch, x - gx, y - gy) && (x - gx < col || (x - gx == col && y - gy < row)) {
                            color
                        } else {
                            start[fb_index(x, y)]
                        },
                decreases 7 - row,
            {
                if column_data & (1u8 << row) != 0 {
                    let ghost before = mem@;
                    plot_px(mem, gx as i64 + col as i64, gy as i64 + row as i64, color);
                    proof {
                        lemma_plot_pixelwise(before, gx + col, gy + row, color);
                    }
                }
                row += 1;
            }
            col += 1;
        }
    }
    proof {
        lemma_paint_by_pixels(start, mem@, uniform(glyph_pixels(ch, gx as int, gy as int), color));
    }
}

/// Memory with the text `s` drawn from `(x, y)`.
pub open spec fn text_at(m: Seq<u8>, s: Seq<u8>, x: int, y: int, c: u8) -> Seq<u8> {
    text_drawn(m, s, x, y, c, s.len() as int)
}

/// Draws `s` with the built-in font, one 6-pixel cell per byte; bytes
/// outside ' '..='~' leave their cell empty.
pub fn text(mem: &mut GuestMemory, s: &str, x: i32, y: i32, color: u8)
    ensures
        final(mem)@ == text_at(old(mem)@, s.spec_bytes(), x as int, y as int, color),
{
    let table = font_table();
    let bytes = s.as_bytes();
    let mut k: usize = 0;
    let mut cx: i128 = x as i128;
    while k < bytes.len()
        invariant
            table@ == font(),
            bytes@ == s.spec_bytes(),
            k <= bytes@.len(),
            cx == x + 6 * k,
            mem@ == text_drawn(old(mem)@, bytes@, x as int, y as int, color, k as int),
        decreases bytes@.len() - k,
    {
        draw_glyph(mem, &table, bytes[k], cx, y as i128, color);
        k += 1;
        cx += 6;
    }
}

// === Sprites ===

/// The spritesheet region of memory (128x128 indexed pixels, row-major).
pub open spec fn spritesheet_of(m: Seq<u8>) -> Seq<u8> {
    m.subrange(0x14200int, 0x14200int + 16384)
}

/// The color the region `(sx, sy, sw, sh)` of `sheet`, drawn at `(dx, dy)`
/// with `flags`, gives pixel `(px, py)`; color 0 is transparent, and source
/// pixels past the end of the sheet are skipped.
pub open spec fn sprite_color(
    sheet: Seq<u8>,
    sx: int,
    sy: int,
    sw: int,
    sh: int,
    dx: int,
    dy: int,
    flags: u8,
    px: int,
    py: int,
) -> Option<u8> {
    let col = px - dx;
    let row = py - dy;
    if 0 <= col < sw && 0 <= row < sh {
        let scol = if flags & 1u8 != 0 {
            sw - 1 - col
        } else {
            col
        };
        let srow = if flags & 2u8 != 0 {
            sh - 1 - row
        } else {
            row
        };
        let off = (sy + srow) * 128 + (sx + scol);
        if off < 16384 && sheet[off] != 0 {
            Some(sheet[off])
        } else {
            None
        }
    } else {
        None
    }
}

/// The pixels a sprite region draw gives.
pub open spec fn sprite_paint(
    sheet: Seq<u8>,
    sx: int,
    sy: int,
    sw: int,
    sh: int,
    dx: int,
    dy: int,
    flags: u8,
) -> spec_fn(int, int) -> Option<u8> {
    |px: int, py: int| sprite_color(sheet, sx, sy, sw, sh, dx, dy, flags, px, py)
}

#[verifier::rlimit(40)]
fn draw_region(
    mem: &mut GuestMemory,
    sx: u32,
    sy: u32,
    sw: u32,
    sh: u32,
    dx: i64,
    dy: i64,
    flags: u8,
)
    requires
        -0x1_0000_0000_0000 <= dx <= 0x1_0000_0000_0000,
        -0x1_0000_0000_0000 <= dy <= 0x1_0000_0000_0000,
    ensures
        final(mem)@ == paint(
            old(mem)@,
            sprite_paint(
                spritesheet_of(old(mem)@),
                sx as int,
                sy as int,
                sw as int,
                sh as int,
                dx as int,
                dy as int,
                flags,
            ),
        ),
{
    proof {
        use_type_invariant(&*mem);
    }
    let ghost start = mem@;
    let ghost sheet = spritesheet_of(start);
    let flip_x = flags & SPRITE_FLIP_X != 0;
    let flip_y = flags & SPRITE_FLIP_Y != 0;
    let x0: i64 = if dx < 0 {
        0
    } else {
        dx
    };
    let x1: i64 = if dx + sw as i64 > 320 {
        320
    } else {
        dx + sw as i64
    };
    let y0: i64 = if dy < 0 {
        0
    } else {
        dy
    };
    let y1: i64 = if dy + sh as i64 > 240 {
        240
    } else {
        dy + sh as i64
    };
    let mut py = y0;
    while py < y1
        invariant
            flip_x == (flags & 1u8 != 0),
            flip_y == (flags & 2u8 != 0),
            sheet == spritesheet_of(start),
            -0x1_0000_0000_0000 <= dx <= 0x1_0000_0000_0000,
            -0x1_0000_0000_0000 <= dy <= 0x1_0000_0000_0000,
            0 <= y0 <= py,
            y1 <= 240,
            x0 >= 0,
            x1 <= 320,
            y0 == if dy < 0 { 0 } else { dy },
            y1 == if dy + sh > 240 { 240 } else { dy + sh },
            x0 == if dx < 0 { 0 } else { dx },
            x1 == if dx + sw > 320 { 320 } else { dx + sw },
            mem@.len() == start.len(),
            start.len() >= MEMORY_SIZE,
            forall|i: int| 0 <= i < start.len() && !in_framebuffer(i) ==> mem@[i] == start[i],
            forall|x: int, y: int|
                on_screen(x, y) ==> mem@[#[trigger] fb_index(x, y)] == if y < py {
                    match sprite_color(sheet, sx as int, sy as int, sw as int, sh as int, dx as int, dy as int, flags, x, y) {
                        Some(c) => c,
                        None => start[fb_index(x, y)],
                    }
                } else {
                    start[fb_index(x, y)]
                },
        decreases y1 - py,
    {
        let mut px = x0;
        while px < x1
            invariant
                flip_x == (flags & 1u8 != 0),
                flip_y == (flags & 2u8 != 0),
                sheet == spritesheet_of(start),
                -0x1_0000_0000_0000 <= dx <= 0x1_0000_0000_0000,
                -0x1_0000_0000_0000 <= dy <= 0x1_0000_0000_0000,
                0 <= y0 <= py < y1 <= 240,
                0 <= x0 <= px,
                x1 <= 320,
                y0 == if dy < 0 { 0 } else { dy },
                y1 == if dy + sh > 240 { 240 } else { dy + sh },
                x0 == if dx < 0 { 0 } else { dx },
                x1 == if dx + sw > 320 { 320 } else { dx + sw },
                mem@.len() == start.len(),
                start.len() >= MEMORY_SIZE,
                forall|i: int| 0 <= i < start.len() && !in_framebuffer(i) ==> mem@[i] == start[i],
                forall|x: int, y: int|
                    on_screen(x, y) ==> mem@[#[trigger] fb_index(x, y)] == if y < py || (y == py && x < px) {
                        match sprite_color(sheet, sx as int, sy as int, sw as int, sh as int, dx as int, dy as int, flags, x, y) {
                            Some(c) => c,
                            None => start[fb_index(x, y)],
                        }
                    } else {
                        start[fb_index(x, y)]
                    },
            decreases x1 - px,
        {
            let col = (px - dx) as u64;
            let row = (py - dy) as u64;
            let src_col: u64 = if flip_x {
                sw as u64 - 1 - col
            } else {
                col
            };
            let src_row: u64 = if flip_y {
                sh as u64 - 1 - row
            } else {
                row
            };
            let off: u64 = (sy as u64 + src_row) * 128 + (sx as u64 + src_col);
            let ghost before = mem@;
            let ghost sc = sprite_color(
                sheet,
                sx as int,
                sy as int,
                sw as int,
                sh as int,
                dx as int,
                dy as int,
                flags,
                px as int,
                py as int,
            );
            proof {
                lemma_fb_coords(px as int, py as int);
                assert(0 <= px - dx < sw);
                assert(0 <= py - dy < sh);
            }
            if off < 16384 {
                let color = mem.get(SPRITESHEET_BASE + off as usize);
                proof {
                    let ghost a: int = 0x14200 + off;
                    assert(!in_framebuffer(a) && a < start.len());
                    assert(mem@[a] == start[a]);
                    assert(sheet[off as int] == start[a]);
                }
                if color != 0 {
                    mem.set(0x300 + (py as usize) * 320 + (px as usize), color);
                    proof {
                        assert(sc == Some(color));
                    }
                } else {
                    assert(sc is None);
                }
            } else {
                assert(sc is None);
            }
            proof {
                assert forall|x: int, y: int| on_screen(x, y) implies mem@[#[trigger] fb_index(x, y)] == if y
                    < py || (y == py && x < px + 1) {
                    match sprite_color(sheet, sx as int, sy as int, sw as int, sh as int, dx as int, dy as int, flags, x, y) {
                        Some(c) => c,
                        None => start[fb_index(x, y)],
                    }
                } else {
                    start[fb_index(x, y)]
                } by {
                    if x == px && y == py {
                    } else {
                        if fb_index(x, y) == fb_index(px as int, py as int) {
                            lemma_fb_injective(x, y, px as int, py as int);
                        }
                        assert(mem@[fb_index(x, y)] == before[fb_index(x, y)]);
                    }
                }
                assert forall|i: int| 0 <= i < start.len() && !in_framebuffer(i) implies mem@[i] == start[i] by {
                    assert(mem@[i] == before[i]);
                }
            }
            px += 1;
        }
        py += 1;
    }
    proof {
        lemma_paint_by_pixels(
            start,
            mem@,
            sprite_paint(sheet, sx as int, sy as int, sw as int, sh as int, dx as int, dy as int, flags),
        );
    }
}

/// Draws the region `(sx, sy, sw, sh)` of the spritesheet at `(dx, dy)`;
/// `flags` may flip it horizontally (`SPRITE_FLIP_X`) and vertically
/// (`SPRITE_FLIP_Y`). Color 0 is transparent.
pub fn sprite_region(
    mem: &mut GuestMemory,
    sx: u32,
    sy: u32,
    sw: u32,
    sh: u32,
    dx: i32,
    dy: i32,
    flags: u8,
)
    ensures
        final(mem)@ == paint(
            old(mem)@,
            sprite_paint(
                spritesheet_of(old(mem)@),
                sx as int,
                sy as int,
                sw as int,
                sh as int,
                dx as int,
                dy as int,
                flags,
            ),
        ),
{
    draw_region(mem, sx, sy, sw, sh, dx as i64, dy as i64, flags);
}

/// The spritesheet corner of 8x8 tile `id` (16 tiles per row).
pub open spec fn tile_origin(id: u16) -> (int, int) {
    (((id % 16) * 8) as int, ((id / 16) * 8) as int)
}

/// Draws 8x8 tile `id` of the spritesheet at `(x, y)`.
pub fn sprite(mem: &mut GuestMemory, id: u16, x: i32, y: i32, flags: u8)
    ensures
        final(mem)@ == paint(
            old(mem)@,
            sprite_paint(
                spritesheet_of(old(mem)@),
                tile_origin(id).0,
                tile_origin(id).1,
                8,
                8,
                x as int,
                y as int,
                flags,
            ),
        ),
{
    let tiles_per_row: u16 = 16;
    let sx = (id % tiles_per_row) * 8;
    let sy = (id / tiles_per_row) * 8;
    draw_region(mem, sx as u32, sy as u32, 8, 8, x as i64, y as i64, flags);
}

// === Tilemap ===

/// Where tile `(tx, ty)` of the tilemap is stored.
pub open spec fn tile_offset(tx: int, ty: int) -> int {
    0x18200 + (ty * 40 + tx) * 2
}

/// Whether `(tx, ty)` is a tile of the 40x30 map.
pub open spec fn tile_in_map(tx: int, ty: int) -> bool {
    0 <= tx < 40 && 0 <= ty < 30
}

/// Memory with tile `(tx, ty)` set to `id`; a tile outside the map is not
/// stored.
pub open spec fn tile_written(m: Seq<u8>, tx: int, ty: int, id: u16) -> Seq<u8> {
    if tile_in_map(tx, ty) {
        m.update(tile_offset(tx, ty), (id % 256) as u8).update(tile_offset(tx, ty) + 1, (id / 256) as u8)
    } else {
        m
    }
}

/// The tile at `(tx, ty)`; 0 outside the map.
pub open spec fn tile_read(m: Seq<u8>, tx: int, ty: int) -> u16 {
    if tile_in_map(tx, ty) {
        le_u16_at(m, tile_offset(tx, ty))
    } else {
        0
    }
}

/// Sets tile `(tx, ty)` to `tile_id`; nothing happens outside the 40x30 map.
pub fn tilemap_set(mem: &mut GuestMemory, tx: u32, ty: u32, tile_id: u16)
    ensures
        final(mem)@ == tile_written(old(mem)@, tx as int, ty as int, tile_id),
{
    let _n = mem.len();
    if (tx as usize) < TILEMAP_WIDTH && (ty as usize) < TILEMAP_HEIGHT {
        let offset = TILEMAP_BASE + (ty as usize * TILEMAP_WIDTH + tx as usize) * 2;
        mem_write_u16(mem, offset, tile_id);
    }
}

/// Tile `(tx, ty)`, or 0 outside the map.
pub fn tilemap_get(mem: &GuestMemory, tx: u32, ty: u32) -> (r: u16)
    ensures
        r == tile_read(mem@, tx as int, ty as int),
{
    let _n = mem.len();
    if (tx as usize) < TILEMAP_WIDTH && (ty as usize) < TILEMAP_HEIGHT {
        let offset = TILEMAP_BASE + (ty as usize * TILEMAP_WIDTH + tx as usize) * 2;
        mem_read_u16(mem, offset)
    } else {
        0
    }
}

/// The two's complement `i32` stored little-endian at `i`.
pub open spec fn le_i32_at(m: Seq<u8>, i: int) -> int {
    let u = m[i] + m[i + 1] * 256 + m[i + 2] * 65536 + m[i + 3] * 16777216;
    if u >= 0x8000_0000 {
        u - 0x1_0000_0000
    } else {
        u
    }
}

/// The four bytes of `v` as a little-endian two's complement `i32`.
pub open spec fn i32_bytes(v: int) -> Seq<u8> {
    let u = if v < 0 {
        v + 0x1_0000_0000
    } else {
        v
    };
    seq![
        (u % 256) as u8,
        ((u / 256) % 256) as u8,
        ((u / 65536) % 256) as u8,
        ((u / 16777216) % 256) as u8,
    ]
}

/// `m` with the four bytes at `i` replaced by `b`.
pub open spec fn write4(m: Seq<u8>, i: int, b: Seq<u8>) -> Seq<u8> {
    m.update(i, b[0]).update(i + 1, b[1]).update(i + 2, b[2]).update(i + 3, b[3])
}

fn mem_write_i32(mem: &mut GuestMemory, offset: usize, v: i32)
    requires
        offset + 3 < old(mem)@.len(),
    ensures
        final(mem)@ == write4(old(mem)@, offset as int, i32_bytes(v as int)),
{
    let _n = mem.len();
    let u: u64 = if v < 0 {
        (v as i64 + 0x1_0000_0000) as u64
    } else {
        v as u64
    };
    mem.set(offset, (u % 256) as u8);
    mem.set(offset + 1, (u / 256 % 256) as u8);
    mem.set(offset + 2, (u / 65536 % 256) as u8);
    mem.set(offset + 3, (u / 16777216 % 256) as u8);
}

fn mem_read_i32(mem: &GuestMemory, offset: usize) -> (v: i32)
    requires
        offset + 3 < mem@.len(),
    ensures
        v == le_i32_at(mem@, offset as int),
{
    let _n = mem.len();
    let u: u64 = mem.get(offset) as u64 + mem.get(offset + 1) as u64 * 256 + mem.get(offset + 2) as u64
        * 65536 + mem.get(offset + 3) as u64 * 16777216;
    if u >= 0x8000_0000 {
        (u as i64 - 0x1_0000_0000) as i32
    } else {
        u as i32
    }
}

/// Sets the tilemap scroll offset.
pub fn tilemap_scroll(mem: &mut GuestMemory, dx: i32, dy: i32)
    ensures
        final(mem)@ == write4(
            write4(old(mem)@, TILEMAP_SCROLL_BASE as int, i32_bytes(dx as int)),
            TILEMAP_SCROLL_BASE + 4,
            i32_bytes(dy as int),
        ),
{
    let _n = mem.len();
    mem_write_i32(mem, TILEMAP_SCROLL_BASE, dx);
    mem_write_i32(mem, TILEMAP_SCROLL_BASE + 4, dy);
}

/// Clears every tile to 0 and resets the scroll offset.
pub fn tilemap_clear(mem: &mut GuestMemory)
    ensures
        final(mem)@ == Seq::new(
            old(mem)@.len(),
            |i: int|
                if 0x18200 <= i < 0x18200 + 2408 {
                    0u8
                } else {
                    old(mem)@[i]
                },
        ),
{
    let _n = mem.len();
    let ghost start = mem@;
    let mut i: usize = 0;
    while i < TILEMAP_SIZE + 8
        invariant
            i <= TILEMAP_SIZE + 8,
            mem@.len() == start.len(),
            start.len() >= MEMORY_SIZE,
            forall|j: int|
                0 <= j < start.len() ==> mem@[j] == if 0x18200 <= j < 0x18200 + i {
                    0u8
                } else {
                    start[j]
                },
        decreases TILEMAP_SIZE + 8 - i,
    {
        mem.set(TILEMAP_BASE + i, 0);
        i += 1;
    }
    assert(mem@ =~= Seq::new(
        start.len(),
        |j: int|
            if 0x18200 <= j < 0x18200 + 2408 {
                0u8
            } else {
                start[j]
            },
    ));
}

/// Memory after the first `k` tiles (row-major) of `m`'s tilemap are drawn,
/// scrolled by `(scx, scy)`; tile 0 is empty.
pub open spec fn tiles_drawn(m: Seq<u8>, scx: int, scy: int, k: int) -> Seq<u8>
    decreases k,
{
    if k <= 0 {
        m
    } else {
        let prev = tiles_drawn(m, scx, scy, k - 1);
        let t = k - 1;
        let id = le_u16_at(m, 0x18200 + 2 * t);
        if id != 0 {
            paint(
                prev,
                sprite_paint(
                    spritesheet_of(m),
                    tile_origin(id).0,
                    tile_origin(id).1,
                    8,
                    8,
                    (t % 40) * 8 - scx,
                    (t / 40) * 8 - scy,
                    0,
                ),
            )
        } else {
            prev
        }
    }
}

proof fn lemma_paint_keeps_rest(m: Seq<u8>, f: spec_fn(int, int) -> Option<u8>)
    ensures
        paint(m, f).len() == m.len(),
        forall|i: int| 0 <= i < m.len() && !in_framebuffer(i) ==> paint(m, f)[i] == m[i],
{
}

/// Draws every non-empty tile of the tilemap as an 8x8 sprite, shifted by
/// the scroll offset.
pub fn tilemap_draw(mem: &mut GuestMemory)
    ensures
        final(mem)@ == tiles_drawn(
            old(mem)@,
            le_i32_at(old(mem)@, TILEMAP_SCROLL_BASE as int),
            le_i32_at(old(mem)@, TILEMAP_SCROLL_BASE + 4),
            1200,
        ),
{
    let _n = mem.len();
    let ghost start = mem@;
    let scroll_x = mem_read_i32(mem, TILEMAP_SCROLL_BASE);
    let scroll_y = mem_read_i32(mem, TILEMAP_SCROLL_BASE + 4);
    let mut k: usize = 0;
    while k < TILEMAP_WIDTH * TILEMAP_HEIGHT
        invariant
            k <= 1200,
            start.len() >= MEMORY_SIZE,
            mem@.len() == start.len(),
            forall|i: int| 0 <= i < start.len() && !in_framebuffer(i) ==> mem@[i] == start[i],
            mem@ == tiles_drawn(start, scroll_x as int, scroll_y as int, k as int),
        decreases 1200 - k,
    {
        let _m = mem.len();
        let offset = TILEMAP_BASE + k * 2;
        let tile_id = mem_read_u16(mem, offset);
        proof {
            assert(!in_framebuffer(offset as int) && !in_framebuffer(offset + 1));
            assert(offset + 1 < start.len());
            assert(mem@[offset as int] == start[offset as int]);
            assert(mem@[offset + 1] == start[offset + 1]);
        }
        if tile_id != 0 {
            let tx = k % TILEMAP_WIDTH;
            let ty = k / TILEMAP_WIDTH;
            let px = (tx as i64 * 8) - scroll_x as i64;
            let py = (ty as i64 * 8) - scroll_y as i64;
            let ghost before = mem@;
            proof {
                assert forall|j: int| 0 <= j < 16384 implies #[trigger] spritesheet_of(before)[j] == spritesheet_of(
                    start,
                )[j] by {
                    assert(!in_framebuffer(0x14200 + j));
                    assert(before[0x14200 + j] == start[0x14200 + j]);
                }
                assert(spritesheet_of(before) =~= spritesheet_of(start));
            }
            let tiles_per_row: u16 = 16;
            let sx = (tile_id % tiles_per_row) * 8;
            let sy = (tile_id / tiles_per_row) * 8;
            draw_region(mem, sx as u32, sy as u32, 8, 8, px, py, 0);
            proof {
                lemma_paint_keeps_rest(before, sprite_paint(spritesheet_of(before), sx as int, sy as int, 8, 8, px as int, py as int, 0));
            }
        }
        k += 1;
    }
}

// === Audio ===

/// The shape of a tone.
#[derive(Clone, Copy, Debug, PartialEq, Eq, Structural)]
pub enum Waveform {
    Pulse25,
    Pulse50,
    Triangle,
    Noise,
    Sawtooth,
}

/// The number the host knows a waveform by.
pub open spec fn waveform_code(w: Waveform) -> u32 {
    match w {
        Waveform::Pulse25 => 0,
        Waveform::Pulse50 => 1,
        Waveform::Triangle => 2,
        Waveform::Noise => 3,
        Waveform::Sawtooth => 4,
    }
}

/// The number the host knows a waveform by.
pub fn waveform_number(w: Waveform) -> (n: u32)
    ensures
        n == waveform_code(w),
{
    match w {
        Waveform::Pulse25 => 0,
        Waveform::Pulse50 => 1,
        Waveform::Triangle => 2,
        Waveform::Noise => 3,
        Waveform::Sawtooth => 4,
    }
}

/// The arguments of one call of the host's tone function.
#[derive(Clone, Copy, Debug, PartialEq, Eq, Structural)]
pub struct ToneArgs {
    pub channel: u32,
    pub frequency: u32,
    pub duration: u32,
    pub volume: u32,
    pub waveform: u32,
}

/// The host call that plays `frequency` Hz for `duration` ms on a channel;
/// `None` for a channel past the fourth, which plays nothing.
pub fn tone(channel: u8, frequency: u32, duration: u32, volume: u8, waveform: Waveform) -> (r: Option<
    ToneArgs,
>)
    ensures
        r is Some <==> channel < AUDIO_CHANNELS,
        r matches Some(a) ==> a == (ToneArgs {
            channel: channel as u32,
            frequency,
            duration,
            volume: volume as u32,
            waveform: waveform_code(waveform),
        }),
{
    if (channel as usize) < AUDIO_CHANNELS {
        Some(
            ToneArgs {
                channel: channel as u32,
                frequency,
                duration,
                volume: volume as u32,
                waveform: waveform_number(waveform),
            },
        )
    } else {
        None
    }
}

/// The host call that sweeps from `freq_start` to `freq_end` Hz: the two
/// frequencies share one word, start in the low 16 bits and end in the high
/// 16, and bit 7 of the channel marks the sweep. `None` for a channel past
/// the fourth.
pub fn tone_slide(
    channel: u8,
    freq_start: u32,
    freq_end: u32,
    duration: u32,
    volume: u8,
    waveform: Waveform,
) -> (r: Option<ToneArgs>)
    ensures
        r is Some <==> channel < AUDIO_CHANNELS,
        r matches Some(a) ==> a == (ToneArgs {
            channel: (channel + 0x80) as u32,
            frequency: (freq_start % 0x10000 + (freq_end % 0x10000) * 0x10000) as u32,
            duration,
            volume: volume as u32,
            waveform: waveform_code(waveform),
        }),
{
    let freq_packed: u32 = freq_start % 0x10000 + (freq_end % 0x10000) * 0x10000;
    if (channel as usize) < AUDIO_CHANNELS {
        Some(
            ToneArgs {
                channel: channel as u32 + 0x80,
                frequency: freq_packed,
                duration,
                volume: volume as u32,
                waveform: waveform_number(waveform),
            },
        )
    } else {
        None
    }
}

/// One step of the xorshift generator that `random` draws from.
pub open spec fn xorshift_next(s: u32) -> u32 {
    let a = s ^ (s << 13u32);
    let b = a ^ (a >> 17u32);
    b ^ (b << 5u32)
}

/// Advances an xorshift state and returns the new state, the next number.
pub fn xorshift32(state: u32) -> (r: u32)
    ensures
        r == xorshift_next(state),
{
    let a = state ^ (state << 13u32);
    let b = a ^ (a >> 17u32);
    b ^ (b << 5u32)
}

// === Frames ===

/// The number of frames since boot: the runtime ticks it once a frame.
pub struct FrameCounter {
    frames: u32,
}

impl View for FrameCounter {
    type V = u32;

    closed spec fn view(&self) -> u32 {
        self.frames
    }
}

impl FrameCounter {
    /// A counter at boot: no frame yet.
    pub fn new() -> (c: Self)
        ensures
            c@ == 0,
    {
        FrameCounter { frames: 0 }
    }

    /// One more frame; the count wraps around after `u32::MAX`, as the
    /// game module's 32-bit counter does.
    pub fn tick(&mut self)
        ensures
            final(self)@ == (old(self)@ + 1) % 0x1_0000_0000,
    {
        self.frames = self.frames.wrapping_add(1);
    }
}

/// The number of frames since boot.
pub fn frame_count(counter: &FrameCounter) -> (n: u32)
    ensures
        n == counter@,
{
    counter.frames
}

// === Input ===

/// The twelve buttons of the console.
#[derive(Clone, Copy, Debug, PartialEq, Eq, Structural)]
pub enum Button {
    Up,
    Down,
    Left,
    Right,
    A,
    B,
    X,
    Y,
    Start,
    Select,
    L,
    R,
}

/// The bit of a button in the input registers.
pub open spec fn button_bit(b: Button) -> u16 {
    match b {
        Button::Up => 1,
        Button::Down => 2,
        Button::Left => 4,
        Button::Right => 8,
        Button::A => 16,
        Button::B => 32,
        Button::X => 64,
        Button::Y => 128,
        Button::Start => 256,
        Button::Select => 512,
        Button::L => 1024,
        Button::R => 2048,
    }
}

fn button_mask(btn: Button) -> (m: u16)
    ensures
        m == button_bit(btn),
{
    match btn {
        Button::Up => BTN_UP,
        Button::Down => BTN_DOWN,
        Button::Left => BTN_LEFT,
        Button::Right => BTN_RIGHT,
        Button::A => BTN_A,
        Button::B => BTN_B,
        Button::X => BTN_X,
        Button::Y => BTN_Y,
        Button::Start => BTN_START,
        Button::Select => BTN_SELECT,
        Button::L => BTN_L,
        Button::R => BTN_R,
    }
}

/// The buttons held this frame.
pub open spec fn current_of(m: Seq<u8>) -> u16 {
    le_u16_at(m, 0x200)
}

/// The buttons held the frame before.
pub open spec fn previous_of(m: Seq<u8>) -> u16 {
    le_u16_at(m, 0x202)
}

/// Whether `b` is among the button bits `bits`.
pub open spec fn held(bits: u16, b: Button) -> bool {
    bits & button_bit(b) != 0
}

fn current_buttons(mem: &GuestMemory) -> (r: u16)
    ensures
        r == current_of(mem@),
{
    let _n = mem.len();
    mem_read_u16(mem, INPUT_BASE)
}

fn previous_buttons(mem: &GuestMemory) -> (r: u16)
    ensures
        r == previous_of(mem@),
{
    let _n = mem.len();
    mem_read_u16(mem, INPUT_BASE + 2)
}

/// Whether `btn` is held down this frame.
pub fn button(mem: &GuestMemory, btn: Button) -> (r: bool)
    ensures
        r == held(current_of(mem@), btn),
{
    current_buttons(mem) & button_mask(btn) != 0
}

/// Whether `btn` went down this frame.
pub fn button_pressed(mem: &GuestMemory, btn: Button) -> (r: bool)
    ensures
        r == (held(current_of(mem@), btn) && !held(previous_of(mem@), btn)),
{
    let mask = button_mask(btn);
    (current_buttons(mem) & mask != 0) && (previous_buttons(mem) & mask == 0)
}

/// Whether `btn` came up this frame.
pub fn button_released(mem: &GuestMemory, btn: Button) -> (r: bool)
    ensures
        r == (!held(current_of(mem@), btn) && held(previous_of(mem@), btn)),
{
    let mask = button_mask(btn);
    (current_buttons(mem) & mask == 0) && (previous_buttons(mem) & mask != 0)
}

} // verus!
