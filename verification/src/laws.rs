//! Properties that hold across the library's operations: what one side of
//! the console reads back of what the other side wrote, and what drawing
//! leaves alone.
use vstd::prelude::*;
use crate::sdk::{
    AUDIO_CHANNELS,
    Button,
    as_i32,
    in_rect,
    joined_at,
    law_line_connected,
    rect_filled,
    uniform,
    cleared,
    fb_index,
    font,
    glyph_on,
    text_at,
    sprite_color,
    spritesheet_of,
    tile_origin,
    tiles_drawn,
    MEMORY_SIZE,
    TILEMAP_SCROLL_BASE,
    Waveform,
    current_of,
    held,
    i32_bytes,
    in_framebuffer,
    le_i32_at,
    le_u16_at,
    lemma_fb_coords,
    line_points,
    on_screen,
    paint,
    palette_entry,
    plot,
    plot_all,
    previous_of,
    rect_outline,
    rgb565,
    text_drawn,
    tile_in_map,
    tile_offset,
    tile_read,
    tile_written,
    waveform_code,
    write4,
};
use crate::runtime::{
    RuntimeAction,
    ToneCommand,
    input_written,
    launchable,
    palette_colors,
    palette_written,
    rgb565_of,
    rgb888_of,
    take_request,
    tone_command,
};
use crate::input::{
    EV_KEY,
    InputEvent,
    InputState,
    KEY_Q,
    event_step,
    events_applied,
    key_bit,
    lemma_read_events,
    read_events,
    ring_events,
    slot_events,
};
use vstd::utf8::{
    char_u32_cast,
    decode_utf8,
    encode_scalar,
    encode_utf8,
    last_continuation_byte,
    leading_byte_width_1,
    leading_byte_width_2,
    leading_byte_width_3,
    leading_byte_width_4,
    second_last_continuation_byte,
    third_last_continuation_byte,
    valid_utf8,
};
use vstd::string::StringSliceAdditionalSpecFns;
use crate::cart::{
    SECTION_META,
    SECTION_SPRITESHEET,
    SECTION_WASM,
    build_spec,
    built_len,
    field_at,
    find_section_spec,
    header_error,
    key_author,
    key_name,
    key_version,
    lemma_build_then_read,
    lemma_meta_fields,
    meta_field,
    meta_text,
};
use crate::runtime::{kept_name, name_list_written, count_written};
use crate::launcher::{
    COL_BG,
    COL_BORDER,
    COL_TITLE,
    COL_SELECTED_BG,
    COL_SELECTED_TEXT,
    COL_TEXT,
    LauncherView,
    launcher_palette,
    learned,
    menu_frame,
    rows_drawn,
    shown,
    stored_name,
};
use crate::snake::{MAX_SNAKE, Pos, SnakeView, State, dir_dx, dir_dy, in_grid, stepped, well_formed};

verus! {

// === Drawing ===

/// Painting changes framebuffer bytes only.
pub proof fn law_paint_keeps_rest(m: Seq<u8>, f: spec_fn(int, int) -> Option<u8>)
    ensures
        paint(m, f).len() == m.len(),
        forall|i: int| 0 <= i < m.len() && !in_framebuffer(i) ==> #[trigger] paint(m, f)[i] == m[i],
{
}

/// Setting points changes framebuffer bytes only.
pub proof fn law_plot_all_keeps_rest(m: Seq<u8>, pts: Seq<(int, int)>, c: u8)
    requires
        m.len() >= MEMORY_SIZE,
    ensures
        plot_all(m, pts, c).len() == m.len(),
        forall|i: int| 0 <= i < m.len() && !in_framebuffer(i) ==> #[trigger] plot_all(m, pts, c)[i] == m[i],
    decreases pts.len(),
{
    if pts.len() > 0 {
        let m1 = plot(m, pts[0].0, pts[0].1, c);
        if on_screen(pts[0].0, pts[0].1) {
            lemma_fb_coords(pts[0].0, pts[0].1);
        }
        law_plot_all_keeps_rest(m1, pts.drop_first(), c);
    }
}

/// Setting points colors exactly the on-screen pixels among them: pixel
/// `(px, py)` takes color `c` if it is one of the points, and keeps its
/// color otherwise.
pub proof fn law_plot_all_pixels(m: Seq<u8>, pts: Seq<(int, int)>, c: u8, px: int, py: int)
    requires
        m.len() >= MEMORY_SIZE,
        on_screen(px, py),
    ensures
        plot_all(m, pts, c).len() == m.len(),
        plot_all(m, pts, c)[fb_index(px, py)] == (if pts.contains((px, py)) {
            c
        } else {
            m[fb_index(px, py)]
        }),
    decreases pts.len(),
{
    lemma_fb_coords(px, py);
    if pts.len() > 0 {
        let q = pts[0];
        let m1 = plot(m, q.0, q.1, c);
        if on_screen(q.0, q.1) {
            lemma_fb_coords(q.0, q.1);
            if q != (px, py) {
                assert(fb_index(q.0, q.1) != fb_index(px, py));
            }
        }
        let rest = pts.drop_first();
        law_plot_all_pixels(m1, rest, c, px, py);
        if rest.contains((px, py)) {
            let k = choose|k: int| 0 <= k < rest.len() && rest[k] == (px, py);
            assert(pts[k + 1] == (px, py));
        }
        if pts.contains((px, py)) && q != (px, py) {
            let k = choose|k: int| 0 <= k < pts.len() && pts[k] == (px, py);
            assert(rest[k - 1] == (px, py));
        }
        assert(pts[0] == q);
    }
}

/// Rectangle outlines change framebuffer bytes only.
pub proof fn law_rect_outline_keeps_rest(m: Seq<u8>, x: int, y: int, w: int, h: int, c: u8)
    requires
        m.len() >= MEMORY_SIZE,
    ensures
        rect_outline(m, x, y, w, h, c).len() == m.len(),
        forall|i: int|
            0 <= i < m.len() && !in_framebuffer(i) ==> #[trigger] rect_outline(m, x, y, w, h, c)[i] == m[i],
{
    let m1 = plot_all(m, line_points(x, y, x + w - 1, y), c);
    let m2 = plot_all(m1, line_points(x, y + h - 1, x + w - 1, y + h - 1), c);
    let m3 = plot_all(m2, line_points(x, y, x, y + h - 1), c);
    law_plot_all_keeps_rest(m, line_points(x, y, x + w - 1, y), c);
    law_plot_all_keeps_rest(m1, line_points(x, y + h - 1, x + w - 1, y + h - 1), c);
    law_plot_all_keeps_rest(m2, line_points(x, y, x, y + h - 1), c);
    law_plot_all_keeps_rest(m3, line_points(x + w - 1, y, x + w - 1, y + h - 1), c);
}

/// Text changes framebuffer bytes only.
pub proof fn law_text_keeps_rest(m: Seq<u8>, s: Seq<u8>, x: int, y: int, c: u8, k: int)
    ensures
        text_drawn(m, s, x, y, c, k).len() == m.len(),
        forall|i: int|
            0 <= i < m.len() && !in_framebuffer(i) ==> #[trigger] text_drawn(m, s, x, y, c, k)[i] == m[i],
    decreases k,
{
    if k > 0 {
        law_text_keeps_rest(m, s, x, y, c, k - 1);
    }
}

// === Frames ===

/// The count `n` ticks make of count `c`, each as `FrameCounter::tick`
/// leaves it.
pub open spec fn ticked(c: u32, n: nat) -> u32
    decreases n,
{
    if n == 0 {
        c
    } else {
        ((ticked(c, (n - 1) as nat) + 1) % 0x1_0000_0000) as u32
    }
}

/// After `n` ticks of a new counter the count is `n`, wrapping around past
/// `u32::MAX`; reading the count takes `&self` and changes nothing.
pub proof fn law_frame_count(n: nat)
    ensures
        ticked(0, n) == n % 0x1_0000_0000,
        n < 0x1_0000_0000 ==> ticked(0, n) == n,
    decreases n,
{
    if n > 0 {
        law_frame_count((n - 1) as nat);
        assert(((n - 1) % 0x1_0000_0000 + 1) % 0x1_0000_0000 == n % 0x1_0000_0000) by {
            vstd::arithmetic::div_mod::lemma_add_mod_noop((n - 1) as int, 1, 0x1_0000_0000);
            vstd::arithmetic::div_mod::lemma_small_mod(1, 0x1_0000_0000);
        }
    }
}

// === Sprites ===

/// Flips mirror the drawn region: with `SPRITE_FLIP_Y` pixel `(px, py)`
/// shows what the unflipped draw shows at the row mirrored about the
/// region's middle, `2 * dy + sh - 1 - py`; with `SPRITE_FLIP_X` the column
/// is mirrored, `2 * dx + sw - 1 - px`; with both, both are.
pub proof fn law_sprite_flips(
    sheet: Seq<u8>,
    sx: int,
    sy: int,
    sw: int,
    sh: int,
    dx: int,
    dy: int,
    f: u8,
    px: int,
    py: int,
)
    requires
        f & 3 == 0,
    ensures
        sprite_color(sheet, sx, sy, sw, sh, dx, dy, f | 2, px, py) == sprite_color(
            sheet,
            sx,
            sy,
            sw,
            sh,
            dx,
            dy,
            f,
            px,
            2 * dy + sh - 1 - py,
        ),
        sprite_color(sheet, sx, sy, sw, sh, dx, dy, f | 1, px, py) == sprite_color(
            sheet,
            sx,
            sy,
            sw,
            sh,
            dx,
            dy,
            f,
            2 * dx + sw - 1 - px,
            py,
        ),
        sprite_color(sheet, sx, sy, sw, sh, dx, dy, f | 3, px, py) == sprite_color(
            sheet,
            sx,
            sy,
            sw,
            sh,
            dx,
            dy,
            f,
            2 * dx + sw - 1 - px,
            2 * dy + sh - 1 - py,
        ),
{
    assert((f & 1u8 == 0) && (f & 2u8 == 0) && ((f | 2u8) & 2u8 != 0) && ((f | 2u8) & 1u8 == 0) && ((f | 1u8)
        & 1u8 != 0) && ((f | 1u8) & 2u8 == 0) && ((f | 3u8) & 1u8 != 0) && ((f | 3u8) & 2u8 != 0))
        by (bit_vector)
        requires
            f & 3u8 == 0,
    ;
}

/// Unflipped, the region's pixel at column `c`, row `r` lands at
/// `(dx + c, dy + r)`, where color 0 is see-through; nothing is drawn
/// outside the `sw` by `sh` box at `(dx, dy)`.
pub proof fn law_sprite_places_pixels(
    sheet: Seq<u8>,
    sx: int,
    sy: int,
    sw: int,
    sh: int,
    dx: int,
    dy: int,
    c: int,
    r: int,
    px: int,
    py: int,
)
    requires
        0 <= c < sw,
        0 <= r < sh,
        0 <= sx,
        0 <= sy,
        (sy + r) * 128 + sx + c < 16384,
    ensures
        sprite_color(sheet, sx, sy, sw, sh, dx, dy, 0, dx + c, dy + r) == (if sheet[(sy + r) * 128 + sx + c]
            != 0 {
            Some(sheet[(sy + r) * 128 + sx + c])
        } else {
            None::<u8>
        }),
        !(dx <= px < dx + sw && dy <= py < dy + sh) ==> sprite_color(sheet, sx, sy, sw, sh, dx, dy, 0, px, py)
            is None,
{
    assert((0u8 & 1u8 == 0) && (0u8 & 2u8 == 0)) by (bit_vector);
}

/// Tile `id` (of the 256 on the sheet) is the 8x8 block at column
/// `id % 16`, row `id / 16` of the spritesheet: its pixel at column `c`,
/// row `r` lands at `(x + c, y + r)` when drawn unflipped at `(x, y)`,
/// unless it is 0.
pub proof fn law_sprite_tile(m: Seq<u8>, id: u16, x: int, y: int, c: int, r: int)
    requires
        m.len() >= MEMORY_SIZE,
        id < 256,
        0 <= c < 8,
        0 <= r < 8,
    ensures
        ({
            let b = m[0x14200 + ((id / 16) * 8 + r) * 128 + (id % 16) * 8 + c];
            sprite_color(spritesheet_of(m), tile_origin(id).0, tile_origin(id).1, 8, 8, x, y, 0, x + c, y + r)
                == (if b != 0 {
                Some(b)
            } else {
                None::<u8>
            })
        }),
{
    let sx = tile_origin(id).0;
    let sy = tile_origin(id).1;
    assert((sy + r) * 128 + sx + c < 16384) by (nonlinear_arith)
        requires
            sx == (id % 16) * 8,
            sy == (id / 16) * 8,
            id < 256,
            0 <= c < 8,
            0 <= r < 8,
    ;
    assert(0 <= (sy + r) * 128 + sx + c) by (nonlinear_arith)
        requires
            sx >= 0,
            sy >= 0,
            0 <= c,
            0 <= r,
    ;
    law_sprite_places_pixels(spritesheet_of(m), sx, sy, 8, 8, x, y, c, r, x + c, y + r);
}

// === Carts ===

/// Writing a cart and reading it back gives what was set: the header is
/// accepted, the module and spritesheet sections are the bytes set, and the
/// metadata section gives back the name, author and version, for carts
/// whose offsets fit in 32 bits and whose fields hold no line break.
pub proof fn law_cart_roundtrip(n: Seq<u8>, a: Seq<u8>, v: Seq<u8>, wasm: Seq<u8>, sprites: Option<Seq<u8>>)
    requires
        valid_utf8(n),
        valid_utf8(a),
        valid_utf8(v),
        !n.contains(10),
        !a.contains(10),
        !v.contains(10),
        built_len(meta_text(n, a, v), wasm, sprites) < 0x1_0000_0000,
    ensures
        ({
            let d = build_spec(meta_text(n, a, v), wasm, sprites);
            &&& header_error(d) is None
            &&& find_section_spec(d, SECTION_WASM) == Some(wasm)
            &&& find_section_spec(d, SECTION_SPRITESHEET) == sprites
            &&& find_section_spec(d, SECTION_META) == Some(meta_text(n, a, v))
            &&& meta_field(find_section_spec(d, SECTION_META).unwrap(), key_name()) == n
            &&& meta_field(find_section_spec(d, SECTION_META).unwrap(), key_author()) == a
            &&& meta_field(find_section_spec(d, SECTION_META).unwrap(), key_version()) == v
        }),
{
    lemma_build_then_read(meta_text(n, a, v), wasm, sprites);
    lemma_meta_fields(n, a, v);
}

/// A text with no line break encodes to bytes with no newline byte.
proof fn lemma_no_newline_bytes(chars: Seq<char>)
    requires
        !chars.contains('\n'),
    ensures
        !encode_utf8(chars).contains(10u8),
    decreases chars.len(),
{
    if chars.len() > 0 {
        let rest = chars.drop_first();
        if rest.contains('\n') {
            let i = choose|i: int| 0 <= i < rest.len() && rest[i] == '\n';
            assert(chars[i + 1] == '\n');
        }
        lemma_no_newline_bytes(rest);
        assert(chars[0] != '\n');
        let u = chars[0] as u32;
        char_u32_cast(chars[0], u);
        if u == 10 {
            assert((10u32 as char) == '\n');
        }
        lemma_scalar_no_newline(u);
        let e = encode_utf8(chars);
        let head = encode_scalar(u);
        assert(e == head + encode_utf8(rest));
        if e.contains(10u8) {
            let i = choose|i: int| 0 <= i < e.len() && e[i] == 10u8;
            if i < head.len() {
                assert(head[i] == 10u8);
            } else {
                assert(encode_utf8(rest)[i - head.len()] == 10u8);
            }
        }
    }
}

/// The UTF-8 encoding of a scalar other than the newline holds no newline
/// byte.
proof fn lemma_scalar_no_newline(u: u32)
    requires
        u != 10,
    ensures
        !encode_scalar(u).contains(10u8),
{
    let e = encode_scalar(u);
    assert(u <= 0x7F ==> leading_byte_width_1(u) != 10u8) by (bit_vector)
        requires
            u != 10,
    ;
    assert(leading_byte_width_2(u) != 10u8) by (bit_vector);
    assert(leading_byte_width_3(u) != 10u8) by (bit_vector);
    assert(leading_byte_width_4(u) != 10u8) by (bit_vector);
    assert(last_continuation_byte(u) != 10u8) by (bit_vector);
    assert(second_last_continuation_byte(u) != 10u8) by (bit_vector);
    assert(third_last_continuation_byte(u) != 10u8) by (bit_vector);
    assert forall|i: int| 0 <= i < e.len() implies e[i] != 10u8 by {}
}

/// A cart written with `set_meta(name, author, version)`, where none of the
/// three holds a line break, reads back those three texts; a cart written
/// without `set_meta` reads back empty ones.
pub proof fn law_cart_text_roundtrip(
    name: &str,
    author: &str,
    version: &str,
    wasm: Seq<u8>,
    sprites: Option<Seq<u8>>,
)
    requires
        !name@.contains('\n'),
        !author@.contains('\n'),
        !version@.contains('\n'),
        built_len(meta_text(name.spec_bytes(), author.spec_bytes(), version.spec_bytes()), wasm, sprites)
            < 0x1_0000_0000,
        built_len(Seq::empty(), wasm, sprites) < 0x1_0000_0000,
    ensures
        ({
            let meta = meta_text(name.spec_bytes(), author.spec_bytes(), version.spec_bytes());
            let raw = find_section_spec(build_spec(meta, wasm, sprites), SECTION_META).unwrap();
            &&& find_section_spec(build_spec(meta, wasm, sprites), SECTION_META) is Some
            &&& forall|t: &str| #[trigger] t.spec_bytes() == meta_field(raw, key_name()) ==> t@ == name@
            &&& forall|t: &str| #[trigger] t.spec_bytes() == meta_field(raw, key_author()) ==> t@ == author@
            &&& forall|t: &str| #[trigger] t.spec_bytes() == meta_field(raw, key_version()) ==> t@ == version@
        }),
        ({
            let raw = find_section_spec(build_spec(Seq::empty(), wasm, sprites), SECTION_META).unwrap();
            &&& find_section_spec(build_spec(Seq::empty(), wasm, sprites), SECTION_META) is Some
            &&& meta_field(raw, key_name()) == Seq::<u8>::empty()
            &&& meta_field(raw, key_author()) == Seq::<u8>::empty()
            &&& meta_field(raw, key_version()) == Seq::<u8>::empty()
        }),
{
    broadcast use vstd::utf8::group_utf8_lib;

    lemma_no_newline_bytes(name@);
    lemma_no_newline_bytes(author@);
    lemma_no_newline_bytes(version@);
    law_cart_roundtrip(name.spec_bytes(), author.spec_bytes(), version.spec_bytes(), wasm, sprites);
    assert forall|t: &str| #[trigger] t.spec_bytes() == name.spec_bytes() implies t@ == name@ by {
        assert(decode_utf8(encode_utf8(t@)) == t@);
        assert(decode_utf8(encode_utf8(name@)) == name@);
    }
    assert forall|t: &str| #[trigger] t.spec_bytes() == author.spec_bytes() implies t@ == author@ by {
        assert(decode_utf8(encode_utf8(t@)) == t@);
        assert(decode_utf8(encode_utf8(author@)) == author@);
    }
    assert forall|t: &str| #[trigger] t.spec_bytes() == version.spec_bytes() implies t@ == version@ by {
        assert(decode_utf8(encode_utf8(t@)) == t@);
        assert(decode_utf8(encode_utf8(version@)) == version@);
    }
    lemma_build_then_read(Seq::empty(), wasm, sprites);
    let e = Seq::<u8>::empty();
    assert(field_at(e, key_name(), 0) is None);
    assert(field_at(e, key_author(), 0) is None);
    assert(field_at(e, key_version(), 0) is None);
}

// === Text ===

/// One pixel of the text drawn so far: in the cell of byte `k < j` at font
/// column `col < 5` and row `row < 7` it is `c` where that font bit is set;
/// everywhere else, and outside the first `j` cells, it is as it was.
proof fn lemma_text_pixel(m: Seq<u8>, s: Seq<u8>, x: int, y: int, c: u8, j: int, px: int, py: int)
    requires
        m.len() >= MEMORY_SIZE,
        on_screen(px, py),
        j <= s.len(),
    ensures
        text_drawn(m, s, x, y, c, j).len() == m.len(),
        text_drawn(m, s, x, y, c, j)[fb_index(px, py)] == (if x <= px && 0 <= (px - x) % 6 < 5 && (px
            - x) / 6 < j && y <= py < y + 7 && glyph_on(s[(px - x) / 6], (px - x) % 6, py - y) {
            c
        } else {
            m[fb_index(px, py)]
        }),
    decreases j,
{
    lemma_fb_coords(px, py);
    if j > 0 {
        lemma_text_pixel(m, s, x, y, c, j - 1, px, py);
        let gx = x + 6 * (j - 1);
        let k = (px - x) / 6;
        let col = (px - x) % 6;
        if x <= px {
            assert(px - x == 6 * k + col);
            assert(px - gx == 6 * (k - (j - 1)) + col);
            if k != j - 1 && 0 <= col < 5 {
                assert(!(0 <= px - gx < 5));
            }
            if col >= 5 {
                assert(!(0 <= px - gx < 5) || k != j - 1);
            }
        } else {
            assert(px - gx < 0);
        }
    }
}

/// Each byte of a text takes a 6-pixel cell: pixel `(x + 6k + col,
/// y + row)`, for font column `col < 5` and row `row < 7`, takes color `c`
/// exactly when byte `s[k]` is printable and bit `row` of column `col` of
/// its entry in the font is set; every other pixel of the screen that no
/// glyph covers keeps its color, and the gap column of each cell is never
/// drawn.
pub proof fn law_text_cells(m: Seq<u8>, s: Seq<u8>, x: int, y: int, c: u8, k: int, col: int, row: int)
    requires
        m.len() >= MEMORY_SIZE,
        0 <= k < s.len(),
        0 <= col < 6,
        0 <= row < 7,
        on_screen(x + 6 * k + col, y + row),
    ensures
        text_at(m, s, x, y, c)[fb_index(x + 6 * k + col, y + row)] == (if col < 5 && 32 <= s[k] <= 126 && (font()[(
        s[k] - 32) * 5 + col] & (1u8 << (row as u8))) != 0 {
            c
        } else {
            m[fb_index(x + 6 * k + col, y + row)]
        }),
{
    let px = x + 6 * k + col;
    lemma_text_pixel(m, s, x, y, c, s.len() as int, px, y + row);
    assert((px - x) / 6 == k && (px - x) % 6 == col) by {
        vstd::arithmetic::div_mod::lemma_fundamental_div_mod_converse(px - x, 6, k, col);
    }
}

/// A text leaves every pixel outside its box, `6 * len` wide and 7 high
/// from `(x, y)`, as it was.
pub proof fn law_text_stays_in_box(m: Seq<u8>, s: Seq<u8>, x: int, y: int, c: u8, px: int, py: int)
    requires
        m.len() >= MEMORY_SIZE,
        on_screen(px, py),
        !(x <= px < x + 6 * s.len() && y <= py < y + 7),
    ensures
        text_at(m, s, x, y, c).len() == m.len(),
        text_at(m, s, x, y, c)[fb_index(px, py)] == m[fb_index(px, py)],
{
    lemma_text_pixel(m, s, x, y, c, s.len() as int, px, py);
    if x <= px && (px - x) / 6 < s.len() {
        assert(px - x == 6 * ((px - x) / 6) + (px - x) % 6);
    }
}

// === Tilemap ===

/// A tile set inside the map reads back; every other tile keeps its value;
/// a tile set outside the map changes nothing.
pub proof fn law_tilemap_set_get(m: Seq<u8>, tx: int, ty: int, id: u16, qx: int, qy: int)
    requires
        m.len() >= MEMORY_SIZE,
    ensures
        tile_in_map(tx, ty) ==> tile_read(tile_written(m, tx, ty, id), tx, ty) == id,
        !(qx == tx && qy == ty) ==> tile_read(tile_written(m, tx, ty, id), qx, qy) == tile_read(m, qx, qy),
        !tile_in_map(tx, ty) ==> tile_written(m, tx, ty, id) == m,
{
    if tile_in_map(tx, ty) && tile_in_map(qx, qy) && !(qx == tx && qy == ty) {
        if qy == ty {
            assert(tile_offset(qx, qy) != tile_offset(tx, ty));
        } else if qy < ty {
            assert(qy * 40 + qx < ty * 40 + tx);
        } else {
            assert(qy * 40 + qx > ty * 40 + tx);
        }
    }
}

/// Whether `b` holds the tilemap bytes of `a`.
pub open spec fn tiles_kept(a: Seq<u8>, b: Seq<u8>) -> bool {
    forall|i: int| 0x18200 <= i < 0x18200 + 2400 ==> #[trigger] b[i] == a[i]
}

/// Whether going from `a` to `b` leaves tile `(tx, ty)` alone: the tilemap
/// is kept, or another tile is set.
pub open spec fn leaves_tile(a: Seq<u8>, b: Seq<u8>, tx: int, ty: int) -> bool {
    ||| tiles_kept(a, b)
    ||| exists|qx: int, qy: int, v: u16|
        !(qx == tx && qy == ty) && b == #[trigger] tile_written(a, qx, qy, v)
}

/// Whether each memory of `ms` comes from the one before by a step that
/// leaves tile `(tx, ty)` alone.
pub open spec fn leaves_tile_throughout(ms: Seq<Seq<u8>>, tx: int, ty: int) -> bool
    decreases ms.len(),
{
    if ms.len() <= 1 {
        true
    } else {
        &&& leaves_tile(ms[ms.len() - 2], ms.last(), tx, ty)
        &&& leaves_tile_throughout(ms.drop_last(), tx, ty)
    }
}

/// A tile reads back the value last set there through any later calls
/// that leave the tilemap alone or set other tiles; outside the map every
/// tile reads 0.
pub proof fn law_tile_persists(ms: Seq<Seq<u8>>, tx: int, ty: int, id: u16)
    requires
        ms.len() > 0,
        forall|k: int| 0 <= k < ms.len() ==> #[trigger] ms[k].len() >= MEMORY_SIZE,
        tile_read(ms[0], tx, ty) == id,
        leaves_tile_throughout(ms, tx, ty),
    ensures
        tile_read(ms.last(), tx, ty) == id,
        !tile_in_map(tx, ty) ==> id == 0,
    decreases ms.len(),
{
    if ms.len() > 1 {
        let front = ms.drop_last();
        assert(front[0] == ms[0]);
        assert forall|k: int| 0 <= k < front.len() implies #[trigger] front[k].len() >= MEMORY_SIZE by {
            assert(front[k] == ms[k]);
        }
        law_tile_persists(front, tx, ty, id);
        let a = ms[ms.len() - 2];
        let b = ms.last();
        assert(a == front.last());
        assert(a.len() >= MEMORY_SIZE && b.len() >= MEMORY_SIZE);
        if tiles_kept(a, b) {
            if tile_in_map(tx, ty) {
                let o = tile_offset(tx, ty);
                assert(b[o] == a[o] && b[o + 1] == a[o + 1]);
            }
        } else {
            let (qx, qy, v) = choose|qx: int, qy: int, v: u16|
                !(qx == tx && qy == ty) && b == #[trigger] tile_written(a, qx, qy, v);
            law_tilemap_set_get(a, qx, qy, v, tx, ty);
        }
    }
}

/// Calls that write outside the framebuffer only at lower addresses, or
/// only into the framebuffer, keep the tilemap: clearing, painting and
/// plotting, outlines and text, palette, input and scroll registers, the
/// host's palette and name list, and drawing the tilemap itself.
pub proof fn law_other_calls_keep_tiles(
    m: Seq<u8>,
    f: spec_fn(int, int) -> Option<u8>,
    pts: Seq<(int, int)>,
    x: int,
    y: int,
    w: int,
    h: int,
    s: Seq<u8>,
    c: u8,
    index: u8,
    r: u8,
    g: u8,
    b: u8,
    current: u16,
    previous: u16,
    dx: i32,
    dy: i32,
    pal: Seq<u32>,
    names: Seq<Seq<u8>>,
    scx: int,
    scy: int,
)
    requires
        m.len() >= MEMORY_SIZE,
    ensures
        tiles_kept(m, cleared(m, c)),
        tiles_kept(m, paint(m, f)),
        tiles_kept(m, plot_all(m, pts, c)),
        tiles_kept(m, rect_outline(m, x, y, w, h, c)),
        tiles_kept(m, text_drawn(m, s, x, y, c, s.len() as int)),
        tiles_kept(m, palette_entry(m, index, r, g, b)),
        tiles_kept(m, input_written(m, current, previous)),
        tiles_kept(
            m,
            write4(
                write4(m, TILEMAP_SCROLL_BASE as int, i32_bytes(dx as int)),
                TILEMAP_SCROLL_BASE + 4,
                i32_bytes(dy as int),
            ),
        ),
        tiles_kept(m, palette_written(m, pal, 256)),
        tiles_kept(m, name_list_written(m, names)),
        tiles_kept(m, tiles_drawn(m, scx, scy, 1200)),
{
    law_plot_all_keeps_rest(m, pts, c);
    law_rect_outline_keeps_rest(m, x, y, w, h, c);
    law_text_keeps_rest(m, s, x, y, c, s.len() as int);
    lemma_tiles_drawn_keep_tiles(m, scx, scy, 1200);
    let n = if names.len() < 16 { names.len() as int } else { 16 };
    assert(tiles_kept(m, count_written(m, n)));
}

proof fn lemma_tiles_drawn_keep_tiles(m: Seq<u8>, scx: int, scy: int, k: int)
    requires
        m.len() >= MEMORY_SIZE,
    ensures
        tiles_drawn(m, scx, scy, k).len() == m.len(),
        tiles_kept(m, tiles_drawn(m, scx, scy, k)),
    decreases k,
{
    if k > 0 {
        lemma_tiles_drawn_keep_tiles(m, scx, scy, k - 1);
    }
}

/// A scroll offset written is the one read back.
pub proof fn law_scroll_roundtrip(m: Seq<u8>, dx: i32, dy: i32)
    requires
        m.len() >= MEMORY_SIZE,
    ensures
        ({
            let m2 = write4(
                write4(m, TILEMAP_SCROLL_BASE as int, i32_bytes(dx as int)),
                TILEMAP_SCROLL_BASE + 4,
                i32_bytes(dy as int),
            );
            le_i32_at(m2, TILEMAP_SCROLL_BASE as int) == dx && le_i32_at(m2, TILEMAP_SCROLL_BASE + 4) == dy
        }),
{
    let b = TILEMAP_SCROLL_BASE as int;
    let m1 = write4(m, b, i32_bytes(dx as int));
    let m2 = write4(m1, b + 4, i32_bytes(dy as int));
    lemma_i32_written(m, b, dx as int);
    lemma_i32_written(m1, b + 4, dy as int);
    assert(m2[b] == m1[b] && m2[b + 1] == m1[b + 1] && m2[b + 2] == m1[b + 2] && m2[b + 3] == m1[b + 3]);
}

/// Four bytes written as an `i32` read back as that `i32`.
proof fn lemma_i32_written(m: Seq<u8>, i: int, v: int)
    requires
        0 <= i,
        i + 3 < m.len(),
        -0x8000_0000 <= v < 0x8000_0000,
    ensures
        le_i32_at(write4(m, i, i32_bytes(v)), i) == v,
{
    let u = if v < 0 {
        v + 0x1_0000_0000
    } else {
        v
    };
    let x = u as u32;
    assert(x as int == u);
    assert((x % 256) + ((x / 256) % 256) * 256 + ((x / 65536) % 256) * 65536 + ((x / 16777216) % 256) * 16777216
        == x) by (bit_vector);
    let w = write4(m, i, i32_bytes(v));
    assert(w[i] == (u % 256) as u8);
    assert(w[i + 1] == ((u / 256) % 256) as u8);
    assert(w[i + 2] == ((u / 65536) % 256) as u8);
    assert(w[i + 3] == ((u / 16777216) % 256) as u8);
    assert(w[i] + w[i + 1] * 256 + w[i + 2] * 65536 + w[i + 3] * 16777216 == u);
}

// === Input ===

/// The buttons the host writes are the ones a game reads: held now, held
/// the frame before.
pub proof fn law_input_roundtrip(m: Seq<u8>, current: u16, previous: u16)
    requires
        m.len() >= MEMORY_SIZE,
    ensures
        current_of(input_written(m, current, previous)) == current,
        previous_of(input_written(m, current, previous)) == previous,
{
}

/// Latching makes the buttons of the last frame the previous ones.
pub proof fn law_latch_previous(m: Seq<u8>, buttons: u16)
    requires
        m.len() >= MEMORY_SIZE,
    ensures
        current_of(input_written(m, buttons, current_of(m))) == buttons,
        previous_of(input_written(m, buttons, current_of(m))) == current_of(m),
{
    law_input_roundtrip(m, buttons, current_of(m));
}

/// A button is never pressed and released in the same frame, a pressed
/// button is held, and a released one is not.
pub proof fn law_button_edges(current: u16, previous: u16, b: Button)
    ensures
        !((held(current, b) && !held(previous, b)) && (!held(current, b) && held(previous, b))),
        (held(current, b) && !held(previous, b)) ==> held(current, b),
        (!held(current, b) && held(previous, b)) ==> !held(current, b),
{
}

/// Pressing a mapped key holds its button, releasing it lets go, and
/// neither touches the other buttons.
pub proof fn law_key_press_release(buttons: u16, quit: bool, code: u16)
    requires
        code != KEY_Q,
        key_bit(code) is Some,
    ensures
        ({
            let bit = key_bit(code)->0;
            let pressed = event_step(buttons, quit, InputEvent { ev_type: EV_KEY, code, value: 1 });
            let released = event_step(pressed.0, pressed.1, InputEvent { ev_type: EV_KEY, code, value: 0 });
            &&& pressed.0 & bit == bit
            &&& pressed.0 & !bit == buttons & !bit
            &&& released.0 & bit == 0
            &&& released.0 == buttons & !bit
            &&& released.1 == quit
        }),
{
    let bit = key_bit(code)->0;
    assert((buttons | bit) & bit == bit) by (bit_vector);
    assert((buttons | bit) & !bit == buttons & !bit) by (bit_vector);
    assert(((buttons | bit) & !bit) & bit == 0) by (bit_vector);
}

/// Pressing `Q` asks to quit and leaves the buttons alone; events of other
/// types change nothing.
pub proof fn law_quit_and_other_events(buttons: u16, quit: bool, ev: InputEvent)
    ensures
        ev.ev_type == EV_KEY && ev.code == KEY_Q && ev.value == 1 ==> event_step(buttons, quit, ev) == (
        buttons, true),
        ev.ev_type != EV_KEY ==> event_step(buttons, quit, ev) == (buttons, quit),
{
}

// === Palette ===

/// The color a game sets is the one the host shows, at RGB565 precision.
pub proof fn law_palette_set_then_shown(m: Seq<u8>, index: u8, r: u8, g: u8, b: u8)
    requires
        m.len() >= MEMORY_SIZE,
    ensures
        palette_colors(palette_entry(m, index, r, g, b))[index as int] == rgb888_of(rgb565(r, g, b)),
{
    let m2 = m.update(index * 2, (rgb565(r, g, b) % 256) as u8).update(
        index * 2 + 1,
        (rgb565(r, g, b) / 256) as u8,
    );
    assert(le_u16_at(m2, 2 * index) == rgb565(r, g, b));
}

/// A palette the host stores is read back at RGB565 precision.
pub proof fn law_palette_roundtrip(m: Seq<u8>, pal: Seq<u32>, i: int)
    requires
        m.len() >= MEMORY_SIZE,
        pal.len() == 256,
        0 <= i < 256,
    ensures
        palette_colors(palette_written(m, pal, 256))[i] == rgb888_of(rgb565_of(pal[i])),
{
    let w = palette_written(m, pal, 256);
    assert((2 * i) / 2 == i);
    assert((2 * i + 1) / 2 == i);
    assert((2 * i) % 2 == 0);
    assert((2 * i + 1) % 2 == 1);
    let c = rgb565_of(pal[i]);
    assert(w[2 * i] == (c % 256) as u8);
    assert(w[2 * i + 1] == (c / 256) as u8);
}

// === Audio ===

/// The host plays the tone the game asked for.
pub proof fn law_tone_roundtrip(channel: u8, frequency: u32, duration: u32, volume: u8, waveform: Waveform)
    requires
        channel < AUDIO_CHANNELS,
    ensures
        tone_command(channel as u32, frequency, duration, volume as u32, waveform_code(waveform)) == Some(
            ToneCommand {
                channel: channel as usize,
                slide: false,
                freq_start: frequency,
                freq_end: frequency,
                duration_ms: duration,
                volume: volume as u32,
                waveform: waveform_code(waveform) as u8,
            },
        ),
{
}

/// The host sweeps between the frequencies the game asked for, each taken
/// to 16 bits.
pub proof fn law_tone_slide_roundtrip(
    channel: u8,
    freq_start: u32,
    freq_end: u32,
    duration: u32,
    volume: u8,
    waveform: Waveform,
)
    requires
        channel < AUDIO_CHANNELS,
    ensures
        tone_command(
            (channel + 0x80) as u32,
            (freq_start % 0x10000 + (freq_end % 0x10000) * 0x10000) as u32,
            duration,
            volume as u32,
            waveform_code(waveform),
        ) == Some(
            ToneCommand {
                channel: channel as usize,
                slide: true,
                freq_start: (freq_start % 0x10000) as u32,
                freq_end: (freq_end % 0x10000) as u32,
                duration_ms: duration,
                volume: volume as u32,
                waveform: waveform_code(waveform) as u8,
            },
        ),
{
    let lo = freq_start % 0x10000;
    let hi = freq_end % 0x10000;
    let packed = lo + hi * 0x10000;
    assert(packed % 0x10000 == lo) by (nonlinear_arith)
        requires
            packed == lo + hi * 0x10000,
            0 <= lo < 0x10000,
            0 <= hi < 0x10000,
    ;
    assert(packed / 0x10000 == hi) by (nonlinear_arith)
        requires
            packed == lo + hi * 0x10000,
            0 <= lo < 0x10000,
            0 <= hi < 0x10000,
    ;
}

// === Requests ===

/// A request is acted on at most once: taking it leaves nothing to take.
pub proof fn law_request_taken_once(code: i32, carts: Seq<Seq<u8>>)
    ensures
        take_request(take_request(code, carts).1, carts).0 is None,
{
}

/// Asking to quit brings the launcher back.
pub proof fn law_quit_returns_to_launcher(carts: Seq<Seq<u8>>)
    ensures
        take_request(-2i32, carts) == (Some(RuntimeAction::ReturnToLauncher), -1i32),
{
}

/// Asking for a game that is there and holds a module launches it.
pub proof fn law_launch_request(index: u32, carts: Seq<Seq<u8>>)
    requires
        (index as int) < carts.len(),
        launchable(carts[index as int]),
        index < 0x8000_0000,
    ensures
        take_request(index as i32, carts) == (Some(RuntimeAction::LaunchGame(index as usize)), -1i32),
{
}

// === Game names ===

/// The list of names the runtime stores is the one the launcher reads when
/// the host gives it none: as many games as were stored, up to sixteen,
/// each name cut to 31 bytes.
pub proof fn law_names_roundtrip(m: Seq<u8>, names: Seq<Seq<u8>>, host_count: u32, host_names: Seq<Seq<u8>>)
    requires
        m.len() >= MEMORY_SIZE,
        names.len() > 0,
        host_count > 0,
        host_names.len() > 0,
        host_names[0].len() == 0,
    ensures
        ({
            let n = if names.len() < 16 {
                names.len() as int
            } else {
                16
            };
            learned(launcher_palette(name_list_written(m, names)), host_count, host_names) == (LauncherView {
                game_count: n as u32,
                selected: 0,
                names: Seq::new(n as nat, |i: int| kept_name(names[i])),
            })
        }),
{
    let n = if names.len() < 16 {
        names.len() as int
    } else {
        16
    };
    let w = name_list_written(m, names);
    let c = count_written(m, n);
    let p = launcher_palette(w);
    assert forall|j: int| 0x210 <= j < 0x214 + 32 * 16 implies #[trigger] p[j] == w[j] by {}
    assert(w[0x210] == c[0x210]);
    assert(w[0x211] == c[0x211]);
    assert(le_u16_at(p, 0x210) == n);
    let got = learned(p, host_count, host_names);
    assert(shown(n as u32) == n);
    assert forall|i: int| 0 <= i < n implies #[trigger] got.names[i] == kept_name(names[i]) by {
        let off = 0x214 + 32 * i;
        let kept = kept_name(names[i]);
        assert((off - 0x214) / 32 == i);
        assert((off - 0x214) % 32 == 0);
        assert(p[off] == kept.len() as u8);
        assert forall|t: int| 0 <= t < kept.len() implies #[trigger] stored_name(p, i)[t] == kept[t] by {
            assert((off + 1 + t - 0x214) / 32 == i);
            assert((off + 1 + t - 0x214) % 32 == 1 + t);
        }
        assert(stored_name(p, i) =~= kept);
    }
    assert(got.names =~= Seq::new(n as nat, |i: int| kept_name(names[i])));
}

// === Snake ===

/// A move either ends the game, leaving the snake where it was, or moves
/// the head one cell in the snake's direction, the snake growing by at most
/// one cell and the score by at most one helping of food.
pub proof fn law_snake_moves_one_cell(g: SnakeView)
    requires
        well_formed(g),
        g.state == State::Playing,
    ensures
        ({
            let s = stepped(g);
            let head = g.snake[0];
            ||| s.state == State::GameOver && s.snake == g.snake && s.score == g.score
            ||| {
                &&& s.state == State::Playing
                &&& s.snake[0] == (Pos { x: (head.x + dir_dx(g.dir)) as i32, y: (head.y + dir_dy(g.dir)) as i32 })
                &&& in_grid(s.snake[0])
                &&& s.snake.len() == g.snake.len() || s.snake.len() == g.snake.len() + 1
                &&& s.score == g.score || s.score == ((g.score + 10) % 0x1_0000_0000) as u32
            }
        }),
{
}

/// A move onto free ground: the head goes one cell on and every other cell
/// follows the one before it. Onto the food the snake grows by one (the
/// whole old snake stays behind the new head, unless it is already
/// `MAX_SNAKE` long) and scores 10; otherwise the tail cell is left. Into a
/// wall or into itself the game ends and nothing moves.
pub proof fn law_snake_step_body(g: SnakeView)
    requires
        g.snake.len() > 0,
    ensures
        ({
            let head = g.snake[0];
            let nh = Pos { x: (head.x + dir_dx(g.dir)) as i32, y: (head.y + dir_dy(g.dir)) as i32 };
            let s = stepped(g);
            &&& (!in_grid(nh) || g.snake.contains(nh)) ==> s.state == State::GameOver && s.snake == g.snake
                && s.score == g.score && s.food == g.food
            &&& (in_grid(nh) && !g.snake.contains(nh) && nh == g.food && g.snake.len() < MAX_SNAKE) ==> {
                &&& s.snake == seq![nh] + g.snake
                &&& s.snake.len() == g.snake.len() + 1
                &&& s.score == ((g.score + 10) % 0x1_0000_0000) as u32
                &&& s.state == g.state
            }
            &&& (in_grid(nh) && !g.snake.contains(nh) && nh == g.food && g.snake.len() >= MAX_SNAKE) ==> {
                &&& s.snake == g.snake.update(0, nh)
                &&& s.score == ((g.score + 10) % 0x1_0000_0000) as u32
            }
            &&& (in_grid(nh) && !g.snake.contains(nh) && nh != g.food) ==> {
                &&& s.snake == seq![nh] + g.snake.drop_last()
                &&& s.snake.len() == g.snake.len()
                &&& s.score == g.score
                &&& s.food == g.food
                &&& s.state == g.state
            }
        }),
{
}

// === The launcher menu ===

/// A painted pixel on screen is the paint's color where it gives one, else
/// what was there.
pub proof fn law_paint_pixel(m: Seq<u8>, f: spec_fn(int, int) -> Option<u8>, px: int, py: int)
    requires
        m.len() >= MEMORY_SIZE,
        on_screen(px, py),
    ensures
        paint(m, f).len() == m.len(),
        paint(m, f)[fb_index(px, py)] == (match f(px, py) {
            Some(c) => c,
            None => m[fb_index(px, py)],
        }),
{
    lemma_fb_coords(px, py);
}

/// Setting points that all differ from `(px, py)` leaves that pixel alone.
proof fn lemma_plot_all_misses(m: Seq<u8>, pts: Seq<(int, int)>, c: u8, px: int, py: int)
    requires
        m.len() >= MEMORY_SIZE,
        on_screen(px, py),
        forall|k: int| 0 <= k < pts.len() ==> #[trigger] pts[k] != (px, py),
    ensures
        plot_all(m, pts, c).len() == m.len(),
        plot_all(m, pts, c)[fb_index(px, py)] == m[fb_index(px, py)],
    decreases pts.len(),
{
    if pts.len() > 0 {
        let q = pts[0];
        let m1 = plot(m, q.0, q.1, c);
        lemma_fb_coords(px, py);
        if on_screen(q.0, q.1) {
            lemma_fb_coords(q.0, q.1);
            assert(fb_index(q.0, q.1) != fb_index(px, py));
        }
        let rest = pts.drop_first();
        assert forall|k: int| 0 <= k < rest.len() implies #[trigger] rest[k] != (px, py) by {
            assert(rest[k] == pts[k + 1]);
        }
        lemma_plot_all_misses(m1, rest, c, px, py);
    }
}

/// Every point of a line from `(x0, y0)` to `(x1, y1)` lies in the box the
/// two ends span: a level line keeps its row, an upright one its column.
proof fn lemma_line_in_box(x0: int, y0: int, x1: int, y1: int, k: int)
    requires
        0 <= k < line_points(x0, y0, x1, y1).len(),
    ensures
        ({
            let q = line_points(x0, y0, x1, y1)[k];
            &&& (x0 <= q.0 <= x1 || x1 <= q.0 <= x0)
            &&& (y0 <= q.1 <= y1 || y1 <= q.1 <= y0)
        }),
    decreases k,
{
    law_line_connected(x0, y0, x1, y1);
    if k > 0 {
        lemma_line_in_box(x0, y0, x1, y1, k - 1);
        assert(joined_at(line_points(x0, y0, x1, y1), k - 1, x1, y1));
    }
}

/// An outline leaves alone every pixel that is on none of its four edges.
proof fn lemma_outline_misses(m: Seq<u8>, x: int, y: int, w: int, h: int, c: u8, px: int, py: int)
    requires
        m.len() >= MEMORY_SIZE,
        on_screen(px, py),
        px != x,
        px != x + w - 1,
        py != y,
        py != y + h - 1,
    ensures
        rect_outline(m, x, y, w, h, c).len() == m.len(),
        rect_outline(m, x, y, w, h, c)[fb_index(px, py)] == m[fb_index(px, py)],
{
    let l1 = line_points(x, y, x + w - 1, y);
    let l2 = line_points(x, y + h - 1, x + w - 1, y + h - 1);
    let l3 = line_points(x, y, x, y + h - 1);
    let l4 = line_points(x + w - 1, y, x + w - 1, y + h - 1);
    assert forall|k: int| 0 <= k < l1.len() implies #[trigger] l1[k] != (px, py) by {
        lemma_line_in_box(x, y, x + w - 1, y, k);
    }
    assert forall|k: int| 0 <= k < l2.len() implies #[trigger] l2[k] != (px, py) by {
        lemma_line_in_box(x, y + h - 1, x + w - 1, y + h - 1, k);
    }
    assert forall|k: int| 0 <= k < l3.len() implies #[trigger] l3[k] != (px, py) by {
        lemma_line_in_box(x, y, x, y + h - 1, k);
    }
    assert forall|k: int| 0 <= k < l4.len() implies #[trigger] l4[k] != (px, py) by {
        lemma_line_in_box(x + w - 1, y, x + w - 1, y + h - 1, k);
    }
    let m1 = plot_all(m, l1, c);
    let m2 = plot_all(m1, l2, c);
    let m3 = plot_all(m2, l3, c);
    lemma_plot_all_misses(m, l1, c, px, py);
    lemma_plot_all_misses(m1, l2, c, px, py);
    lemma_plot_all_misses(m2, l3, c, px, py);
    lemma_plot_all_misses(m3, l4, c, px, py);
}

/// The left end of row `i`'s highlight bar after the first `k` menu rows.
proof fn lemma_rows_pixel(m: Seq<u8>, v: LauncherView, k: int, i: int, px: int)
    requires
        m.len() >= MEMORY_SIZE,
        22 <= px < 26,
        0 <= i,
        63 + 20 * i < 240,
    ensures
        rows_drawn(m, v, k).len() == m.len(),
        rows_drawn(m, v, k)[fb_index(px, 63 + 20 * i)] == (if i < k && i == v.selected {
            COL_SELECTED_BG
        } else {
            m[fb_index(px, 63 + 20 * i)]
        }),
    decreases k,
{
    let py = 63 + 20 * i;
    if k > 0 {
        lemma_rows_pixel(m, v, k - 1, i, px);
        let j = k - 1;
        let y = 65 + j * 20;
        let prev = rows_drawn(m, v, k - 1);
        let sel = j == v.selected;
        if sel {
            let r = rect_filled(prev, 22, y - 2, 276, 18, COL_SELECTED_BG);
            law_paint_pixel(
                prev,
                uniform(|qx: int, qy: int| in_rect(22, y - 2, as_i32(276), as_i32(18), qx, qy), COL_SELECTED_BG),
                px,
                py,
            );
            assert(in_rect(22, y - 2, 276, 18, px, py) == (i == j));
            reveal_strlit(">");
            law_text_stays_in_box(r, ">".spec_bytes(), 26, y, COL_SELECTED_TEXT, px, py);
            let m1 = text_at(r, ">".spec_bytes(), 26, y, COL_SELECTED_TEXT);
            if valid_utf8(v.names[j]) {
                law_text_stays_in_box(m1, v.names[j], 40, y, COL_SELECTED_TEXT, px, py);
            }
        } else {
            if valid_utf8(v.names[j]) {
                law_text_stays_in_box(prev, v.names[j], 40, y, COL_TEXT, px, py);
            }
        }
    }
}

/// The menu highlights the selected game and no other: in a drawn frame
/// the left end of each visible row's bar, pixels `(22..26, 63 + 20 i)`,
/// has the highlight color on the selected row and the background color
/// on every other row.
pub proof fn law_menu_highlights_selection(m: Seq<u8>, v: LauncherView, frame: u32, i: int, px: int)
    requires
        m.len() >= MEMORY_SIZE,
        0 <= i < shown(v.game_count),
        63 + 20 * i < 240,
        22 <= px < 26,
    ensures
        menu_frame(m, v, frame)[fb_index(px, 63 + 20 * i)] == (if i == v.selected {
            COL_SELECTED_BG
        } else {
            COL_BG
        }),
{
    let py = 63 + 20 * i;
    lemma_fb_coords(px, py);
    let m0 = cleared(m, COL_BG);
    reveal_strlit("HANDHELD OS");
    reveal_strlit("Select a Game");
    reveal_strlit("No games found");
    reveal_strlit("Press A to play");
    let m1 = text_at(m0, "HANDHELD OS".spec_bytes(), 104, 20, COL_TITLE);
    law_text_stays_in_box(m0, "HANDHELD OS".spec_bytes(), 104, 20, COL_TITLE, px, py);
    let m2 = text_at(m1, "Select a Game".spec_bytes(), 98, 36, COL_TEXT);
    law_text_stays_in_box(m1, "Select a Game".spec_bytes(), 98, 36, COL_TEXT, px, py);
    let m3 = rect_outline(m2, 20, 55, 280, 170, COL_BORDER);
    lemma_outline_misses(m2, 20, 55, 280, 170, COL_BORDER, px, py);
    let count = shown(v.game_count);
    let m4 = rows_drawn(m3, v, count);
    lemma_rows_pixel(m3, v, count, i, px);
    if (frame / 30) % 2 == 0 {
        law_text_stays_in_box(m4, "Press A to play".spec_bytes(), 92, 215, COL_TEXT, px, py);
    }
}

// === The keyboard over time ===

/// Whether `ev` presses or releases a key that drives button bit `m`.
pub open spec fn key_event_for(ev: InputEvent, m: u16) -> bool {
    &&& ev.ev_type == EV_KEY
    &&& ev.value == 0 || ev.value == 1
    &&& !(ev.code == KEY_Q && ev.value == 1)
    &&& key_bit(ev.code) == Some(m)
}

/// Whether button bit `m` is held after the events `evs`, starting from
/// `buttons`: as the latest press or release of a key that drives it left
/// it, or as it was if there is none.
pub open spec fn latest_held(buttons: u16, evs: Seq<InputEvent>, m: u16) -> bool
    decreases evs.len(),
{
    if evs.len() == 0 {
        buttons & m != 0
    } else if key_event_for(evs.last(), m) {
        evs.last().value == 1
    } else {
        latest_held(buttons, evs.drop_last(), m)
    }
}

/// Whether `ev` is a press of `Q`.
pub open spec fn quit_press(ev: InputEvent) -> bool {
    ev.ev_type == EV_KEY && ev.code == KEY_Q && ev.value == 1
}

/// The button bits keys can drive.
pub open spec fn key_button(m: u16) -> bool {
    m == 1 || m == 2 || m == 4 || m == 8 || m == 16 || m == 256
}

proof fn lemma_bit_ops(x: u16, bit: u16, m: u16)
    requires
        key_button(bit),
        key_button(m),
    ensures
        ((x | bit) & m != 0) == (bit == m || x & m != 0),
        ((x & !bit) & m != 0) == (bit != m && x & m != 0),
        (x | bit) & !0x11Fu16 == x & !0x11Fu16,
        (x & !bit) & !0x11Fu16 == x & !0x11Fu16,
{
    assert(((x | bit) & m != 0) == (bit == m || x & m != 0)) by (bit_vector)
        requires
            bit == 1 || bit == 2 || bit == 4 || bit == 8 || bit == 16 || bit == 256,
            m == 1 || m == 2 || m == 4 || m == 8 || m == 16 || m == 256,
    ;
    assert(((x & !bit) & m != 0) == (bit != m && x & m != 0)) by (bit_vector)
        requires
            bit == 1 || bit == 2 || bit == 4 || bit == 8 || bit == 16 || bit == 256,
            m == 1 || m == 2 || m == 4 || m == 8 || m == 16 || m == 256,
    ;
    assert((x | bit) & !0x11Fu16 == x & !0x11Fu16) by (bit_vector)
        requires
            bit == 1 || bit == 2 || bit == 4 || bit == 8 || bit == 16 || bit == 256,
    ;
    assert((x & !bit) & !0x11Fu16 == x & !0x11Fu16) by (bit_vector)
        requires
            bit == 1 || bit == 2 || bit == 4 || bit == 8 || bit == 16 || bit == 256,
    ;
}

/// Over any sequence of events, a button bit follows the latest press or
/// release of a key that drives it, and no other bit ever changes: from a
/// fresh keyboard only `0x11F` can be held.
pub proof fn law_keyboard_buttons(buttons: u16, quit: bool, evs: Seq<InputEvent>, m: u16)
    requires
        key_button(m),
    ensures
        (events_applied(buttons, quit, evs).0 & m != 0) == latest_held(buttons, evs, m),
        events_applied(buttons, quit, evs).0 & !0x11Fu16 == buttons & !0x11Fu16,
    decreases evs.len(),
{
    if evs.len() > 0 {
        law_keyboard_buttons(buttons, quit, evs.drop_last(), m);
        let p = events_applied(buttons, quit, evs.drop_last());
        let ev = evs.last();
        if ev.ev_type == EV_KEY && !(ev.code == KEY_Q && ev.value == 1) {
            match key_bit(ev.code) {
                Some(b) => {
                    lemma_bit_ops(p.0, b, m);
                },
                None => {},
            }
        }
    }
}

/// Over any sequence of events, quit is asked for exactly when it was
/// before or some event of the sequence presses `Q`.
pub proof fn law_keyboard_quit(buttons: u16, quit: bool, evs: Seq<InputEvent>)
    ensures
        events_applied(buttons, quit, evs).1 == (quit || exists|i: int|
            0 <= i < evs.len() && #[trigger] quit_press(evs[i])),
    decreases evs.len(),
{
    if evs.len() > 0 {
        let e = evs.drop_last();
        law_keyboard_quit(buttons, quit, e);
        let p = events_applied(buttons, quit, e);
        let last = evs.last();
        assert(events_applied(buttons, quit, evs) == event_step(p.0, p.1, last));
        assert(event_step(p.0, p.1, last).1 == (p.1 || quit_press(last)));
        let in_e = exists|i: int| 0 <= i < e.len() && #[trigger] quit_press(e[i]);
        let in_evs = exists|i: int| 0 <= i < evs.len() && #[trigger] quit_press(evs[i]);
        if quit_press(last) {
            assert(quit_press(evs[evs.len() - 1]));
            assert(in_evs);
        }
        if in_e {
            let i = choose|i: int| 0 <= i < e.len() && #[trigger] quit_press(e[i]);
            assert(e[i] == evs[i]);
            assert(quit_press(evs[i]));
            assert(in_evs);
        }
        if in_evs {
            let i = choose|i: int| 0 <= i < evs.len() && #[trigger] quit_press(evs[i]);
            if i < e.len() {
                assert(e[i] == evs[i]);
                assert(quit_press(e[i]));
                assert(in_e);
            } else {
                assert(evs[i] == last);
            }
        }
        assert(in_evs == (in_e || quit_press(last)));
    }
}

/// From a fresh keyboard, whatever events follow, only the bits of `0x11F`
/// can be held, each as the latest press or release of its keys left it
/// (released if there is none), and quit is asked for exactly when one of
/// the events presses `Q`; after the quit request is cleared the same holds
/// of quit for the events that follow.
pub proof fn law_keyboard_from_fresh(evs: Seq<InputEvent>, m: u16, buttons: u16)
    requires
        key_button(m),
    ensures
        events_applied(0, false, evs).0 & !0x11Fu16 == 0,
        (events_applied(0, false, evs).0 & m != 0) == latest_held(0, evs, m),
        events_applied(0, false, evs).1 == exists|i: int| 0 <= i < evs.len() && #[trigger] quit_press(evs[i]),
        events_applied(buttons, false, evs).1 == exists|i: int|
            0 <= i < evs.len() && #[trigger] quit_press(evs[i]),
{
    law_keyboard_buttons(0, false, evs, m);
    law_keyboard_quit(0, false, evs);
    law_keyboard_quit(buttons, false, evs);
    assert(0u16 & !0x11Fu16 == 0) by (bit_vector);
}

/// Polling the ring applies, in ring order, the events in the buffers of
/// the descriptors the used ring names: what the keyboard holds after any
/// polls is what those events leave.
pub proof fn law_poll_applies_events(s: InputState, used_ring: Seq<u32>, events: Seq<InputEvent>, n: nat)
    ensures
        read_events(s, slot_events(used_ring, events), n).buttons == events_applied(
            s.buttons,
            s.quit,
            ring_events(s.last_seen_used, slot_events(used_ring, events), n),
        ).0,
        read_events(s, slot_events(used_ring, events), n).quit == events_applied(
            s.buttons,
            s.quit,
            ring_events(s.last_seen_used, slot_events(used_ring, events), n),
        ).1,
        forall|k: int|
            0 <= k < n ==> #[trigger] ring_events(s.last_seen_used, slot_events(used_ring, events), n)[k]
                == events[used_ring[((s.last_seen_used + k) % 0x10000) % 16] as int],
{
    lemma_read_events(s, slot_events(used_ring, events), n);
}

} // verus!
