//! The demo cart: a title and a few shapes drawn with every primitive.
use vstd::prelude::*;
use crate::sdk::{
    GuestMemory,
    circle,
    circle_fill,
    circle_points,
    clear,
    cleared,
    in_disk,
    line,
    line_points,
    paint,
    palette_entry,
    plot_all,
    rect,
    rect_fill,
    rect_filled,
    rect_outline,
    set_palette,
    text,
    text_at,
    uniform,
};
use vstd::string::StringSliceAdditionalSpecFns;

verus! {

/// The demo's palette.
pub open spec fn hello_palette(m: Seq<u8>) -> Seq<u8> {
    let m1 = palette_entry(m, 0, 0, 0, 0);
    let m2 = palette_entry(m1, 1, 255, 255, 255);
    let m3 = palette_entry(m2, 2, 0, 200, 80);
    let m4 = palette_entry(m3, 3, 80, 120, 255);
    let m5 = palette_entry(m4, 4, 255, 80, 80);
    palette_entry(m5, 5, 255, 200, 0)
}

/// The demo's frame drawn over `m`.
pub open spec fn hello_frame(m: Seq<u8>) -> Seq<u8> {
    let m1 = cleared(m, 0);
    let m2 = text_at(m1, "HANDHELD OS".spec_bytes(), 110, 40, 1);
    let m3 = text_at(m2, "VexiiRiscv + k23".spec_bytes(), 92, 56, 2);
    let m4 = rect_filled(m3, 60, 90, 40, 40, 3);
    let m5 = rect_outline(m4, 60, 90, 40, 40, 1);
    let m6 = paint(m5, uniform(|px: int, py: int| in_disk(160, 110, 18, px, py), 4));
    let m7 = plot_all(m6, circle_points(160, 110, 18), 1);
    let m8 = plot_all(m7, line_points(220, 130, 240, 90), 5);
    let m9 = plot_all(m8, line_points(240, 90, 260, 130), 5);
    let m10 = plot_all(m9, line_points(260, 130, 220, 130), 5);
    text_at(m10, "Running on k23!".spec_bytes(), 92, 210, 1)
}

/// Sets the demo's palette.
pub fn init(mem: &mut GuestMemory)
    ensures
        final(mem)@ == hello_palette(old(mem)@),
{
    set_palette(mem, 0, 0, 0, 0);
    set_palette(mem, 1, 255, 255, 255);
    set_palette(mem, 2, 0, 200, 80);
    set_palette(mem, 3, 80, 120, 255);
    set_palette(mem, 4, 255, 80, 80);
    set_palette(mem, 5, 255, 200, 0);
}

/// Draws the demo's frame.
pub fn draw(mem: &mut GuestMemory)
    ensures
        final(mem)@ == hello_frame(old(mem)@),
{
    clear(mem, 0);
    text(mem, "HANDHELD OS", 110, 40, 1);
    text(mem, "VexiiRiscv + k23", 92, 56, 2);
    rect_fill(mem, 60, 90, 40, 40, 3);
    rect(mem, 60, 90, 40, 40, 1);
    circle_fill(mem, 160, 110, 18, 4);
    circle(mem, 160, 110, 18, 1);
    line(mem, 220, 130, 240, 90, 5);
    line(mem, 240, 90, 260, 130, 5);
    line(mem, 260, 130, 220, 130, 5);
    text(mem, "Running on k23!", 92, 210, 1);
}

} // verus!
