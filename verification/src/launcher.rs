//! The launcher: a menu of the games on the console, from which one is
//! picked and launched.
//!
//! Game names come from the host, one call per game; where the host has
//! none to give, the runtime has stored them in the game's memory: a `u32`
//! count at `0x210`, then one 32-byte slot per name holding its length and
//! up to 31 bytes.
use vstd::prelude::*;
use crate::cart::str_from_utf8;
use crate::sdk::{
    Button,
    GuestMemory,
    button_pressed,
    clear,
    cleared,
    current_of,
    held,
    le_u16_at,
    mem_read,
    mem_read_u16,
    palette_entry,
    previous_of,
    rect,
    rect_fill,
    rect_filled,
    rect_outline,
    set_palette,
    text,
    text_at,
};
use vstd::string::StringSliceAdditionalSpecFns;
use vstd::utf8::valid_utf8;

verus! {

pub const MAX_GAMES: usize = 16;
pub const MAX_NAME: usize = 32;

pub const COL_BG: u8 = 0;
pub const COL_TITLE: u8 = 5;
pub const COL_TEXT: u8 = 1;
pub const COL_SELECTED_BG: u8 = 3;
pub const COL_SELECTED_TEXT: u8 = 1;
pub const COL_BORDER: u8 = 9;

/// The launcher, as values: how many games there are, which is selected,
/// and the names it shows (at most sixteen).
pub struct LauncherView {
    pub game_count: u32,
    pub selected: u32,
    pub names: Seq<Seq<u8>>,
}

/// The name stored in slot `i` of the list in memory.
pub open spec fn stored_name(m: Seq<u8>, i: int) -> Seq<u8> {
    let off = 0x214 + 32 * i;
    let len = if m[off] < 31 {
        m[off] as int
    } else {
        31
    };
    m.subrange(off + 1, off + 1 + len)
}

/// A name as its 32-byte buffer holds it.
pub open spec fn buffered(name: Seq<u8>) -> Seq<u8> {
    if name.len() <= 32 {
        name
    } else {
        name.take(32)
    }
}

/// The smaller of a count and the sixteen names shown.
pub open spec fn shown(count: u32) -> int {
    if count < 16 {
        count as int
    } else {
        16
    }
}

/// What the launcher learns at start: from the host's names when it gives
/// a first one, else from the list in memory, whose count, when not zero,
/// replaces the host's.
pub open spec fn learned(m: Seq<u8>, host_count: u32, host_names: Seq<Seq<u8>>) -> LauncherView {
    if host_count == 0 {
        LauncherView { game_count: 0, selected: 0, names: Seq::empty() }
    } else if host_names[0].len() > 0 {
        LauncherView {
            game_count: host_count,
            selected: 0,
            names: Seq::new(shown(host_count) as nat, |i: int| buffered(host_names[i])),
        }
    } else {
        let stored = le_u16_at(m, 0x210);
        let count = if stored > 0 {
            stored as u32
        } else {
            host_count
        };
        LauncherView {
            game_count: count,
            selected: 0,
            names: Seq::new(shown(count) as nat, |i: int| stored_name(m, i)),
        }
    }
}

/// The selection after a frame with input memory `m`: down moves on, up
/// moves back, each wrapping around.
pub open spec fn moved_selection(sel: u32, count: u32, m: Seq<u8>) -> u32 {
    let pressed = |b: Button| held(current_of(m), b) && !held(previous_of(m), b);
    let s1 = if pressed(Button::Down) {
        ((sel + 1) % (count as int)) as u32
    } else {
        sel
    };
    if pressed(Button::Up) {
        if s1 == 0 {
            (count - 1) as u32
        } else {
            (s1 - 1) as u32
        }
    } else {
        s1
    }
}

/// Whether A or Start went down this frame.
pub open spec fn launch_pressed(m: Seq<u8>) -> bool {
    let pressed = |b: Button| held(current_of(m), b) && !held(previous_of(m), b);
    pressed(Button::A) || pressed(Button::Start)
}

/// The menu rows of the first `k` games: the selected one highlighted with
/// a marker; a name that is no UTF-8 is left out.
pub open spec fn rows_drawn(m: Seq<u8>, v: LauncherView, k: int) -> Seq<u8>
    decreases k,
{
    if k <= 0 {
        m
    } else {
        let i = k - 1;
        let y = 65 + i * 20;
        let prev = rows_drawn(m, v, k - 1);
        let sel = i == v.selected;
        let m1 = if sel {
            text_at(rect_filled(prev, 22, y - 2, 276, 18, COL_SELECTED_BG), ">".spec_bytes(), 26, y, COL_SELECTED_TEXT)
        } else {
            prev
        };
        let name = v.names[i];
        if valid_utf8(name) {
            text_at(m1, name, 40, y, if sel { COL_SELECTED_TEXT } else { COL_TEXT })
        } else {
            m1
        }
    }
}

/// The launcher's frame drawn over `m`.
pub open spec fn menu_frame(m: Seq<u8>, v: LauncherView, frame: u32) -> Seq<u8> {
    let m0 = cleared(m, COL_BG);
    let m1 = text_at(m0, "HANDHELD OS".spec_bytes(), 104, 20, COL_TITLE);
    let m2 = text_at(m1, "Select a Game".spec_bytes(), 98, 36, COL_TEXT);
    let m3 = rect_outline(m2, 20, 55, 280, 170, COL_BORDER);
    let count = shown(v.game_count);
    let m4 = rows_drawn(m3, v, count);
    let m5 = if count == 0 {
        text_at(m4, "No games found".spec_bytes(), 92, 120, COL_TEXT)
    } else {
        m4
    };
    if (frame / 30) % 2 == 0 {
        text_at(m5, "Press A to play".spec_bytes(), 92, 215, COL_TEXT)
    } else {
        m5
    }
}

/// The launcher's palette.
pub open spec fn launcher_palette(m: Seq<u8>) -> Seq<u8> {
    let m1 = palette_entry(m, 0, 16, 16, 32);
    let m2 = palette_entry(m1, 1, 220, 220, 220);
    let m3 = palette_entry(m2, 2, 0, 200, 80);
    let m4 = palette_entry(m3, 3, 60, 80, 180);
    let m5 = palette_entry(m4, 5, 255, 200, 0);
    palette_entry(m5, 9, 40, 40, 60)
}

/// The launcher menu.
pub struct Launcher {
    game_count: u32,
    selected: u32,
    names: Vec<Vec<u8>>,
}

impl View for Launcher {
    type V = LauncherView;

    closed spec fn view(&self) -> LauncherView {
        LauncherView {
            game_count: self.game_count,
            selected: self.selected,
            names: self.names@.map_values(|n: Vec<u8>| n@),
        }
    }
}

/// What holds of the menu: one name per game shown, and a selection that
/// is a game whenever there is one.
pub open spec fn menu_ok(v: LauncherView) -> bool {
    &&& v.names.len() == shown(v.game_count)
    &&& v.game_count > 0 ==> v.selected < v.game_count
}

/// Reads the name in slot `i` of the list in memory.
fn read_stored_name(mem: &GuestMemory, i: usize) -> (name: Vec<u8>)
    requires
        i < MAX_GAMES,
    ensures
        name@ == stored_name(mem@, i as int),
{
    let _n = mem.len();
    let offset = 0x214 + i * 32;
    let raw = mem_read(mem, offset);
    let len: usize = if raw < 31 {
        raw as usize
    } else {
        31
    };
    let mut name: Vec<u8> = Vec::new();
    let mut j: usize = 0;
    while j < len
        invariant
            j <= len <= 31,
            offset == 0x214 + i * 32,
            i < 16,
            mem@.len() >= crate::sdk::MEMORY_SIZE,
            name@ == mem@.subrange(offset + 1, offset + 1 + j),
        decreases len - j,
    {
        name.push(mem_read(mem, offset + 1 + j));
        proof {
            assert(name@ =~= mem@.subrange(offset + 1, offset + 1 + j + 1));
        }
        j += 1;
    }
    name
}

impl Launcher {
    #[verifier::type_invariant]
    closed spec fn inv(self) -> bool {
        menu_ok(self@)
    }

    /// Sets the palette and learns the games: `host_count` is what the host
    /// says there are, `host_names[i]` what it gives as the name of game `i`
    /// (empty where it has none; a name buffer keeps 32 bytes).
    pub fn init(mem: &mut GuestMemory, host_count: u32, host_names: &[Vec<u8>]) -> (l: Self)
        requires
            host_count > 0 ==> host_names@.len() >= 1,
            host_count > 0 && host_names@[0]@.len() > 0 ==> host_names@.len() >= shown(host_count),
        ensures
            final(mem)@ == launcher_palette(old(mem)@),
            l@ == learned(final(mem)@, host_count, host_names@.map_values(|n: Vec<u8>| n@)),
            menu_ok(l@),
    {
        set_palette(mem, 0, 16, 16, 32);
        set_palette(mem, 1, 220, 220, 220);
        set_palette(mem, 2, 0, 200, 80);
        set_palette(mem, 3, 60, 80, 180);
        set_palette(mem, 5, 255, 200, 0);
        set_palette(mem, 9, 40, 40, 60);
        let ghost hv = host_names@.map_values(|n: Vec<u8>| n@);
        let ghost want = learned(mem@, host_count, hv);
        let mut names: Vec<Vec<u8>> = Vec::new();
        if host_count == 0 {
            let l = Launcher { game_count: 0, selected: 0, names };
            proof {
                assert(l@.names =~= want.names);
            }
            return l;
        }
        let _n = mem.len();
        if host_names[0].len() > 0 {
            let n: usize = if host_count < 16 {
                host_count as usize
            } else {
                16
            };
            let mut i: usize = 0;
            while i < n
                invariant
                    i <= n <= host_names@.len(),
                    n == shown(host_count),
                    hv == host_names@.map_values(|n: Vec<u8>| n@),
                    names@.len() == i,
                    forall|j: int| 0 <= j < i ==> #[trigger] names@[j]@ == buffered(hv[j]),
                decreases n - i,
            {
                let mut copy: Vec<u8> = Vec::new();
                let src = &host_names[i];
                let len: usize = if src.len() < MAX_NAME {
                    src.len()
                } else {
                    MAX_NAME
                };
                let mut k: usize = 0;
                while k < len
                    invariant
                        k <= len <= src@.len(),
                        copy@ == src@.take(k as int),
                    decreases len - k,
                {
                    copy.push(src[k]);
                    proof {
                        assert(copy@ =~= src@.take(k + 1));
                    }
                    k += 1;
                }
                proof {
                    assert(hv[i as int] == src@);
                    assert(copy@ =~= buffered(src@));
                }
                names.push(copy);
                i += 1;
            }
            let l = Launcher { game_count: host_count, selected: 0, names };
            proof {
                assert(hv[0] == host_names@[0]@);
                assert(l@.names =~= want.names);
            }
            return l;
        }
        let stored = mem_read_u16(mem, 0x210) as u32;
        let count = if stored > 0 {
            stored
        } else {
            host_count
        };
        let n: usize = if count < 16 {
            count as usize
        } else {
            16
        };
        let mut i: usize = 0;
        while i < n
            invariant
                i <= n <= 16,
                n == shown(count),
                names@.len() == i,
                forall|j: int| 0 <= j < i ==> #[trigger] names@[j]@ == stored_name(mem@, j),
            decreases n - i,
        {
            names.push(read_stored_name(mem, i));
            i += 1;
        }
        let l = Launcher { game_count: count, selected: 0, names };
        proof {
            assert(hv[0] == host_names@[0]@);
            assert(l@.names =~= want.names);
        }
        l
    }

    /// One frame of the menu with input memory `mem`: down and up move the
    /// selection, wrapping around; A or Start asks to launch the selected
    /// game, whose index is returned.
    pub fn update(&mut self, mem: &GuestMemory) -> (launch: Option<u32>)
        ensures
            old(self)@.game_count == 0 ==> final(self)@ == old(self)@ && launch is None,
            old(self)@.game_count > 0 ==> {
                &&& final(self)@ == (LauncherView {
                    selected: moved_selection(old(self)@.selected, old(self)@.game_count, mem@),
                    ..old(self)@
                })
                &&& launch == if launch_pressed(mem@) {
                    Some(final(self)@.selected)
                } else {
                    None
                }
            },
            menu_ok(final(self)@),
    {
        proof {
            use_type_invariant(&*self);
        }
        let count = self.game_count;
        if count == 0 {
            return None;
        }
        if button_pressed(mem, Button::Down) {
            self.selected = (self.selected + 1) % count;
        }
        if button_pressed(mem, Button::Up) {
            self.selected = if self.selected == 0 {
                count - 1
            } else {
                self.selected - 1
            };
        }
        proof {
            use_type_invariant(&*self);
        }
        if button_pressed(mem, Button::A) || button_pressed(mem, Button::Start) {
            return Some(self.selected);
        }
        None
    }

    /// Draws the menu; `frame` is the frame count, which makes the prompt
    /// blink.
    pub fn draw(&self, mem: &mut GuestMemory, frame: u32)
        ensures
            final(mem)@ == menu_frame(old(mem)@, self@, frame),
    {
        proof {
            use_type_invariant(self);
        }
        clear(mem, COL_BG);
        text(mem, "HANDHELD OS", 104, 20, COL_TITLE);
        text(mem, "Select a Game", 98, 36, COL_TEXT);
        rect(mem, 20, 55, 280, 170, COL_BORDER);
        let ghost m3 = mem@;
        let count: u32 = if self.game_count < 16 {
            self.game_count
        } else {
            16
        };
        let mut i: u32 = 0;
        while i < count
            invariant
                i <= count <= 16,
                count == shown(self@.game_count),
                self@.names.len() == count,
                mem@ == rows_drawn(m3, self@, i as int),
            decreases count - i,
        {
            let y: i32 = 65 + (i as i32) * 20;
            let is_sel = i == self.selected;
            if is_sel {
                rect_fill(mem, 22, y - 2, 276, 18, COL_SELECTED_BG);
                text(mem, ">", 26, y, COL_SELECTED_TEXT);
            }
            let name_bytes = self.names[i as usize].as_slice();
            proof {
                assert(self@.names[i as int] == self.names@[i as int]@);
            }
            match str_from_utf8(name_bytes) {
                Some(name) => {
                    let col = if is_sel {
                        COL_SELECTED_TEXT
                    } else {
                        COL_TEXT
                    };
                    text(mem, name, 40, y, col);
                },
                None => {},
            }
            i += 1;
        }
        if count == 0 {
            text(mem, "No games found", 92, 120, COL_TEXT);
        }
        if (frame / 30) % 2 == 0 {
            text(mem, "Press A to play", 92, 215, COL_TEXT);
        }
    }
}

} // verus!
