//! The QEMU RAM framebuffer: a 320x240 XRGB8888 buffer the firmware shows,
//! configured through a fw_cfg file.
//!
//! Mapping the fw_cfg registers and running the DMA transfer is the
//! kernel's part; the bytes it sends and the pixels it shows are built here.
use vstd::prelude::*;
use crate::cart::str_from_utf8;
use vstd::string::StringSliceAdditionalSpecFns;
use vstd::utf8::valid_utf8;

verus! {

pub const FB_WIDTH: usize = 320;
pub const FB_HEIGHT: usize = 240;
/// Bytes per pixel.
pub const FB_BPP: usize = 4;
/// Bytes per row.
pub const FB_STRIDE: usize = 1280;
/// Bytes of the whole buffer.
pub const FB_SIZE: usize = 307200;
/// The DRM code of the XRGB8888 pixel format.
pub const DRM_FORMAT_XRGB8888: u32 = 0x34325258;

/// The big-endian bytes of a 32-bit value.
pub open spec fn be32(v: u32) -> Seq<u8> {
    seq![(v / 0x1000000) as u8, ((v / 0x10000) % 256) as u8, ((v / 0x100) % 256) as u8, (v % 256) as u8]
}

/// The big-endian bytes of a 64-bit value.
pub open spec fn be64(v: u64) -> Seq<u8> {
    be32((v / 0x1_0000_0000) as u32) + be32((v % 0x1_0000_0000) as u32)
}

/// The ramfb configuration for a buffer at physical address `addr`: address,
/// pixel format, flags, width, height and stride, all big-endian.
pub open spec fn config_bytes(addr: u64) -> Seq<u8> {
    be64(addr) + be32(DRM_FORMAT_XRGB8888) + be32(0) + be32(320) + be32(240) + be32(1280)
}

fn push_be32(out: &mut Vec<u8>, v: u32)
    ensures
        final(out)@ == old(out)@ + be32(v),
{
    out.push((v / 0x1000000) as u8);
    out.push(((v / 0x10000) % 256) as u8);
    out.push(((v / 0x100) % 256) as u8);
    out.push((v % 256) as u8);
    proof {
        assert(final(out)@ =~= old(out)@ + be32(v));
    }
}

/// The 28 configuration bytes the kernel writes to the `etc/ramfb` file.
pub fn ramfb_config(addr: u64) -> (cfg: Vec<u8>)
    ensures
        cfg@ == config_bytes(addr),
{
    let mut cfg: Vec<u8> = Vec::new();
    push_be32(&mut cfg, (addr / 0x1_0000_0000) as u32);
    push_be32(&mut cfg, (addr % 0x1_0000_0000) as u32);
    push_be32(&mut cfg, DRM_FORMAT_XRGB8888);
    push_be32(&mut cfg, 0);
    push_be32(&mut cfg, FB_WIDTH as u32);
    push_be32(&mut cfg, FB_HEIGHT as u32);
    push_be32(&mut cfg, FB_STRIDE as u32);
    proof {
        assert(cfg@ =~= config_bytes(addr));
    }
    cfg
}

/// The fw_cfg DMA control bits for a write to the file with `selector`.
pub open spec fn dma_control(selector: u16) -> u32 {
    (0x18 + selector * 0x10000) as u32
}

/// A fw_cfg DMA descriptor, big-endian: control word (write and select,
/// with the file's selector in the high half), length, then the physical
/// address of the data.
pub open spec fn dma_descriptor_bytes(selector: u16, length: u32, address: u64) -> Seq<u8> {
    be32(dma_control(selector)) + be32(length) + be64(address)
}

/// The 16 bytes of the DMA descriptor that writes `length` bytes at
/// `address` to the fw_cfg file with `selector`.
pub fn dma_descriptor(selector: u16, length: u32, address: u64) -> (d: Vec<u8>)
    ensures
        d@ == dma_descriptor_bytes(selector, length, address),
{
    let control: u32 = 0x18 + selector as u32 * 0x10000;
    let mut d: Vec<u8> = Vec::new();
    push_be32(&mut d, control);
    push_be32(&mut d, length);
    push_be32(&mut d, (address / 0x1_0000_0000) as u32);
    push_be32(&mut d, (address % 0x1_0000_0000) as u32);
    proof {
        assert(d@ =~= dma_descriptor_bytes(selector, length, address));
    }
    d
}

/// `b` without its trailing zero bytes.
pub open spec fn strip_zeros(b: Seq<u8>) -> Seq<u8>
    decreases b.len(),
{
    if b.len() > 0 && b.last() == 0 {
        strip_zeros(b.drop_last())
    } else {
        b
    }
}

/// The selector of a fw_cfg directory entry (64 bytes: size, selector,
/// reserved, name) if its name, without trailing NULs, is `name`; a name
/// that is no UTF-8 reads as empty.
pub open spec fn entry_select(entry: Seq<u8>, name: Seq<u8>) -> Option<u16> {
    let raw = entry.subrange(8, 64);
    let file = if valid_utf8(raw) {
        strip_zeros(raw)
    } else {
        Seq::empty()
    };
    if file == name {
        Some((entry[4] * 256 + entry[5]) as u16)
    } else {
        None
    }
}

/// The selector of a directory entry named `name`, if it is.
pub fn fw_cfg_entry_select(entry: &[u8], name: &str) -> (r: Option<u16>)
    requires
        entry@.len() == 64,
    ensures
        r == entry_select(entry@, name.spec_bytes()),
{
    let raw = vstd::slice::slice_subrange(entry, 8, 64);
    let mut end: usize = 56;
    let valid = str_from_utf8(raw).is_some();
    proof {
        assert(raw@ == entry@.subrange(8, 64));
        assert(raw@.take(56) =~= raw@);
    }
    if valid {
        while end > 0 && raw[end - 1] == 0
            invariant
                end <= 56,
                raw@.len() == 56,
                strip_zeros(raw@) == strip_zeros(raw@.take(end as int)),
            decreases end,
        {
            proof {
                assert(raw@.take(end as int).drop_last() =~= raw@.take(end - 1));
            }
            end -= 1;
        }
        proof {
            assert(raw@.take(end as int) == strip_zeros(raw@.take(end as int)));
        }
    } else {
        end = 0;
    }
    let ghost file = if valid {
        strip_zeros(raw@)
    } else {
        Seq::<u8>::empty()
    };
    proof {
        assert(file =~= raw@.take(end as int));
    }
    let n = name.as_bytes();
    if n.len() != end {
        return None;
    }
    let mut i: usize = 0;
    while i < end
        invariant
            i <= end <= 56,
            raw@.len() == 56,
            n@.len() == end,
            n@ == name.spec_bytes(),
            file == raw@.take(end as int),
            entry@.len() == 64,
            entry_select(entry@, n@) == if file == n@ {
                Some((entry@[4] * 256 + entry@[5]) as u16)
            } else {
                None
            },
            forall|j: int| 0 <= j < i ==> raw@[j] == n@[j],
        decreases end - i,
    {
        if raw[i] != n[i] {
            proof {
                assert(file[i as int] != n@[i as int]);
            }
            return None;
        }
        i += 1;
    }
    proof {
        assert(raw@.take(end as int) =~= n@);
    }
    Some(entry[4] as u16 * 256 + entry[5] as u16)
}

/// The selector of the first directory entry named `name`.
pub fn find_fw_cfg_file(entries: &[Vec<u8>], name: &str) -> (r: Option<u16>)
    requires
        forall|i: int| 0 <= i < entries@.len() ==> #[trigger] entries@[i]@.len() == 64,
    ensures
        match r {
            Some(sel) => exists|i: int|
                0 <= i < entries@.len() && entry_select(#[trigger] entries@[i]@, name.spec_bytes()) == Some(sel)
                    && forall|j: int| 0 <= j < i ==> entry_select(#[trigger] entries@[j]@, name.spec_bytes()) is None,
            None => forall|i: int|
                0 <= i < entries@.len() ==> entry_select(#[trigger] entries@[i]@, name.spec_bytes()) is None,
        },
{
    let mut i: usize = 0;
    while i < entries.len()
        invariant
            i <= entries@.len(),
            forall|k: int| 0 <= k < entries@.len() ==> #[trigger] entries@[k]@.len() == 64,
            forall|j: int| 0 <= j < i ==> entry_select(#[trigger] entries@[j]@, name.spec_bytes()) is None,
        decreases entries@.len() - i,
    {
        let e = entries[i].as_slice();
        assert(e@ == entries@[i as int]@);
        match fw_cfg_entry_select(e, name) {
            Some(sel) => {
                return Some(sel);
            },
            None => {},
        }
        i += 1;
    }
    None
}

/// The 48 bytes that set up the framebuffer at physical address `fb_phys`
/// in one DMA transfer, when they lie at physical address `cfg_phys`: the
/// configuration, four bytes of padding, then the descriptor that writes
/// the 28 configuration bytes to the `etc/ramfb` file.
pub open spec fn setup_bytes(selector: u16, fb_phys: u64, cfg_phys: u64) -> Seq<u8> {
    config_bytes(fb_phys) + seq![0u8, 0u8, 0u8, 0u8] + dma_descriptor_bytes(selector, 28, cfg_phys)
}

/// The DMA buffer that sets up the framebuffer, from the fw_cfg directory
/// `entries`; `None` when no entry is named `etc/ramfb`.
pub fn ramfb_setup(entries: &[Vec<u8>], fb_phys: u64, cfg_phys: u64) -> (r: Option<Vec<u8>>)
    requires
        forall|i: int| 0 <= i < entries@.len() ==> #[trigger] entries@[i]@.len() == 64,
    ensures
        r is None <==> forall|i: int|
            0 <= i < entries@.len() ==> entry_select(#[trigger] entries@[i]@, "etc/ramfb".spec_bytes()) is None,
        r matches Some(buf) ==> exists|i: int|
            0 <= i < entries@.len() && entry_select(#[trigger] entries@[i]@, "etc/ramfb".spec_bytes()) is Some
                && (forall|j: int|
                0 <= j < i ==> entry_select(#[trigger] entries@[j]@, "etc/ramfb".spec_bytes()) is None)
                && buf@ == setup_bytes(
                entry_select(entries@[i]@, "etc/ramfb".spec_bytes())->0,
                fb_phys,
                cfg_phys,
            ),
{
    match find_fw_cfg_file(entries, "etc/ramfb") {
        None => None,
        Some(sel) => {
            let mut buf = ramfb_config(fb_phys);
            buf.push(0);
            buf.push(0);
            buf.push(0);
            buf.push(0);
            let mut d = dma_descriptor(sel, 28, cfg_phys);
            buf.append(&mut d);
            proof {
                assert(buf@ =~= setup_bytes(sel, fb_phys, cfg_phys));
            }
            Some(buf)
        },
    }
}

/// The XRGB8888 bytes of `indexed` shown through `palette`: blue, green,
/// red, then 0xFF, for each pixel.
pub open spec fn blitted(indexed: Seq<u8>, palette: Seq<(u8, u8, u8)>) -> Seq<u8> {
    Seq::new(
        307200,
        |j: int|
            {
                let c = palette[indexed[j / 4] as int];
                let k = j % 4;
                if k == 0 {
                    c.2
                } else if k == 1 {
                    c.1
                } else if k == 2 {
                    c.0
                } else {
                    0xFFu8
                }
            },
    )
}

/// The buffer the firmware shows.
pub struct Ramfb {
    fb_buf: Vec<u8>,
}

impl View for Ramfb {
    type V = Seq<u8>;

    closed spec fn view(&self) -> Seq<u8> {
        self.fb_buf@
    }
}

impl Ramfb {
    #[verifier::type_invariant]
    closed spec fn inv(self) -> bool {
        self.fb_buf@.len() == FB_SIZE
    }

    /// A black buffer of `FB_SIZE` bytes.
    pub fn new() -> (fb: Self)
        ensures
            fb@ == Seq::new(FB_SIZE as nat, |i: int| 0u8),
    {
        let v: Vec<u8> = vec![0u8; FB_SIZE];
        assert(v@ =~= Seq::new(FB_SIZE as nat, |i: int| 0u8));
        Ramfb { fb_buf: v }
    }

    /// The bytes of the buffer.
    pub fn bytes(&self) -> (b: &[u8])
        ensures
            b@ == self@,
    {
        self.fb_buf.as_slice()
    }

    /// Shows a 320x240 indexed frame through a 256-color palette.
    pub fn blit(&mut self, indexed_fb: &[u8], palette: &[(u8, u8, u8)])
        requires
            indexed_fb@.len() >= 76800,
            palette@.len() == 256,
        ensures
            final(self)@ == blitted(indexed_fb@, palette@),
        no_unwind
    {
        proof {
            use_type_invariant(&*self);
        }
        let ghost want = blitted(indexed_fb@, palette@);
        let mut i: usize = 0;
        while i < FB_WIDTH * FB_HEIGHT
            invariant
                i <= 76800,
                indexed_fb@.len() >= 76800,
                palette@.len() == 256,
                want == blitted(indexed_fb@, palette@),
                self.fb_buf@.len() == FB_SIZE,
                forall|j: int| 0 <= j < 4 * i ==> #[trigger] self.fb_buf@[j] == want[j],
            decreases 76800 - i,
        {
            let idx = indexed_fb[i] as usize;
            let (r, g, b) = palette[idx];
            let off = i * FB_BPP;
            self.fb_buf[off] = b;
            self.fb_buf[off + 1] = g;
            self.fb_buf[off + 2] = r;
            self.fb_buf[off + 3] = 0xFF;
            proof {
                assert forall|j: int| 0 <= j < 4 * (i + 1) implies #[trigger] self.fb_buf@[j] == want[j] by {
                    if j >= 4 * i {
                        assert(j / 4 == i);
                        assert(j % 4 == j - 4 * i);
                    }
                }
            }
            i += 1;
        }
        proof {
            assert(self.fb_buf@ =~= want);
        }
    }
}

} // verus!
