//! The `.cart` container: an 8-byte header, a table of 12-byte section
//! entries, then the section payloads.
//!
//! Header: `"CART"`, the format version, the number of sections, two zero
//! bytes. Each table entry: the section type, three zero bytes, then the
//! little-endian `u32` offset and length of the payload.
use vstd::prelude::*;
use vstd::utf8::*;
use vstd::string::*;
use vstd::slice::slice_subrange;

verus! {

broadcast use vstd::seq::group_seq_axioms, vstd::string::is_ascii_spec_bytes;

/// Format version written into byte 4 of every cart.
pub const VERSION: u8 = 1;

/// Section type of the `key=value` metadata text.
pub const SECTION_META: u8 = 0x01;

/// Section type of the game's WebAssembly module.
pub const SECTION_WASM: u8 = 0x02;

/// Section type of the 128x128 indexed spritesheet.
pub const SECTION_SPRITESHEET: u8 = 0x03;

/// The four magic bytes `"CART"`.
pub open spec fn magic() -> Seq<u8> {
    seq![0x43u8, 0x41u8, 0x52u8, 0x54u8]
}

/// Why a byte buffer is not a cart.
#[derive(Debug, Clone, Copy, PartialEq, Eq, Structural)]
pub enum CartError {
    BadMagic,
    BadVersion,
    TooShort,
    BadSection,
}

/// The text that describes each error.
pub open spec fn error_text(e: CartError) -> Seq<char> {
    match e {
        CartError::BadMagic => "bad magic"@,
        CartError::BadVersion => "bad version"@,
        CartError::TooShort => "too short"@,
        CartError::BadSection => "bad section"@,
    }
}

impl CartError {
    /// The human-readable description of the error.
    pub fn message(&self) -> (s: &'static str)
        ensures
            s@ == error_text(*self),
    {
        match self {
            CartError::BadMagic => "bad magic",
            CartError::BadVersion => "bad version",
            CartError::TooShort => "too short",
            CartError::BadSection => "bad section",
        }
    }
}

/// Little-endian value of the four bytes at `i`.
pub open spec fn le_u32_at(b: Seq<u8>, i: int) -> int {
    b[i] + b[i + 1] * 256 + b[i + 2] * 65536 + b[i + 3] * 16777216
}

/// The header check of `CartReader::new`: the first failing rule, if any.
pub open spec fn header_error(d: Seq<u8>) -> Option<CartError> {
    if d.len() < 8 {
        Some(CartError::TooShort)
    } else if d.subrange(0, 4) != magic() {
        Some(CartError::BadMagic)
    } else if d[4] != VERSION {
        Some(CartError::BadVersion)
    } else if d.len() < 8 + 12 * d[5] {
        Some(CartError::TooShort)
    } else {
        None
    }
}

/// Byte offset of table entry `i`.
pub open spec fn entry_base(i: int) -> int {
    8 + 12 * i
}

/// The section type in table entry `i`.
pub open spec fn entry_type(d: Seq<u8>, i: int) -> u8 {
    d[entry_base(i)]
}

/// The payload offset in table entry `i`.
pub open spec fn entry_offset(d: Seq<u8>, i: int) -> int {
    le_u32_at(d, entry_base(i) + 4)
}

/// The payload length in table entry `i`.
pub open spec fn entry_length(d: Seq<u8>, i: int) -> int {
    le_u32_at(d, entry_base(i) + 8)
}

/// The payload of the first entry at or after `i` (of `n`) that has type `t`
/// and whose payload lies inside the buffer.
pub open spec fn section_search(d: Seq<u8>, n: int, t: u8, i: int) -> Option<Seq<u8>>
    decreases n - i,
{
    if i >= n {
        None
    } else if entry_type(d, i) == t && entry_offset(d, i) + entry_length(d, i) <= d.len() {
        Some(d.subrange(entry_offset(d, i), entry_offset(d, i) + entry_length(d, i)))
    } else {
        section_search(d, n, t, i + 1)
    }
}

/// The payload of the section of type `t` in cart `d`.
pub open spec fn find_section_spec(d: Seq<u8>, t: u8) -> Option<Seq<u8>> {
    section_search(d, d[5] as int, t, 0)
}

/// The bytes of an optional slice.
pub open spec fn opt_bytes(o: Option<&[u8]>) -> Option<Seq<u8>> {
    match o {
        Some(s) => Some(s@),
        None => None,
    }
}

fn read_le_u32(data: &[u8], i: usize) -> (r: u32)
    requires
        i + 4 <= data@.len(),
    ensures
        r == le_u32_at(data@, i as int),
{
    data[i] as u32 + data[i + 1] as u32 * 256 + data[i + 2] as u32 * 65536 + data[i + 3] as u32
        * 16777216
}

/// A validated cart, borrowed from its bytes.
pub struct CartReader<'a> {
    data: &'a [u8],
    num_sections: u8,
}

impl<'a> CartReader<'a> {
    #[verifier::type_invariant]
    spec fn inv(self) -> bool {
        &&& self.data@.len() >= 8
        &&& self.num_sections == self.data@[5]
        &&& self.data@.len() >= 8 + 12 * self.num_sections
    }

    /// The bytes of the cart.
    pub closed spec fn bytes(self) -> Seq<u8> {
        self.data@
    }

    /// Checks the header and the size of the section table.
    pub fn new(data: &'a [u8]) -> (r: Result<Self, CartError>)
        ensures
            match r {
                Ok(reader) => header_error(data@) is None && reader.bytes() == data@,
                Err(e) => header_error(data@) == Some(e),
            },
    {
        if data.len() < 8 {
            return Err(CartError::TooShort);
        }
        if !(data[0] == 0x43 && data[1] == 0x41 && data[2] == 0x52 && data[3] == 0x54) {
            proof {
                if data@.subrange(0, 4) == magic() {
                    assert(data@[0] == data@.subrange(0, 4)[0]);
                    assert(data@[1] == data@.subrange(0, 4)[1]);
                    assert(data@[2] == data@.subrange(0, 4)[2]);
                    assert(data@[3] == data@.subrange(0, 4)[3]);
                }
            }
            return Err(CartError::BadMagic);
        }
        assert(data@.subrange(0, 4) =~= magic());
        if data[4] != VERSION {
            return Err(CartError::BadVersion);
        }
        let num_sections = data[5];
        let table_end = 8 + num_sections as usize * 12;
        if data.len() < table_end {
            return Err(CartError::TooShort);
        }
        Ok(CartReader { data, num_sections })
    }

    /// The payload of the first usable section of the given type.
    fn find_section(&self, section_type: u8) -> (r: Option<&'a [u8]>)
        ensures
            opt_bytes(r) == find_section_spec(self.bytes(), section_type),
    {
        proof {
            use_type_invariant(self);
        }
        let n = self.num_sections as usize;
        let mut i: usize = 0;
        while i < n
            invariant
                i <= n,
                n == self.data@[5],
                self.data@.len() >= 8 + 12 * n,
                find_section_spec(self.data@, section_type) == section_search(
                    self.data@,
                    n as int,
                    section_type,
                    i as int,
                ),
            decreases n - i,
        {
            let base = 8 + i * 12;
            let st = self.data[base];
            let offset = read_le_u32(self.data, base + 4) as u64;
            let length = read_le_u32(self.data, base + 8) as u64;
            if st == section_type && offset + length <= self.data.len() as u64 {
                let s = slice_subrange(self.data, offset as usize, (offset + length) as usize);
                return Some(s);
            }
            i += 1;
        }
        None
    }

    /// The metadata section.
    pub fn meta(&self) -> (r: Option<CartMeta<'a>>)
        ensures
            match r {
                Some(m) => find_section_spec(self.bytes(), SECTION_META) == Some(m.raw_bytes()),
                None => find_section_spec(self.bytes(), SECTION_META) is None,
            },
    {
        match self.find_section(SECTION_META) {
            Some(raw) => Some(CartMeta { raw }),
            None => None,
        }
    }

    /// The WebAssembly module.
    pub fn wasm(&self) -> (r: Option<&'a [u8]>)
        ensures
            opt_bytes(r) == find_section_spec(self.bytes(), SECTION_WASM),
    {
        self.find_section(SECTION_WASM)
    }

    /// The spritesheet.
    pub fn spritesheet(&self) -> (r: Option<&'a [u8]>)
        ensures
            opt_bytes(r) == find_section_spec(self.bytes(), SECTION_SPRITESHEET),
    {
        self.find_section(SECTION_SPRITESHEET)
    }
}

/// The metadata section of a cart: lines of `key=value`.
pub struct CartMeta<'a> {
    raw: &'a [u8],
}

/// Index of the first newline (byte 10) at or after `i`, or the length of `d`.
pub open spec fn line_end(d: Seq<u8>, i: int) -> int
    decreases d.len() - i,
{
    if i >= d.len() || d[i] == 10 {
        i
    } else {
        line_end(d, i + 1)
    }
}

/// The byte range of the value of the first line, from the line that starts
/// at `i` on, that begins with `key` followed by `=`.
pub open spec fn field_at(d: Seq<u8>, key: Seq<u8>, i: int) -> Option<(int, int)>
    decreases d.len() - i,
{
    let e = line_end(d, i);
    if i + key.len() + 1 <= e && d.subrange(i, i + key.len() + 1) == key.push(61) {
        Some((i + key.len() + 1, e))
    } else if e < d.len() {
        proof {
            lemma_line_end(d, i);
        }
        field_at(d, key, e + 1)
    } else {
        None
    }
}

/// The bytes of the value of `key` in the metadata text `raw`: empty when
/// `raw` is not UTF-8 or no line starts with `key=`.
pub open spec fn meta_field(raw: Seq<u8>, key: Seq<u8>) -> Seq<u8> {
    if !valid_utf8(raw) {
        Seq::empty()
    } else {
        match field_at(raw, key, 0) {
            Some((s, e)) => raw.subrange(s, e),
            None => Seq::empty(),
        }
    }
}

/// The bytes of `name`, `author` and `version`.
pub open spec fn key_name() -> Seq<u8> {
    seq![110u8, 97u8, 109u8, 101u8]
}

/// The bytes of the key `author`.
pub open spec fn key_author() -> Seq<u8> {
    seq![97u8, 117u8, 116u8, 104u8, 111u8, 114u8]
}

/// The bytes of the key `version`.
pub open spec fn key_version() -> Seq<u8> {
    seq![118u8, 101u8, 114u8, 115u8, 105u8, 111u8, 110u8]
}

/// A line ends at a newline or at the end of the text, never before `i`.
pub proof fn lemma_line_end(d: Seq<u8>, i: int)
    ensures
        i <= line_end(d, i),
        i <= d.len() ==> line_end(d, i) <= d.len(),
        line_end(d, i) < d.len() ==> d[line_end(d, i)] == 10,
        forall|j: int| i <= j < line_end(d, i) ==> d[j] != 10,
    decreases d.len() - i,
{
    if i >= d.len() || d[i] == 10 {
    } else {
        lemma_line_end(d, i + 1);
    }
}

/// In valid UTF-8 the position right after an ASCII byte starts a character.
proof fn lemma_boundary_after_ascii(b: Seq<u8>, i: int)
    requires
        valid_utf8(b),
        0 <= i < b.len(),
        b[i] < 0x80,
    ensures
        is_char_boundary(b, i + 1),
{
    broadcast use
        is_char_boundary_iff_not_is_continuation_byte,
        is_char_boundary_start_end_of_seq,
        valid_utf8_split,
        is_char_boundary_iff_is_leading_byte,
    ;

    if i + 1 < b.len() {
        assert(!is_continuation_byte(b[i]));
        assert(is_char_boundary(b, i));
        let r = b.subrange(i, b.len() as int);
        assert(valid_utf8(r));
        assert(valid_first_scalar(r));
        assert(length_of_first_scalar(r) == 1);
        let p = pop_first_scalar(r);
        assert(valid_utf8(p));
        assert(p =~= b.subrange(i + 1, b.len() as int));
        assert(p.len() > 0);
        assert(valid_first_scalar(p));
        assert(p[0] == b[i + 1]);
    }
}

/// `core::str::from_utf8`: succeeds exactly on valid UTF-8, and the `str`
/// it gives back has the input as its bytes.
#[verifier::external_body]
pub(crate) fn str_from_utf8<'b>(bytes: &'b [u8]) -> (r: Option<&'b str>)
    ensures
        r is Some <==> valid_utf8(bytes@),
        r matches Some(s) ==> s.spec_bytes() == bytes@,
{
    core::str::from_utf8(bytes).ok()
}

/// Whether `d[i..i + k.len()]` equals `k`.
fn bytes_at(d: &[u8], i: usize, k: &[u8]) -> (r: bool)
    requires
        i + k@.len() <= d@.len(),
    ensures
        r == (d@.subrange(i as int, i + k@.len()) == k@),
{
    let dl = d.len();
    let mut j: usize = 0;
    while j < k.len()
        invariant
            dl == d@.len(),
            j <= k@.len(),
            i + k@.len() <= d@.len(),
            forall|m: int| 0 <= m < j ==> d@[i + m] == k@[m],
        decreases k@.len() - j,
    {
        if d[i + j] != k[j] {
            assert(d@.subrange(i as int, i + k@.len())[j as int] != k@[j as int]);
            return false;
        }
        j += 1;
    }
    assert(d@.subrange(i as int, i + k@.len()) =~= k@);
    true
}

impl<'a> CartMeta<'a> {
    /// The bytes of the section.
    pub closed spec fn raw_bytes(self) -> Seq<u8> {
        self.raw@
    }

    /// The value of the first line `key=value`; empty when there is none or
    /// the section is not UTF-8.
    fn get_field(&self, key: &str) -> (r: &'a str)
        ensures
            r.spec_bytes() == meta_field(self.raw@, key.spec_bytes()),
    {
        let text = match str_from_utf8(self.raw) {
            Some(t) => t,
            None => {
                proof {
                    reveal_strlit("");
                }
                return "";
            },
        };
        let d = text.as_bytes();
        let k = key.as_bytes();
        let klen = k.len();
        let mut i: usize = 0;
        loop
            invariant
                i <= d@.len(),
                d@ == self.raw@,
                text.spec_bytes() == d@,
                valid_utf8(d@),
                k@ == key.spec_bytes(),
                klen == k@.len(),
                i == 0 || d@[i - 1] == 10,
                field_at(d@, k@, 0) == field_at(d@, k@, i as int),
            decreases d@.len() - i,
        {
            let mut e = i;
            while e < d.len() && d[e] != 10
                invariant
                    i <= e <= d@.len(),
                    line_end(d@, i as int) == line_end(d@, e as int),
                decreases d@.len() - e,
            {
                e += 1;
            }
            proof {
                lemma_line_end(d@, i as int);
            }
            if klen < e - i && bytes_at(d, i, k) && d[i + klen] == 61 {
                let vs = i + klen + 1;
                proof {
                    assert(d@.subrange(i as int, i + klen + 1) =~= k@.push(61));
                    broadcast use
                        is_char_boundary_iff_not_is_continuation_byte,
                        is_char_boundary_start_end_of_seq,
                        valid_utf8_split,
                    ;

                    if e < d@.len() {
                        assert(!is_continuation_byte(d@[e as int]));
                    }
                    assert(is_char_boundary(d@, e as int));
                    let l = d@.subrange(0, e as int);
                    assert(valid_utf8(l));
                    assert(l[vs - 1] == 61);
                    lemma_boundary_after_ascii(l, vs - 1);
                }
                let (left, _) = text.split_at(e);
                let (_, val) = left.split_at(vs);
                proof {
                    assert(val.spec_bytes() =~= d@.subrange(vs as int, e as int));
                }
                return val;
            }
            proof {
                if i + klen + 1 <= e && d@.subrange(i as int, i + klen + 1) == k@.push(61) {
                    assert(d@.subrange(i as int, i + klen) =~= d@.subrange(
                        i as int,
                        i + klen + 1,
                    ).subrange(0, klen as int));
                    assert(k@ =~= k@.push(61).subrange(0, klen as int));
                    assert(d@[i + klen] == d@.subrange(i as int, i + klen + 1)[klen as int]);
                }
            }
            if e == d.len() {
                proof {
                    reveal_strlit("");
                }
                return "";
            }
            i = e + 1;
        }
    }

    /// The `name` field.
    pub fn name(&self) -> (r: &'a str)
        ensures
            r.spec_bytes() == meta_field(self.raw_bytes(), key_name()),
    {
        proof {
            reveal_strlit("name");
            assert(is_ascii("name"));
            assert("name".spec_bytes() =~= key_name());
        }
        self.get_field("name")
    }

    /// The `author` field.
    pub fn author(&self) -> (r: &'a str)
        ensures
            r.spec_bytes() == meta_field(self.raw_bytes(), key_author()),
    {
        proof {
            reveal_strlit("author");
            assert(is_ascii("author"));
            assert("author".spec_bytes() =~= key_author());
        }
        self.get_field("author")
    }

    /// The `version` field.
    pub fn version_str(&self) -> (r: &'a str)
        ensures
            r.spec_bytes() == meta_field(self.raw_bytes(), key_version()),
    {
        proof {
            reveal_strlit("version");
            assert(is_ascii("version"));
            assert("version".spec_bytes() =~= key_version());
        }
        self.get_field("version")
    }
}

/// The four little-endian bytes of `x` modulo 2^32 (`x` is not negative).
pub open spec fn le32_bytes(x: int) -> Seq<u8> {
    seq![
        (x % 256) as u8,
        ((x / 256) % 256) as u8,
        ((x / 65536) % 256) as u8,
        ((x / 16777216) % 256) as u8,
    ]
}

/// A section-table entry.
pub open spec fn entry_bytes(t: u8, off: int, len: int) -> Seq<u8> {
    seq![t, 0u8, 0u8, 0u8] + le32_bytes(off) + le32_bytes(len)
}

/// The metadata text `name=<n>\nauthor=<a>\nversion=<v>\n` as bytes.
pub open spec fn meta_text(n: Seq<u8>, a: Seq<u8>, v: Seq<u8>) -> Seq<u8> {
    key_name().push(61) + n + seq![10u8] + key_author().push(61) + a + seq![10u8]
        + key_version().push(61) + v + seq![10u8]
}

/// Number of sections a cart with the given payloads has.
pub open spec fn section_count(sprites: Option<Seq<u8>>) -> u8 {
    if sprites is Some {
        3
    } else {
        2
    }
}

/// Length of a built cart.
pub open spec fn built_len(meta: Seq<u8>, wasm: Seq<u8>, sprites: Option<Seq<u8>>) -> int {
    8 + 12 * section_count(sprites) + meta.len() + wasm.len() + match sprites {
        Some(s) => s.len() as int,
        None => 0,
    }
}

/// The header and section table of a built cart.
pub open spec fn build_table(meta_len: int, wasm_len: int, sprites: Option<Seq<u8>>) -> Seq<u8> {
    let n = section_count(sprites);
    let mo = 8 + 12 * n;
    let wo = mo + meta_len;
    let so = wo + wasm_len;
    magic() + seq![VERSION, n, 0u8, 0u8] + entry_bytes(SECTION_META, mo, meta_len)
        + entry_bytes(SECTION_WASM, wo, wasm_len) + match sprites {
        Some(s) => entry_bytes(SECTION_SPRITESHEET, so, s.len() as int),
        None => Seq::empty(),
    }
}

/// The spritesheet payload (empty when there is none).
pub open spec fn sprite_payload(sprites: Option<Seq<u8>>) -> Seq<u8> {
    match sprites {
        Some(s) => s,
        None => Seq::empty(),
    }
}

/// The bytes of a cart holding the given metadata, module and spritesheet.
pub open spec fn build_spec(meta: Seq<u8>, wasm: Seq<u8>, sprites: Option<Seq<u8>>) -> Seq<u8> {
    build_table(meta.len() as int, wasm.len() as int, sprites) + meta + wasm + sprite_payload(
        sprites,
    )
}

fn append_bytes(out: &mut Vec<u8>, b: &[u8])
    ensures
        final(out)@ == old(out)@ + b@,
{
    let ghost start = out@;
    let mut i: usize = 0;
    while i < b.len()
        invariant
            i <= b@.len(),
            out@ == start + b@.subrange(0, i as int),
        decreases b@.len() - i,
    {
        out.push(b[i]);
        i += 1;
        assert(out@ =~= start + b@.subrange(0, i as int));
    }
    assert(b@.subrange(0, i as int) =~= b@);
}

fn push_le32(out: &mut Vec<u8>, x: u64)
    ensures
        final(out)@ == old(out)@ + le32_bytes(x as int),
{
    out.push((x % 256) as u8);
    out.push((x / 256 % 256) as u8);
    out.push((x / 65536 % 256) as u8);
    out.push((x / 16777216 % 256) as u8);
    assert(final(out)@ =~= old(out)@ + le32_bytes(x as int));
}

fn push_entry(out: &mut Vec<u8>, t: u8, off: u64, len: u64)
    ensures
        final(out)@ == old(out)@ + entry_bytes(t, off as int, len as int),
{
    out.push(t);
    out.push(0);
    out.push(0);
    out.push(0);
    push_le32(out, off);
    push_le32(out, len);
    assert(final(out)@ =~= old(out)@ + entry_bytes(t, off as int, len as int));
}

/// Assembles a cart from metadata, a module and an optional spritesheet.
pub struct CartWriter {
    meta: Vec<u8>,
    wasm: Vec<u8>,
    spritesheet: Option<Vec<u8>>,
}

impl CartWriter {
    /// The metadata text, as bytes.
    pub closed spec fn meta_bytes(self) -> Seq<u8> {
        self.meta@
    }

    /// The module.
    pub closed spec fn wasm_bytes(self) -> Seq<u8> {
        self.wasm@
    }

    /// The spritesheet, if one was set.
    pub closed spec fn sprite_bytes(self) -> Option<Seq<u8>> {
        match self.spritesheet {
            Some(v) => Some(v@),
            None => None,
        }
    }

    /// An empty writer: no metadata, an empty module, no spritesheet.
    pub fn new() -> (w: Self)
        ensures
            w.meta_bytes() == Seq::<u8>::empty(),
            w.wasm_bytes() == Seq::<u8>::empty(),
            w.sprite_bytes() is None,
    {
        CartWriter { meta: Vec::new(), wasm: Vec::new(), spritesheet: None }
    }

    /// Sets the metadata text to `name=..\nauthor=..\nversion=..\n`.
    pub fn set_meta(&mut self, name: &str, author: &str, version: &str) -> (r: &mut Self)
        ensures
            r.meta_bytes() == meta_text(name.spec_bytes(), author.spec_bytes(), version.spec_bytes()),
            r.wasm_bytes() == old(self).wasm_bytes(),
            r.sprite_bytes() == old(self).sprite_bytes(),
            *final(self) == *final(r),
    {
        let mut m: Vec<u8> = Vec::new();
        let kn: Vec<u8> = vec![110u8, 97, 109, 101, 61];
        let ka: Vec<u8> = vec![10u8, 97, 117, 116, 104, 111, 114, 61];
        let kv: Vec<u8> = vec![10u8, 118, 101, 114, 115, 105, 111, 110, 61];
        let nl: Vec<u8> = vec![10u8];
        append_bytes(&mut m, kn.as_slice());
        append_bytes(&mut m, name.as_bytes());
        append_bytes(&mut m, ka.as_slice());
        append_bytes(&mut m, author.as_bytes());
        append_bytes(&mut m, kv.as_slice());
        append_bytes(&mut m, version.as_bytes());
        append_bytes(&mut m, nl.as_slice());
        assert(m@ =~= meta_text(name.spec_bytes(), author.spec_bytes(), version.spec_bytes()));
        self.meta = m;
        self
    }

    /// Sets the module.
    pub fn set_wasm(&mut self, data: &[u8]) -> (r: &mut Self)
        ensures
            r.meta_bytes() == old(self).meta_bytes(),
            r.wasm_bytes() == data@,
            r.sprite_bytes() == old(self).sprite_bytes(),
            *final(self) == *final(r),
    {
        let mut v: Vec<u8> = Vec::new();
        append_bytes(&mut v, data);
        assert(v@ =~= data@);
        self.wasm = v;
        self
    }

    /// Sets the spritesheet.
    pub fn set_spritesheet(&mut self, data: &[u8]) -> (r: &mut Self)
        ensures
            r.meta_bytes() == old(self).meta_bytes(),
            r.wasm_bytes() == old(self).wasm_bytes(),
            r.sprite_bytes() == Some(data@),
            *final(self) == *final(r),
    {
        let mut v: Vec<u8> = Vec::new();
        append_bytes(&mut v, data);
        assert(v@ =~= data@);
        self.spritesheet = Some(v);
        self
    }

    /// The bytes of the cart: header, section table, then the payloads in
    /// the order metadata, module, spritesheet.
    pub fn build(&self) -> (out: Vec<u8>)
        requires
            built_len(self.meta_bytes(), self.wasm_bytes(), self.sprite_bytes()) <= usize::MAX,
        ensures
            out@ == build_spec(self.meta_bytes(), self.wasm_bytes(), self.sprite_bytes()),
    {
        let n: u8 = if self.spritesheet.is_some() {
            3
        } else {
            2
        };
        let mo: u64 = 8 + 12 * n as u64;
        let wo: u64 = mo + self.meta.len() as u64;
        let so: u64 = wo + self.wasm.len() as u64;
        let mut out: Vec<u8> = Vec::new();
        out.push(0x43);
        out.push(0x41);
        out.push(0x52);
        out.push(0x54);
        out.push(VERSION);
        out.push(n);
        out.push(0);
        out.push(0);
        push_entry(&mut out, SECTION_META, mo, self.meta.len() as u64);
        push_entry(&mut out, SECTION_WASM, wo, self.wasm.len() as u64);
        match &self.spritesheet {
            Some(s) => push_entry(&mut out, SECTION_SPRITESHEET, so, s.len() as u64),
            None => {},
        }
        append_bytes(&mut out, self.meta.as_slice());
        append_bytes(&mut out, self.wasm.as_slice());
        match &self.spritesheet {
            Some(s) => append_bytes(&mut out, s.as_slice()),
            None => {},
        }
        proof {
            let meta = self.meta_bytes();
            let wasm = self.wasm_bytes();
            let sprites = self.sprite_bytes();
            let header = magic() + seq![VERSION, n, 0u8, 0u8];
            let t0 = entry_bytes(SECTION_META, mo as int, meta.len() as int);
            let t1 = entry_bytes(SECTION_WASM, wo as int, wasm.len() as int);
            match sprites {
                Some(sp) => {
                    let t2 = entry_bytes(SECTION_SPRITESHEET, so as int, sp.len() as int);
                    assert(build_table(meta.len() as int, wasm.len() as int, sprites) =~= header
                        + t0 + t1 + t2);
                    assert(out@ =~= header + t0 + t1 + t2 + meta + wasm + sp);
                },
                None => {
                    assert(build_table(meta.len() as int, wasm.len() as int, sprites) =~= header
                        + t0 + t1);
                    assert(out@ =~= header + t0 + t1 + meta + wasm + Seq::empty());
                },
            }
        }
        out
    }
}

proof fn lemma_le32_roundtrip(x: int)
    requires
        0 <= x < 0x1_0000_0000,
    ensures
        le_u32_at(le32_bytes(x), 0) == x,
{
    let b0 = x % 256;
    let b1 = (x / 256) % 256;
    let b2 = (x / 65536) % 256;
    let b3 = (x / 16777216) % 256;
    assert(b0 + b1 * 256 + b2 * 65536 + b3 * 16777216 == x) by (nonlinear_arith)
        requires
            0 <= x < 0x1_0000_0000,
            b0 == x % 256,
            b1 == (x / 256) % 256,
            b2 == (x / 65536) % 256,
            b3 == (x / 16777216) % 256,
    ;
}

/// Where the entry `k` of a cart's table starts, given the bytes before the table.
proof fn lemma_entry_read(d: Seq<u8>, i: int, t: u8, off: int, len: int)
    requires
        0 <= i,
        entry_base(i) + 12 <= d.len(),
        d.subrange(entry_base(i), entry_base(i) + 12) == entry_bytes(t, off, len),
        0 <= off < 0x1_0000_0000,
        0 <= len < 0x1_0000_0000,
    ensures
        entry_type(d, i) == t,
        entry_offset(d, i) == off,
        entry_length(d, i) == len,
{
    let e = entry_bytes(t, off, len);
    let b = entry_base(i);
    assert(d[b] == e[0]);
    lemma_le32_roundtrip(off);
    lemma_le32_roundtrip(len);
    assert(d[b + 4] == e[4] && d[b + 5] == e[5] && d[b + 6] == e[6] && d[b + 7] == e[7]);
    assert(d[b + 8] == e[8] && d[b + 9] == e[9] && d[b + 10] == e[10] && d[b + 11] == e[11]);
    assert(e[4] == le32_bytes(off)[0] && e[5] == le32_bytes(off)[1]);
    assert(e[6] == le32_bytes(off)[2] && e[7] == le32_bytes(off)[3]);
    assert(e[8] == le32_bytes(len)[0] && e[9] == le32_bytes(len)[1]);
    assert(e[10] == le32_bytes(len)[2] && e[11] == le32_bytes(len)[3]);
}

proof fn lemma_mid(a: Seq<u8>, b: Seq<u8>, c: Seq<u8>)
    ensures
        (a + b + c).subrange(a.len() as int, a.len() + b.len() as int) == b,
        (a + b + c).subrange(0, a.len() as int) == a,
{
    assert((a + b + c).subrange(a.len() as int, a.len() + b.len() as int) =~= b);
    assert((a + b + c).subrange(0, a.len() as int) =~= a);
}

/// Entry fields only depend on the bytes of the table.
proof fn lemma_entry_prefix(d: Seq<u8>, p: Seq<u8>, i: int)
    requires
        0 <= i,
        entry_base(i) + 12 <= p.len() <= d.len(),
        d.subrange(0, p.len() as int) == p,
    ensures
        entry_type(d, i) == entry_type(p, i),
        entry_offset(d, i) == entry_offset(p, i),
        entry_length(d, i) == entry_length(p, i),
{
    let b = entry_base(i);
    assert forall|j: int| b <= j < b + 12 implies d[j] == p[j] by {
        assert(d.subrange(0, p.len() as int)[j] == d[j]);
    }
}

/// The header and table of a built cart.
proof fn lemma_table_layout(ml: int, wl: int, sprites: Option<Seq<u8>>)
    requires
        0 <= ml,
        0 <= wl,
        8 + 12 * section_count(sprites) + ml + wl + sprite_payload(sprites).len() < 0x1_0000_0000,
    ensures
        ({
            let t = build_table(ml, wl, sprites);
            let n = section_count(sprites);
            let mo = 8 + 12 * n;
            &&& t.len() == mo
            &&& t.subrange(0, 4) == magic()
            &&& t[4] == VERSION
            &&& t[5] == n
            &&& entry_type(t, 0) == SECTION_META
            &&& entry_offset(t, 0) == mo
            &&& entry_length(t, 0) == ml
            &&& entry_type(t, 1) == SECTION_WASM
            &&& entry_offset(t, 1) == mo + ml
            &&& entry_length(t, 1) == wl
            &&& sprites matches Some(s) ==> {
                &&& entry_type(t, 2) == SECTION_SPRITESHEET
                &&& entry_offset(t, 2) == mo + ml + wl
                &&& entry_length(t, 2) == s.len()
            }
        }),
{
    let t = build_table(ml, wl, sprites);
    let n = section_count(sprites);
    let mo = 8 + 12 * n;
    let header = magic() + seq![VERSION, n, 0u8, 0u8];
    let t0 = entry_bytes(SECTION_META, mo, ml);
    let t1 = entry_bytes(SECTION_WASM, mo + ml, wl);
    assert(t.subrange(0, 4) =~= magic());
    assert(t[4] == VERSION);
    assert(t[5] == n);
    assert(t.subrange(8, 20) =~= t0);
    assert(t.subrange(20, 32) =~= t1);
    lemma_entry_read(t, 0, SECTION_META, mo, ml);
    lemma_entry_read(t, 1, SECTION_WASM, mo + ml, wl);
    if let Some(s) = sprites {
        let t2 = entry_bytes(SECTION_SPRITESHEET, mo + ml + wl, s.len() as int);
        assert(t.subrange(32, 44) =~= t2);
        lemma_entry_read(t, 2, SECTION_SPRITESHEET, mo + ml + wl, s.len() as int);
    }
}

/// The table entries and payload positions of a built cart.
proof fn lemma_built_layout(meta: Seq<u8>, wasm: Seq<u8>, sprites: Option<Seq<u8>>)
    requires
        built_len(meta, wasm, sprites) < 0x1_0000_0000,
    ensures
        ({
            let d = build_spec(meta, wasm, sprites);
            let n = section_count(sprites);
            let mo = 8 + 12 * n;
            let wo = mo + meta.len();
            &&& d.len() == built_len(meta, wasm, sprites)
            &&& d.subrange(0, 4) == magic()
            &&& d[4] == VERSION
            &&& d[5] == n
            &&& entry_type(d, 0) == SECTION_META
            &&& entry_offset(d, 0) == mo
            &&& entry_length(d, 0) == meta.len()
            &&& entry_type(d, 1) == SECTION_WASM
            &&& entry_offset(d, 1) == wo
            &&& entry_length(d, 1) == wasm.len()
            &&& d.subrange(mo, mo + meta.len()) == meta
            &&& d.subrange(wo, wo + wasm.len()) == wasm
            &&& sprites matches Some(s) ==> {
                &&& entry_type(d, 2) == SECTION_SPRITESHEET
                &&& entry_offset(d, 2) == wo + wasm.len()
                &&& entry_length(d, 2) == s.len()
                &&& d.subrange(wo + wasm.len(), wo + wasm.len() + s.len()) == s
            }
        }),
{
    let ml = meta.len() as int;
    let wl = wasm.len() as int;
    let d = build_spec(meta, wasm, sprites);
    let t = build_table(ml, wl, sprites);
    let tail = sprite_payload(sprites);
    lemma_table_layout(ml, wl, sprites);
    assert(d =~= t + meta + (wasm + tail));
    lemma_mid(t, meta, wasm + tail);
    assert(d =~= (t + meta) + wasm + tail);
    lemma_mid(t + meta, wasm, tail);
    assert(d.subrange(0, t.len() as int) == t);
    assert(d.subrange(0, 4) =~= t.subrange(0, 4));
    assert(d[4] == t[4]);
    assert(d[5] == t[5]);
    lemma_entry_prefix(d, t, 0);
    lemma_entry_prefix(d, t, 1);
    if let Some(s) = sprites {
        lemma_entry_prefix(d, t, 2);
        assert(d =~= (t + meta + wasm) + s + Seq::empty());
        lemma_mid(t + meta + wasm, s, Seq::empty());
    }
}

/// Reading a built cart gives back what was put in: the header is accepted,
/// and the metadata, module and spritesheet sections are the bytes that were
/// set, as long as the cart is small enough for its 32-bit offsets.
pub proof fn lemma_build_then_read(meta: Seq<u8>, wasm: Seq<u8>, sprites: Option<Seq<u8>>)
    requires
        built_len(meta, wasm, sprites) < 0x1_0000_0000,
    ensures
        header_error(build_spec(meta, wasm, sprites)) is None,
        build_spec(meta, wasm, sprites).len() == built_len(meta, wasm, sprites),
        find_section_spec(build_spec(meta, wasm, sprites), SECTION_META) == Some(meta),
        find_section_spec(build_spec(meta, wasm, sprites), SECTION_WASM) == Some(wasm),
        find_section_spec(build_spec(meta, wasm, sprites), SECTION_SPRITESHEET) == sprites,
{
    let d = build_spec(meta, wasm, sprites);
    lemma_built_layout(meta, wasm, sprites);
    let n = d[5] as int;
    assert(section_search(d, n, SECTION_META, 0) == Some(meta));
    assert(section_search(d, n, SECTION_WASM, 1) == Some(wasm));
    assert(section_search(d, n, SECTION_WASM, 0) == Some(wasm));
    match sprites {
        Some(s) => {
            assert(section_search(d, 3, SECTION_SPRITESHEET, 3) is None);
            assert(section_search(d, 3, SECTION_SPRITESHEET, 2) == Some(s));
            assert(section_search(d, 3, SECTION_SPRITESHEET, 1) == Some(s));
        },
        None => {
            assert(section_search(d, 2, SECTION_SPRITESHEET, 2) is None);
            assert(section_search(d, 2, SECTION_SPRITESHEET, 1) is None);
        },
    }
}

/// A sequence of ASCII bytes is valid UTF-8.
proof fn lemma_ascii_valid(b: Seq<u8>)
    requires
        forall|i: int| 0 <= i < b.len() ==> b[i] < 0x80,
    ensures
        valid_utf8(b),
    decreases b.len(),
{
    if b.len() > 0 {
        assert(valid_first_scalar(b));
        assert(pop_first_scalar(b) =~= b.drop_first());
        lemma_ascii_valid(b.drop_first());
    }
}

/// `line_end` stops at the first newline.
proof fn lemma_line_end_is(d: Seq<u8>, i: int, e: int)
    requires
        0 <= i <= e <= d.len(),
        forall|j: int| i <= j < e ==> d[j] != 10,
        e == d.len() || d[e] == 10,
    ensures
        line_end(d, i) == e,
    decreases e - i,
{
    if i < e {
        lemma_line_end_is(d, i + 1, e);
    }
}

/// A line `key=val` followed by a newline, at position `i`.
pub open spec fn line_at(d: Seq<u8>, i: int, key: Seq<u8>, val: Seq<u8>) -> bool {
    &&& 0 <= i
    &&& i + key.len() + val.len() + 2 <= d.len()
    &&& d.subrange(i, i + key.len() + val.len() + 2) == key.push(61) + val + seq![10u8]
    &&& !key.contains(10)
    &&& !val.contains(10)
}

proof fn lemma_line_at_end(d: Seq<u8>, i: int, key: Seq<u8>, val: Seq<u8>)
    requires
        line_at(d, i, key, val),
    ensures
        line_end(d, i) == i + key.len() + val.len() + 1,
{
    let l = key.push(61) + val + seq![10u8];
    let e = i + key.len() + val.len() + 1;
    assert forall|j: int| i <= j < e implies d[j] != 10 by {
        assert(d[j] == l[j - i]);
        if j - i < key.len() {
            assert(l[j - i] == key[j - i]);
        } else if j - i > key.len() {
            assert(l[j - i] == val[j - i - key.len() - 1]);
        }
    }
    assert(d[e] == l[e - i]);
    lemma_line_end_is(d, i, e);
}

/// A line `key=val` gives `val` for `key`.
proof fn lemma_field_here(d: Seq<u8>, i: int, key: Seq<u8>, val: Seq<u8>)
    requires
        line_at(d, i, key, val),
    ensures
        field_at(d, key, i) == Some((i + key.len() + 1, i + key.len() + 1 + val.len())),
        d.subrange(i + key.len() + 1, i + key.len() + 1 + val.len()) == val,
{
    lemma_line_at_end(d, i, key, val);
    let l = key.push(61) + val + seq![10u8];
    assert(d.subrange(i, i + key.len() + 1) =~= l.subrange(0, key.len() as int + 1));
    assert(l.subrange(0, key.len() as int + 1) =~= key.push(61));
    assert(d.subrange(i + key.len() + 1, i + key.len() + 1 + val.len()) =~= l.subrange(
        key.len() as int + 1,
        key.len() as int + 1 + val.len(),
    ));
    assert(l.subrange(key.len() as int + 1, key.len() as int + 1 + val.len()) =~= val);
}

/// A line `other=val` is skipped when looking for a key with another first byte.
proof fn lemma_field_skip(d: Seq<u8>, i: int, other: Seq<u8>, val: Seq<u8>, key: Seq<u8>)
    requires
        line_at(d, i, other, val),
        other.len() > 0,
        key.len() > 0,
        other[0] != key[0],
    ensures
        field_at(d, key, i) == field_at(d, key, i + other.len() + val.len() + 2),
{
    lemma_line_at_end(d, i, other, val);
    let l = other.push(61) + val + seq![10u8];
    assert(d[i] == l[0]);
    if i + key.len() + 1 <= line_end(d, i) {
        assert(d.subrange(i, i + key.len() + 1)[0] == d[i]);
        assert(key.push(61)[0] == key[0]);
    }
}

/// The metadata text written by `CartWriter::set_meta` gives back the three
/// values it was made from, when none of them holds a newline.
pub proof fn lemma_meta_fields(n: Seq<u8>, a: Seq<u8>, v: Seq<u8>)
    requires
        valid_utf8(n),
        valid_utf8(a),
        valid_utf8(v),
        !n.contains(10),
        !a.contains(10),
        !v.contains(10),
    ensures
        meta_field(meta_text(n, a, v), key_name()) == n,
        meta_field(meta_text(n, a, v), key_author()) == a,
        meta_field(meta_text(n, a, v), key_version()) == v,
{
    broadcast use valid_utf8_concat;

    let t = meta_text(n, a, v);
    let kn = key_name();
    let ka = key_author();
    let kv = key_version();
    lemma_ascii_valid(kn.push(61));
    lemma_ascii_valid(ka.push(61));
    lemma_ascii_valid(kv.push(61));
    lemma_ascii_valid(seq![10u8]);
    let c1 = kn.push(61) + n;
    let c2 = c1 + seq![10u8];
    let c3 = c2 + ka.push(61);
    let c4 = c3 + a;
    let c5 = c4 + seq![10u8];
    let c6 = c5 + kv.push(61);
    let c7 = c6 + v;
    assert(valid_utf8(c1));
    assert(valid_utf8(c2));
    assert(valid_utf8(c3));
    assert(valid_utf8(c4));
    assert(valid_utf8(c5));
    assert(valid_utf8(c6));
    assert(valid_utf8(c7));
    assert(valid_utf8(c7 + seq![10u8]));
    assert(t =~= c7 + seq![10u8]);
    assert(valid_utf8(t));
    assert(!kn.contains(10)) by {
        assert forall|j: int| 0 <= j < kn.len() implies kn[j] != 10 by {}
    }
    assert(!ka.contains(10)) by {
        assert forall|j: int| 0 <= j < ka.len() implies ka[j] != 10 by {}
    }
    assert(!kv.contains(10)) by {
        assert forall|j: int| 0 <= j < kv.len() implies kv[j] != 10 by {}
    }
    let p1: int = kn.len() as int + n.len() + 2;
    let p2: int = p1 + ka.len() + a.len() + 2;
    assert(t.subrange(0, p1) =~= kn.push(61) + n + seq![10u8]);
    assert(t.subrange(p1, p2) =~= ka.push(61) + a + seq![10u8]);
    assert(t.subrange(p2, t.len() as int) =~= kv.push(61) + v + seq![10u8]);
    assert(line_at(t, 0, kn, n));
    assert(line_at(t, p1, ka, a));
    assert(line_at(t, p2, kv, v));
    lemma_field_here(t, 0, kn, n);
    lemma_field_here(t, p1, ka, a);
    lemma_field_here(t, p2, kv, v);
    lemma_field_skip(t, 0, kn, n, ka);
    lemma_field_skip(t, 0, kn, n, kv);
    lemma_field_skip(t, p1, ka, a, kv);
}

} // verus!
