//! The kernel's debugging shell: command lines, command tables, argument
//! parsing and the error messages it prints.
//!
//! A command line is matched against a table of [`Command`]s; what a command
//! does is named by a value of the caller's type `A`, which [`eval`] hands
//! back together with the [`Context`] the command runs in.
use vstd::prelude::*;
use vstd::string::StringSliceAdditionalSpecFns;
use vstd::utf8::*;

verus! {

broadcast use vstd::utf8::group_utf8_lib, vstd::string::group_string_axioms;

// === Text helpers ===

/// Unicode's `White_Space` property.
pub open spec fn is_white_space(c: char) -> bool {
    let u = c as u32;
    ||| 0x9 <= u <= 0xD
    ||| u == 0x20
    ||| u == 0x85
    ||| u == 0xA0
    ||| u == 0x1680
    ||| 0x2000 <= u <= 0x200A
    ||| u == 0x2028
    ||| u == 0x2029
    ||| u == 0x202F
    ||| u == 0x205F
    ||| u == 0x3000
}

/// `s` without its leading white space.
pub open spec fn trim_start_chars(s: Seq<char>) -> Seq<char>
    decreases s.len(),
{
    if s.len() > 0 && is_white_space(s[0]) {
        trim_start_chars(s.drop_first())
    } else {
        s
    }
}

/// `s` without its trailing white space.
pub open spec fn trim_end_chars(s: Seq<char>) -> Seq<char>
    decreases s.len(),
{
    if s.len() > 0 && is_white_space(s.last()) {
        trim_end_chars(s.drop_last())
    } else {
        s
    }
}

/// `s` without leading and trailing white space.
pub open spec fn trim_chars(s: Seq<char>) -> Seq<char> {
    trim_end_chars(trim_start_chars(s))
}

/// `str::trim`: the slice without leading and trailing Unicode white space.
#[verifier::external_body]
fn str_trim<'a>(s: &'a str) -> (r: &'a str)
    ensures
        r@ == trim_chars(s@),
{
    s.trim()
}

/// The UTF-8 encoding of two texts one after the other is the two
/// encodings one after the other.
proof fn lemma_encode_concat(a: Seq<char>, b: Seq<char>)
    ensures
        encode_utf8(a + b) == encode_utf8(a) + encode_utf8(b),
    decreases a.len(),
{
    if a.len() == 0 {
        assert(a + b =~= b);
        assert(encode_utf8(a) + encode_utf8(b) =~= encode_utf8(b));
    } else {
        assert((a + b).drop_first() =~= a.drop_first() + b);
        assert((a + b)[0] == a[0]);
        lemma_encode_concat(a.drop_first(), b);
        assert(encode_utf8(a + b) =~= encode_utf8(a) + encode_utf8(b));
    }
}

/// Where the bytes of valid UTF-8 `p` begin valid UTF-8 `b`, they end on a
/// character boundary of `b`.
proof fn lemma_prefix_boundary(b: Seq<u8>, p: Seq<u8>)
    requires
        valid_utf8(b),
        valid_utf8(p),
        p.len() <= b.len(),
        b.subrange(0, p.len() as int) == p,
    ensures
        is_char_boundary(b, p.len() as int),
    decreases p.len(),
{
    if p.len() > 0 {
        assert(b[0] == p[0]);
        assert(b[1] == p[1] || p.len() < 2);
        assert(b[2] == p[2] || p.len() < 3);
        assert(b[3] == p[3] || p.len() < 4);
        let l = length_of_first_scalar(p);
        assert(length_of_first_scalar(b) == l);
        let pb = pop_first_scalar(b);
        let pp = pop_first_scalar(p);
        assert(pb.subrange(0, pp.len() as int) =~= pp) by {
            assert forall|i: int| 0 <= i < pp.len() implies pb[i] == pp[i] by {
                assert(pb[i] == b[l + i]);
                assert(pp[i] == p[l + i]);
                assert(b.subrange(0, p.len() as int)[l + i] == b[l + i]);
            }
        }
        lemma_prefix_boundary(pb, pp);
    }
}

/// Whether the bytes of `s` from `start` on begin with all of `p`.
fn bytes_match_at(s: &[u8], start: usize, p: &[u8]) -> (r: bool)
    requires
        start + p@.len() <= s@.len(),
    ensures
        r == (s@.subrange(start as int, start + p@.len()) == p@),
{
    let mut i: usize = 0;
    while i < p.len()
        invariant
            i <= p@.len(),
            start + p@.len() <= s.len(),
            forall|j: int| 0 <= j < i ==> s@[start + j] == #[trigger] p@[j],
        decreases p@.len() - i,
    {
        if s[start + i] != p[i] {
            assert(s@.subrange(start as int, start + p@.len())[i as int] != p@[i as int]);
            return false;
        }
        i += 1;
    }
    assert(s@.subrange(start as int, start + p@.len()) =~= p@);
    true
}

/// The rest of `s` after `prefix`, if `s` starts with it (as
/// `str::strip_prefix` gives it).
fn str_strip_prefix<'a>(s: &'a str, prefix: &str) -> (r: Option<&'a str>)
    ensures
        r is Some <==> prefix@.is_prefix_of(s@),
        r matches Some(t) ==> t@ == s@.skip(prefix@.len() as int),
{
    let sb = s.as_bytes();
    let pb = prefix.as_bytes();
    proof {
        if prefix@.is_prefix_of(s@) {
            assert(s@ =~= prefix@ + s@.skip(prefix@.len() as int));
            lemma_encode_concat(prefix@, s@.skip(prefix@.len() as int));
            assert(sb@.subrange(0, pb@.len() as int) =~= pb@);
        }
    }
    if pb.len() > sb.len() {
        return None;
    }
    if !bytes_match_at(sb, 0, pb) {
        return None;
    }
    proof {
        lemma_prefix_boundary(sb@, pb@);
    }
    let (_head, tail) = s.split_at(pb.len());
    proof {
        let k = pb@.len() as int;
        decode_utf8_split(sb@, k);
        assert(sb@.subrange(k, sb@.len() as int) =~= tail.spec_bytes());
        assert(s@ == decode_utf8(sb@));
        assert(prefix@ == decode_utf8(pb@));
        assert(tail@ == decode_utf8(tail.spec_bytes()));
        assert(s@ =~= prefix@ + tail@);
        assert(s@.subrange(0, prefix@.len() as int) =~= prefix@);
        assert(s@.skip(prefix@.len() as int) =~= tail@);
    }
    Some(tail)
}

/// `s` before `suffix`, if `s` ends with it (as `str::strip_suffix`
/// gives it).
fn str_strip_suffix<'a>(s: &'a str, suffix: &str) -> (r: Option<&'a str>)
    ensures
        r is Some <==> suffix@.is_suffix_of(s@),
        r matches Some(t) ==> t@ == s@.take(s@.len() - suffix@.len()),
{
    let sb = s.as_bytes();
    let xb = suffix.as_bytes();
    proof {
        if suffix@.is_suffix_of(s@) {
            let front = s@.take(s@.len() - suffix@.len());
            assert(s@ =~= front + suffix@);
            lemma_encode_concat(front, suffix@);
            assert(sb@.subrange(sb@.len() - xb@.len(), sb@.len() as int) =~= xb@);
        }
    }
    if xb.len() > sb.len() {
        return None;
    }
    let k = sb.len() - xb.len();
    if !bytes_match_at(sb, k, xb) {
        return None;
    }
    proof {
        if k < sb@.len() {
            assert(sb@[k as int] == xb@[0]);
            assert(valid_first_scalar(xb@));
            is_char_boundary_iff_not_is_continuation_byte(sb@, k as int);
        } else {
            is_char_boundary_start_end_of_seq(sb@);
        }
    }
    let (head, _tail) = s.split_at(k);
    proof {
        decode_utf8_split(sb@, k as int);
        assert(sb@.subrange(0, k as int) =~= head.spec_bytes());
        assert(s@ == decode_utf8(sb@));
        assert(suffix@ == decode_utf8(xb@));
        assert(head@ == decode_utf8(head.spec_bytes()));
        assert(s@ =~= head@ + suffix@);
        assert(s@.subrange(s@.len() - suffix@.len(), s@.len() as int) =~= suffix@);
        assert(s@.take(s@.len() - suffix@.len()) =~= head@);
    }
    Some(head)
}

/// `str::split_once` on a character: the text before and after its first
/// occurrence.
#[verifier::external_body]
fn str_split_once<'a>(s: &'a str, delim: char) -> (r: Option<(&'a str, &'a str)>)
    ensures
        r is Some <==> s@.contains(delim),
        r matches Some(p) ==> p.0@ == s@.take(s@.index_of_first(delim)->0) && p.1@ == s@.skip(
            s@.index_of_first(delim)->0 + 1,
        ),
{
    s.split_once(delim)
}

/// What `{:?}` prints for a string: its text quoted and escaped.
pub uninterp spec fn debug_str(s: Seq<char>) -> Seq<char>;

/// Whether every character of `s` is printable ASCII other than `"` and
/// `\`: the characters `{:?}` shows as they are.
pub open spec fn plain_text(s: Seq<char>) -> bool {
    forall|i: int| 0 <= i < s.len() ==> {
        let c = #[trigger] s[i];
        ' ' <= c <= '~' && c != '"' && c != '\\'
    }
}

/// What `{:?}` prints for `s`: plain text between double quotes, else as
/// `debug_str` names it.
pub open spec fn quoted(s: Seq<char>) -> Seq<char> {
    if plain_text(s) {
        seq!['"'] + s + seq!['"']
    } else {
        debug_str(s)
    }
}

/// The `Debug` rendering of a string (`format!("{:?}", s)`), named by
/// `debug_str`: the text between double quotes, each character escaped as
/// `char::escape_debug` describes. Of the escaping only this is stated:
/// printable ASCII other than `"` and `\` is shown as it is.
#[verifier::external_body]
fn str_debug(s: &str) -> (r: String)
    ensures
        r@ == debug_str(s@),
        plain_text(s@) ==> r@ == seq!['"'] + s@ + seq!['"'],
{
    format!("{:?}", s)
}

/// Whether two strings hold the same text.
fn str_eq(a: &str, b: &str) -> (r: bool)
    ensures
        r == (a@ == b@),
{
    let x = a.as_bytes();
    let y = b.as_bytes();
    if x.len() != y.len() {
        return false;
    }
    let mut i: usize = 0;
    while i < x.len()
        invariant
            x@ == a.spec_bytes(),
            y@ == b.spec_bytes(),
            x@.len() == y@.len(),
            i <= x@.len(),
            forall|j: int| 0 <= j < i ==> x@[j] == y@[j],
        decreases x@.len() - i,
    {
        if x[i] != y[i] {
            return false;
        }
        i += 1;
    }
    proof {
        assert(a.spec_bytes() =~= b.spec_bytes());
        assert(decode_utf8(encode_utf8(a@)) == a@);
        assert(decode_utf8(encode_utf8(b@)) == b@);
    }
    true
}

// === Numbers ===

/// The value of ASCII digit `b` in base `radix` (10 or 16).
pub open spec fn digit_value(b: u8, radix: u32) -> Option<u32> {
    if 0x30 <= b <= 0x39 {
        Some((b - 0x30) as u32)
    } else if radix == 16 && 0x61 <= b <= 0x66 {
        Some((b - 0x61 + 10) as u32)
    } else if radix == 16 && 0x41 <= b <= 0x46 {
        Some((b - 0x41 + 10) as u32)
    } else {
        None
    }
}

/// Whether every byte of `s` is a digit in base `radix`.
pub open spec fn all_digits(s: Seq<u8>, radix: u32) -> bool {
    forall|i: int| 0 <= i < s.len() ==> #[trigger] digit_value(s[i], radix) is Some
}

/// The number the digits `s` spell in base `radix`.
pub open spec fn digits_number(s: Seq<u8>, radix: u32) -> nat
    decreases s.len(),
{
    if s.len() == 0 {
        0
    } else {
        (digits_number(s.drop_last(), radix) * radix + digit_value(s.last(), radix)->0) as nat
    }
}

/// The digits of `s`: without one leading `+`.
pub open spec fn unsigned_digits(s: Seq<u8>) -> Seq<u8> {
    if s.len() > 0 && s[0] == 0x2b {
        s.drop_first()
    } else {
        s
    }
}

/// How the text with bytes `s` reads as a `u32` in base `radix`: an
/// optional `+`, then at least one digit, and a value that fits.
pub open spec fn parse_u32_bytes(s: Seq<u8>, radix: u32) -> Option<u32> {
    let d = unsigned_digits(s);
    if d.len() > 0 && all_digits(d, radix) && digits_number(d, radix) <= u32::MAX {
        Some(digits_number(d, radix) as u32)
    } else {
        None
    }
}

proof fn lemma_digits_number_bound(s: Seq<u8>, radix: u32, k: int)
    requires
        radix == 10 || radix == 16,
        0 <= k <= s.len(),
        all_digits(s, radix),
    ensures
        digits_number(s.take(k), radix) <= digits_number(s, radix),
    decreases s.len(),
{
    if k < s.len() {
        assert(s.drop_last().take(k) =~= s.take(k));
        assert(all_digits(s.drop_last(), radix)) by {
            assert forall|i: int| 0 <= i < s.drop_last().len() implies #[trigger] digit_value(
                s.drop_last()[i],
                radix,
            ) is Some by {
                assert(digit_value(s[i], radix) is Some);
            }
        }
        lemma_digits_number_bound(s.drop_last(), radix, k);
        let p = digits_number(s.drop_last(), radix);
        assert(p * radix >= p) by (nonlinear_arith)
            requires
                radix >= 1,
                p >= 0,
        ;
    } else {
        assert(s.take(k) =~= s);
    }
}

/// Reads the text of `s` as a `u32` in base `radix`, as `u32::from_str_radix`
/// does.
pub fn parse_u32_radix(s: &str, radix: u32) -> (r: Option<u32>)
    requires
        radix == 10 || radix == 16,
    ensures
        r == parse_u32_bytes(s.spec_bytes(), radix),
{
    let b = s.as_bytes();
    let ghost bs = s.spec_bytes();
    let n = b.len();
    let mut start: usize = 0;
    if n > 0 && b[0] == 0x2b {
        start = 1;
    }
    let ghost d = unsigned_digits(bs);
    proof {
        assert(d =~= bs.skip(start as int));
    }
    if start == n {
        return None;
    }
    let mut value: u64 = 0;
    let mut i: usize = start;
    while i < n
        invariant
            b@ == bs,
            bs == s.spec_bytes(),
            d == unsigned_digits(bs),
            n == bs.len(),
            start <= i <= n,
            d == bs.skip(start as int),
            radix == 10 || radix == 16,
            all_digits(d.take(i - start), radix),
            value == digits_number(d.take(i - start), radix),
            value <= u32::MAX,
        decreases n - i,
    {
        let c = b[i];
        let digit: u64 = if 0x30 <= c && c <= 0x39 {
            (c - 0x30) as u64
        } else if radix == 16 && 0x61 <= c && c <= 0x66 {
            (c - 0x61 + 10) as u64
        } else if radix == 16 && 0x41 <= c && c <= 0x46 {
            (c - 0x41 + 10) as u64
        } else {
            proof {
                assert(d[i - start] == c);
                assert(digit_value(d[i - start], radix) is None);
                assert(!all_digits(d, radix));
            }
            return None;
        };
        let ghost k: int = i - start;
        proof {
            assert(d[k] == c);
            assert(d.take(k + 1).drop_last() =~= d.take(k));
            assert(d.take(k + 1).last() == c);
            assert(all_digits(d.take(k + 1), radix)) by {
                assert forall|j: int| 0 <= j < k + 1 implies #[trigger] digit_value(
                    d.take(k + 1)[j],
                    radix,
                ) is Some by {
                    if j < k {
                        assert(d.take(k + 1)[j] == d.take(k)[j]);
                    }
                }
            }
        }
        assert(value * radix <= 0xFFFF_FFFFu64 * 16) by (nonlinear_arith)
            requires
                value <= 0xFFFF_FFFFu64,
                radix <= 16,
        ;
        let next: u64 = value * (radix as u64) + digit;
        if next > 0xFFFF_FFFF {
            proof {
                if all_digits(d, radix) {
                    lemma_digits_number_bound(d, radix, k + 1);
                }
            }
            return None;
        }
        value = next;
        i += 1;
    }
    proof {
        assert(d.take(n - start) =~= d);
    }
    Some(value as u32)
}

proof fn lemma_trim_start_head(s: Seq<char>)
    ensures
        trim_start_chars(s).len() == 0 || !is_white_space(trim_start_chars(s)[0]),
    decreases s.len(),
{
    if s.len() > 0 && is_white_space(s[0]) {
        lemma_trim_start_head(s.drop_first());
    }
}

proof fn lemma_trim_end_prefix(t: Seq<char>)
    ensures
        trim_end_chars(t).len() <= t.len(),
        trim_end_chars(t) =~= t.take(trim_end_chars(t).len() as int),
        trim_end_chars(t).len() == 0 || !is_white_space(trim_end_chars(t).last()),
    decreases t.len(),
{
    if t.len() > 0 && is_white_space(t.last()) {
        lemma_trim_end_prefix(t.drop_last());
        let k = trim_end_chars(t.drop_last()).len() as int;
        assert(t.drop_last().take(k) =~= t.take(k));
    } else {
        assert(t.take(t.len() as int) =~= t);
    }
}

/// Trimming twice trims no more than trimming once.
pub proof fn lemma_trim_idempotent(s: Seq<char>)
    ensures
        trim_chars(trim_chars(s)) == trim_chars(s),
{
    let t = trim_start_chars(s);
    let r = trim_end_chars(t);
    lemma_trim_start_head(s);
    lemma_trim_end_prefix(t);
    if r.len() > 0 {
        assert(r[0] == t[0]);
    }
    assert(trim_start_chars(r) == r);
    assert(trim_end_chars(r) == r);
}

// === Errors ===

/// An error of the shell, as values: the line it concerns and what went wrong.
pub enum ErrorView {
    UnknownCommand { line: Seq<char>, names: Seq<Seq<char>> },
    InvalidArguments { line: Seq<char>, help: Seq<char>, arg: Seq<char>, flag: Option<Seq<char>> },
    FlagRequired { line: Seq<char>, flags: Seq<Seq<char>> },
    Other { line: Seq<char>, msg: Seq<char> },
}

/// The texts of a sequence of strings.
pub open spec fn texts(v: Seq<String>) -> Seq<Seq<char>> {
    v.map_values(|s: String| s@)
}

/// The texts of a sequence of string slices.
pub open spec fn str_views(v: Seq<&str>) -> Seq<Seq<char>> {
    v.map_values(|s: &str| s@)
}

/// `parts` joined with `sep` between neighbours.
pub open spec fn join(parts: Seq<Seq<char>>, sep: Seq<char>) -> Seq<char>
    decreases parts.len(),
{
    if parts.len() == 0 {
        Seq::empty()
    } else if parts.len() == 1 {
        parts[0]
    } else {
        join(parts.drop_last(), sep) + sep + parts.last()
    }
}

/// The message an error prints.
pub open spec fn error_text(e: ErrorView) -> Seq<char> {
    match e {
        ErrorView::UnknownCommand { line, names } => "unknown command "@ + quoted(line)
            + ", expected one of: ["@ + join(names.push("help"@), ", "@) + "]"@,
        ErrorView::InvalidArguments { line, help, arg, flag } => "invalid argument"@ + match flag {
            Some(f) => " "@ + f,
            None => Seq::empty(),
        } + " "@ + quoted(arg) + ": "@ + help,
        ErrorView::FlagRequired { line, flags } => "the '"@ + line + "' command requires the "@ + join(
            flags,
            "|"@,
        ) + " flag"@,
        ErrorView::Other { line, msg } => "could not execute "@ + quoted(line) + ": "@ + msg,
    }
}

/// An error of a command line.
#[derive(Debug)]
pub struct Error<'a> {
    line: &'a str,
    kind: ErrorKind<'a>,
}

#[derive(Debug)]
enum ErrorKind<'a> {
    UnknownCommand(Vec<&'a str>),
    InvalidArguments { help: &'a str, arg: &'a str, flag: Option<&'a str> },
    FlagRequired { flags: &'a [&'a str] },
    Other(&'a str),
}

impl<'a> View for Error<'a> {
    type V = ErrorView;

    closed spec fn view(&self) -> ErrorView {
        match self.kind {
            ErrorKind::UnknownCommand(names) => ErrorView::UnknownCommand {
                line: self.line@,
                names: str_views(names@),
            },
            ErrorKind::InvalidArguments { help, arg, flag } => ErrorView::InvalidArguments {
                line: self.line@,
                help: help@,
                arg: arg@,
                flag: match flag {
                    Some(f) => Some(f@),
                    None => None,
                },
            },
            ErrorKind::FlagRequired { flags } => ErrorView::FlagRequired {
                line: self.line@,
                flags: str_views(flags@),
            },
            ErrorKind::Other(msg) => ErrorView::Other { line: self.line@, msg: msg@ },
        }
    }
}

/// `values` joined with `sep` between neighbours.
fn join_with(values: &[&str], sep: &str) -> (s: String)
    ensures
        s@ == join(str_views(values@), sep@),
{
    let mut s = String::new();
    let mut i: usize = 0;
    while i < values.len()
        invariant
            i <= values@.len(),
            s@ == join(str_views(values@.take(i as int)), sep@),
        decreases values@.len() - i,
    {
        let ghost parts = str_views(values@.take(i + 1));
        proof {
            assert(parts.drop_last() =~= str_views(values@.take(i as int)));
            assert(parts.last() == values@[i as int]@);
        }
        if i > 0 {
            s.append(sep);
        }
        s.append(values[i]);
        i += 1;
    }
    proof {
        assert(values@.take(values@.len() as int) =~= values@);
    }
    s
}

/// The values separated by `", "`.
pub fn comma_delimited(values: &[&str]) -> (s: String)
    ensures
        s@ == join(str_views(values@), ", "@),
{
    join_with(values, ", ")
}

impl<'a> Error<'a> {
    /// The message this error prints.
    pub fn message(&self) -> (s: String)
        ensures
            s@ == error_text(self@),
    {
        let mut s = String::new();
        match &self.kind {
            ErrorKind::UnknownCommand(names) => {
                s.append("unknown command ");
                let q = str_debug(self.line);
                s.append(q.as_str());
                s.append(", expected one of: [");
                let mut all: Vec<&str> = Vec::new();
                let mut i: usize = 0;
                while i < names.len()
                    invariant
                        i <= names@.len(),
                        all@ == names@.take(i as int),
                    decreases names@.len() - i,
                {
                    all.push(names[i]);
                    proof {
                        assert(all@ =~= names@.take(i + 1));
                    }
                    i += 1;
                }
                all.push("help");
                proof {
                    assert(str_views(all@) =~= str_views(names@).push("help"@));
                }
                let listed = comma_delimited(all.as_slice());
                s.append(listed.as_str());
                s.append("]");
            },
            ErrorKind::InvalidArguments { help, arg, flag } => {
                s.append("invalid argument");
                match flag {
                    Some(f) => {
                        s.append(" ");
                        s.append(f);
                    },
                    None => {},
                }
                s.append(" ");
                let q = str_debug(arg);
                s.append(q.as_str());
                s.append(": ");
                s.append(help);
            },
            ErrorKind::FlagRequired { flags } => {
                s.append("the '");
                s.append(self.line);
                s.append("' command requires the ");
                let listed = join_with(flags, "|");
                s.append(listed.as_str());
                s.append(" flag");
            },
            ErrorKind::Other(msg) => {
                s.append("could not execute ");
                let q = str_debug(self.line);
                s.append(q.as_str());
                s.append(": ");
                s.append(msg);
            },
        }
        s
    }
}

// === Contexts ===

/// A command line and the part of it not yet consumed.
pub struct ContextView {
    pub line: Seq<char>,
    pub current: Seq<char>,
}

/// A command line as a command sees it: the whole line, and what is left
/// of it to parse.
#[derive(Clone, Copy)]
pub struct Context<'cmd> {
    line: &'cmd str,
    current: &'cmd str,
}

impl<'cmd> View for Context<'cmd> {
    type V = ContextView;

    closed spec fn view(&self) -> ContextView {
        ContextView { line: self.line@, current: self.current@ }
    }
}

// === Commands ===

/// A command, as values: its name, help text, usage text and what it runs.
pub struct CommandView<A> {
    pub name: Seq<char>,
    pub help: Seq<char>,
    pub usage: Seq<char>,
    pub run: Option<A>,
}

/// A shell command. What it does is named by a value of type `A`; a command
/// built without one cannot run.
#[derive(Debug)]
pub struct Command<'cmd, A> {
    name: &'cmd str,
    help: &'cmd str,
    usage: &'cmd str,
    run: Option<A>,
}

impl<'cmd, A> View for Command<'cmd, A> {
    type V = CommandView<A>;

    closed spec fn view(&self) -> CommandView<A> {
        CommandView { name: self.name@, help: self.help@, usage: self.usage@, run: self.run }
    }
}

/// The views of a table of commands.
pub open spec fn command_views<A>(cmds: Seq<Command<A>>) -> Seq<CommandView<A>> {
    cmds.map_values(|c: Command<A>| c@)
}

/// The names of a table of commands.
pub open spec fn command_names<A>(cmds: Seq<CommandView<A>>) -> Seq<Seq<char>> {
    cmds.map_values(|c: CommandView<A>| c.name)
}

/// The first index at or after `from` whose entry of `names` starts `text`.
pub open spec fn first_prefix(text: Seq<char>, names: Seq<Seq<char>>, from: int) -> Option<int>
    decreases names.len() - from,
{
    if from < 0 || from >= names.len() {
        None
    } else if names[from].is_prefix_of(text) {
        Some(from)
    } else {
        first_prefix(text, names, from + 1)
    }
}

/// How a command describes itself in the help listing.
pub open spec fn describe_text<A>(c: CommandView<A>) -> Seq<char> {
    c.name + (if c.usage.len() > 0 {
        " "@
    } else {
        Seq::empty()
    }) + c.usage + " --- "@ + c.help
}

/// What the shell answers to a command line, as values.
pub enum Reply<A> {
    /// The lines of the help listing.
    Help(Seq<Seq<char>>),
    /// The usage line of a command asked about with `help`.
    Usage(Seq<char>),
    /// Run the command named by the value, in the context given.
    Invoke(A, ContextView),
    /// The line is refused with this error.
    Failed(ErrorView),
}

/// What a command does with a context.
pub enum Dispatch<'a, A> {
    /// Print this usage line.
    Usage(&'a str),
    /// Run the command named by the value in this context.
    Invoke(A, Context<'a>),
}

/// The reply a dispatch, or an error, stands for.
pub open spec fn dispatch_reply<A>(r: Result<Dispatch<A>, Error>) -> Reply<A> {
    match r {
        Ok(Dispatch::Usage(n)) => Reply::Usage(n@),
        Ok(Dispatch::Invoke(a, c)) => Reply::Invoke(a, c@),
        Err(e) => Reply::Failed(e@),
    }
}

/// The line a command prints when asked for `help`: the command line
/// without its trailing `" help"`.
pub open spec fn usage_line(line: Seq<char>) -> Seq<char> {
    if " help"@.is_suffix_of(line) {
        line.take(line.len() - " help"@.len())
    } else {
        "<???BUG???>"@
    }
}

/// What command `cmd` does in context `ctx`.
pub open spec fn run_reply<A>(cmd: CommandView<A>, ctx: ContextView) -> Reply<A> {
    if trim_chars(ctx.current) == "help"@ {
        Reply::Usage(usage_line(ctx.line))
    } else {
        Reply::Invoke(cmd.run->0, ctx)
    }
}

/// What the table `cmds` does with context `ctx`: the first command whose
/// name starts the trimmed text runs on what follows its name, trimmed; a
/// command that cannot run fails; no match is an unknown command.
pub open spec fn handle_reply<A>(ctx: ContextView, cmds: Seq<CommandView<A>>) -> Reply<A> {
    let chunk = trim_chars(ctx.current);
    match first_prefix(chunk, command_names(cmds), 0) {
        Some(i) => {
            let cmd = cmds[i];
            let sub = ContextView { line: ctx.line, current: trim_chars(chunk.skip(cmd.name.len() as int)) };
            if cmd.run is None && trim_chars(sub.current) != "help"@ {
                Reply::Failed(ErrorView::Other { line: cmd.name, msg: "command failed"@ })
            } else {
                run_reply(cmd, sub)
            }
        },
        None => Reply::Failed(ErrorView::UnknownCommand { line: ctx.line, names: command_names(cmds) }),
    }
}

/// The help listing of a table of commands below `parent`.
pub open spec fn help_lines<A>(parent: Seq<char>, cmds: Seq<CommandView<A>>) -> Seq<Seq<char>> {
    let pad = if parent.len() == 0 {
        Seq::empty()
    } else {
        " "@
    };
    Seq::new(
        cmds.len() + 1,
        |i: int|
            if i < cmds.len() {
                "  "@ + parent + pad + describe_text(cmds[i])
            } else {
                "  "@ + parent + pad + "help --- prints this help message"@
            },
    )
}

/// What the shell answers to `line`.
pub open spec fn eval_reply<A>(line: Seq<char>, cmds: Seq<CommandView<A>>) -> Reply<A> {
    if line == "help"@ {
        Reply::Help(seq!["available commands:"@] + help_lines(Seq::empty(), cmds) + seq![Seq::empty()])
    } else {
        handle_reply(ContextView { line, current: line }, cmds)
    }
}

impl<'cmd, A: Copy> Command<'cmd, A> {
    /// A command named `name`, with no help, no usage and nothing to run.
    pub fn new(name: &'cmd str) -> (c: Self)
        ensures
            c@ == (CommandView::<A> { name: name@, help: ""@, usage: ""@, run: None }),
    {
        Command { name, help: "", usage: "", run: None }
    }

    /// This command with help text `help`.
    pub fn with_help(self, help: &'cmd str) -> (c: Self)
        ensures
            c@ == (CommandView { help: help@, ..self@ }),
    {
        Command { name: self.name, help, usage: self.usage, run: self.run }
    }

    /// This command with usage text `usage`.
    pub fn with_usage(self, usage: &'cmd str) -> (c: Self)
        ensures
            c@ == (CommandView { usage: usage@, ..self@ }),
    {
        Command { name: self.name, help: self.help, usage, run: self.run }
    }

    /// This command running `run`.
    pub fn with_fn(self, run: A) -> (c: Self)
        ensures
            c@ == (CommandView { run: Some(run), ..self@ }),
    {
        Command { name: self.name, help: self.help, usage: self.usage, run: Some(run) }
    }

    /// Runs this command in `ctx`: a command asked for `help` answers with
    /// its usage line, any other is invoked.
    pub fn run<'ctx>(&self, ctx: Context<'ctx>) -> (r: Dispatch<'ctx, A>)
        requires
            trim_chars(ctx@.current) == "help"@ || self@.run is Some,
        ensures
            dispatch_reply::<A>(Ok(r)) == run_reply(self@, ctx@),
    {
        let current = str_trim(ctx.current);
        if str_eq(current, "help") {
            let name = match str_strip_suffix(ctx.line, " help") {
                Some(n) => n,
                None => "<???BUG???>",
            };
            return Dispatch::Usage(name);
        }
        Dispatch::Invoke(self.run.unwrap(), ctx)
    }

    /// How this command describes itself: name, usage and help.
    pub fn describe(&self) -> (s: String)
        ensures
            s@ == describe_text(self@),
    {
        let mut s = String::new();
        s.append(self.name);
        if !self.usage.is_empty() {
            s.append(" ");
        }
        s.append(self.usage);
        s.append(" --- ");
        s.append(self.help);
        s
    }
}

impl<'cmd> Context<'cmd> {
    /// The context of a whole command line.
    pub fn new(line: &'cmd str) -> (c: Self)
        ensures
            c@ == (ContextView { line: line@, current: line@ }),
    {
        Context { line, current: line }
    }

    /// What is left of the line, trimmed.
    pub fn command(&self) -> (r: &'cmd str)
        ensures
            r@ == trim_chars(self@.current),
    {
        str_trim(self.current)
    }

    /// The error for a line that names none of `commands`.
    pub fn unknown_command<A>(&self, commands: &[Command<'cmd, A>]) -> (e: Error<'cmd>)
        ensures
            e@ == (ErrorView::UnknownCommand {
                line: self@.line,
                names: command_names(command_views(commands@)),
            }),
    {
        let mut names: Vec<&'cmd str> = Vec::new();
        let mut i: usize = 0;
        while i < commands.len()
            invariant
                i <= commands@.len(),
                names@.len() == i,
                str_views(names@) == command_names(command_views(commands@.take(i as int))),
            decreases commands@.len() - i,
        {
            let ghost before = names@;
            names.push(commands[i].name);
            proof {
                let want = command_names(command_views(commands@.take(i + 1)));
                assert forall|j: int| 0 <= j <= i implies #[trigger] str_views(names@)[j] == want[j] by {
                    if j < i {
                        assert(str_views(names@)[j] == str_views(before)[j]);
                        assert(command_names(command_views(commands@.take(i as int)))[j]
                            == commands@[j]@.name);
                    }
                }
                assert(str_views(names@) =~= want);
            }
            i += 1;
        }
        proof {
            assert(commands@.take(commands@.len() as int) =~= commands@);
        }
        Error { line: self.line, kind: ErrorKind::UnknownCommand(names) }
    }

    /// The error for an invalid argument, with help text `help`.
    pub fn invalid_argument(&self, help: &'static str) -> (e: Error<'cmd>)
        ensures
            e@ == (ErrorView::InvalidArguments {
                line: self@.line,
                help: help@,
                arg: self@.current,
                flag: None,
            }),
    {
        Error {
            line: self.line,
            kind: ErrorKind::InvalidArguments { arg: self.current, flag: None, help },
        }
    }

    /// The error for an invalid argument of flag `name`, with help text
    /// `help`.
    pub fn invalid_argument_named(&self, name: &'static str, help: &'static str) -> (e: Error<'cmd>)
        ensures
            e@ == (ErrorView::InvalidArguments {
                line: self@.line,
                help: help@,
                arg: self@.current,
                flag: Some(name@),
            }),
    {
        Error {
            line: self.line,
            kind: ErrorKind::InvalidArguments { arg: self.current, flag: Some(name), help },
        }
    }

    /// An error with message `msg`.
    pub fn other_error(&self, msg: &'static str) -> (e: Error<'cmd>)
        ensures
            e@ == (ErrorView::Other { line: self@.line, msg: msg@ }),
    {
        Error { line: self.line, kind: ErrorKind::Other(msg) }
    }
}

/// Matches the context against the table: the first command whose name
/// starts the trimmed text runs on the rest.
pub fn handle_command<'cmd, A: Copy>(ctx: Context<'cmd>, commands: &'cmd [Command<'cmd, A>]) -> (r:
    Result<Dispatch<'cmd, A>, Error<'cmd>>)
    ensures
        dispatch_reply(r) == handle_reply(ctx@, command_views(commands@)),
{
    let chunk = str_trim(ctx.current);
    let ghost names = command_names(command_views(commands@));
    let mut i: usize = 0;
    while i < commands.len()
        invariant
            i <= commands@.len(),
            names == command_names(command_views(commands@)),
            chunk@ == trim_chars(ctx@.current),
            first_prefix(chunk@, names, 0) == first_prefix(chunk@, names, i as int),
        decreases commands@.len() - i,
    {
        let cmd = &commands[i];
        proof {
            assert(names[i as int] == cmd@.name);
        }
        match str_strip_prefix(chunk, cmd.name) {
            Some(rest) => {
                let current = str_trim(rest);
                let sub = Context { line: ctx.line, current };
                proof {
                    lemma_trim_idempotent(rest@);
                    assert(command_views(commands@)[i as int] == cmd@);
                }
                if cmd.run.is_none() && !str_eq(str_trim(current), "help") {
                    return Err(Error { line: cmd.name, kind: ErrorKind::Other("command failed") });
                }
                return Ok(cmd.run(sub));
            },
            None => {},
        }
        i += 1;
    }
    Err(ctx.unknown_command(commands))
}

/// The help listing of `commands` below `parent_cmd`, one line each, then
/// the line for `help` itself.
pub fn print_help<A: Copy>(parent_cmd: &str, commands: &[Command<A>]) -> (lines: Vec<String>)
    ensures
        texts(lines@) == help_lines(parent_cmd@, command_views(commands@)),
{
    let pad = if parent_cmd.is_empty() {
        ""
    } else {
        " "
    };
    let ghost want = help_lines(parent_cmd@, command_views(commands@));
    proof {
        reveal_strlit("");
    }
    let mut lines: Vec<String> = Vec::new();
    let mut i: usize = 0;
    while i < commands.len()
        invariant
            i <= commands@.len(),
            want == help_lines(parent_cmd@, command_views(commands@)),
            pad@ == (if parent_cmd@.len() == 0 {
                Seq::<char>::empty()
            } else {
                " "@
            }),
            lines@.len() == i,
            forall|j: int| 0 <= j < i ==> #[trigger] lines@[j]@ == want[j],
        decreases commands@.len() - i,
    {
        let mut l = String::new();
        l.append("  ");
        l.append(parent_cmd);
        l.append(pad);
        let d = commands[i].describe();
        l.append(d.as_str());
        proof {
            assert(command_views(commands@)[i as int] == commands@[i as int]@);
        }
        lines.push(l);
        i += 1;
    }
    let mut last = String::new();
    last.append("  ");
    last.append(parent_cmd);
    last.append(pad);
    last.append("help --- prints this help message");
    lines.push(last);
    proof {
        assert(texts(lines@) =~= want);
    }
    lines
}

/// What [`eval`] answers to a command line.
pub enum Evaluation<'a, A> {
    /// Print these lines: the help listing.
    Help(Vec<String>),
    /// Print this usage line.
    Usage(&'a str),
    /// Run the command named by the value in this context.
    Invoke(A, Context<'a>),
    /// Print this error.
    Failed(Error<'a>),
}

impl<'a, A> View for Evaluation<'a, A> {
    type V = Reply<A>;

    closed spec fn view(&self) -> Reply<A> {
        match self {
            Evaluation::Help(lines) => Reply::Help(texts(lines@)),
            Evaluation::Usage(n) => Reply::Usage(n@),
            Evaluation::Invoke(a, c) => Reply::Invoke(*a, c@),
            Evaluation::Failed(e) => Reply::Failed(e@),
        }
    }
}

/// Evaluates a command line against the table: `help` lists the commands,
/// anything else goes to the command it names.
pub fn eval<'a, A: Copy>(line: &'a str, commands: &'a [Command<'a, A>]) -> (r: Evaluation<'a, A>)
    ensures
        r@ == eval_reply(line@, command_views(commands@)),
{
    if str_eq(line, "help") {
        let mut lines: Vec<String> = Vec::new();
        lines.push(String::from_str("available commands:"));
        let listing = print_help("", commands);
        let ghost before = lines@;
        let mut i: usize = 0;
        while i < listing.len()
            invariant
                i <= listing@.len(),
                lines@.len() == 1 + i,
                lines@[0]@ == "available commands:"@,
                forall|j: int| 0 <= j < i ==> #[trigger] lines@[1 + j]@ == listing@[j]@,
            decreases listing@.len() - i,
        {
            let l = String::from_str(listing[i].as_str());
            lines.push(l);
            i += 1;
        }
        lines.push(String::new());
        proof {
            let listed = help_lines(Seq::empty(), command_views(commands@));
            let want = seq!["available commands:"@] + listed + seq![Seq::<char>::empty()];
            reveal_strlit("");
            assert(texts(listing@) == listed);
            assert(lines@.len() == want.len());
            assert forall|j: int| 0 <= j < want.len() implies #[trigger] texts(lines@)[j] == want[j] by {
                if 1 <= j < want.len() - 1 {
                    assert(texts(listing@)[j - 1] == listing@[j - 1]@);
                    assert(want[j] == listed[j - 1]);
                    assert(lines@[1 + (j - 1)]@ == listing@[j - 1]@);
                }
            }
            assert(texts(lines@) =~= want);
        }
        return Evaluation::Help(lines);
    }
    match handle_command(Context::new(line), commands) {
        Ok(Dispatch::Usage(n)) => Evaluation::Usage(n),
        Ok(Dispatch::Invoke(a, c)) => Evaluation::Invoke(a, c),
        Err(e) => Evaluation::Failed(e),
    }
}

// === Arguments ===

/// A result whose error is taken by its view.
pub open spec fn result_view<T>(r: Result<T, Error>) -> Result<T, ErrorView> {
    match r {
        Ok(v) => Ok(v),
        Err(e) => Err(e@),
    }
}

/// The first word of `cmd`, trimmed, and the text after the space that
/// ends it; a text with no space is one word.
pub open spec fn split_word(cmd: Seq<char>) -> (Seq<char>, Seq<char>) {
    match cmd.index_of_first(' ') {
        Some(i) => (trim_chars(cmd.take(i)), cmd.skip(i + 1)),
        None => (cmd, Seq::empty()),
    }
}

/// The number a word spells: `0x` and hex digits, or decimal digits.
pub open spec fn number_value(word: Seq<char>) -> Option<u32> {
    if "0x"@.is_prefix_of(word) {
        parse_u32_bytes(encode_utf8(trim_chars(word.skip("0x"@.len() as int))), 16)
    } else {
        parse_u32_bytes(encode_utf8(word), 10)
    }
}

/// What a word that is no number is told.
pub open spec fn number_help(word: Seq<char>) -> Seq<char> {
    if "0x"@.is_prefix_of(word) {
        "expected a 32-bit hex number"@
    } else {
        "expected a 32-bit decimal number"@
    }
}

/// Reading an optional number named `name` from `ctx`: the result and the
/// context after it.
pub open spec fn number_arg(ctx: ContextView, name: Seq<char>) -> (
    Result<Option<u32>, ErrorView>,
    ContextView,
) {
    let word = split_word(trim_chars(ctx.current)).0;
    let rest = split_word(trim_chars(ctx.current)).1;
    if word.len() == 0 {
        (Ok(None), ctx)
    } else {
        match number_value(word) {
            Some(v) => (Ok(Some(v)), ContextView { line: ctx.line, current: rest }),
            None => (
                Err(
                    ErrorView::InvalidArguments {
                        line: ctx.line,
                        help: number_help(word),
                        arg: word,
                        flag: Some(name),
                    },
                ),
                ctx,
            ),
        }
    }
}

/// The value of a flag and the text after it: the word after the flag's
/// name, or, where the rest holds no space, all of the rest.
pub open spec fn flag_word(after: Seq<char>) -> (Seq<char>, Seq<char>) {
    let t = trim_chars(after);
    match t.index_of_first(' ') {
        Some(j) => (trim_chars(t.take(j)), t.skip(j + 1)),
        None => (after, Seq::empty()),
    }
}

/// Types a flag's value can be read as.
pub trait FlagValue: Sized {
    /// The value `text` stands for, if any.
    spec fn value_of(text: Seq<char>) -> Option<Self>;

    /// Reads `text` as a value.
    fn read(text: &str) -> (r: Option<Self>)
        ensures
            r == Self::value_of(text@),
    ;
}

impl FlagValue for u32 {
    open spec fn value_of(text: Seq<char>) -> Option<u32> {
        parse_u32_bytes(encode_utf8(text), 10)
    }

    fn read(text: &str) -> (r: Option<u32>) {
        parse_u32_radix(text, 10)
    }
}

impl FlagValue for bool {
    open spec fn value_of(text: Seq<char>) -> Option<bool> {
        if text == "true"@ {
            Some(true)
        } else if text == "false"@ {
            Some(false)
        } else {
            None
        }
    }

    fn read(text: &str) -> (r: Option<bool>) {
        if str_eq(text, "true") {
            Some(true)
        } else if str_eq(text, "false") {
            Some(false)
        } else {
            None
        }
    }
}

/// Reading an optional flag with one of the names `names` from `ctx`: the
/// result and the context after it.
pub open spec fn flag_arg<T: FlagValue>(ctx: ContextView, names: Seq<Seq<char>>) -> (
    Result<Option<T>, ErrorView>,
    ContextView,
) {
    let cmd = trim_chars(ctx.current);
    match first_prefix(cmd, names, 0) {
        None => (Ok(None), ctx),
        Some(i) => {
            let word = flag_word(cmd.skip(names[i].len() as int)).0;
            let rest = flag_word(cmd.skip(names[i].len() as int)).1;
            if word.len() == 0 {
                (
                    Err(
                        ErrorView::InvalidArguments {
                            line: ctx.line,
                            help: "expected a value"@,
                            arg: word,
                            flag: Some(names[i]),
                        },
                    ),
                    ctx,
                )
            } else {
                match T::value_of(word) {
                    Some(v) => (Ok(Some(v)), ContextView { line: ctx.line, current: rest }),
                    None => (
                        Err(
                            ErrorView::InvalidArguments {
                                line: ctx.line,
                                help: "invalid value"@,
                                arg: word,
                                flag: Some(names[i]),
                            },
                        ),
                        ctx,
                    ),
                }
            }
        },
    }
}

/// Reading a flag that must be there.
pub open spec fn required_flag<T: FlagValue>(ctx: ContextView, names: Seq<Seq<char>>) -> Result<
    T,
    ErrorView,
> {
    match flag_arg::<T>(ctx, names).0 {
        Ok(Some(v)) => Ok(v),
        Ok(None) => Err(ErrorView::FlagRequired { line: ctx.line, flags: names }),
        Err(e) => Err(e),
    }
}

impl<'cmd> Context<'cmd> {
    /// Consumes `flag` if the rest of the line starts with it.
    pub fn parse_bool_flag(&mut self, flag: &str) -> (r: bool)
        ensures
            r == flag@.is_prefix_of(trim_chars(old(self)@.current)),
            final(self)@ == if r {
                ContextView {
                    line: old(self)@.line,
                    current: trim_chars(trim_chars(old(self)@.current).skip(flag@.len() as int)),
                }
            } else {
                old(self)@
            },
    {
        proof {
            lemma_trim_idempotent(self@.current);
        }
        let cmd = str_trim(self.command());
        match str_strip_prefix(cmd, flag) {
            Some(rest) => {
                self.current = str_trim(rest);
                true
            },
            None => false,
        }
    }

    /// Reads an optional number argument, in hex after `0x` or in decimal;
    /// `name` names it in the error.
    pub fn parse_optional_u32_hex_or_dec(&mut self, name: &'static str) -> (r: Result<
        Option<u32>,
        Error<'cmd>,
    >)
        ensures
            result_view(r) == number_arg(old(self)@, name@).0,
            final(self)@ == number_arg(old(self)@, name@).1,
    {
        let cmd = self.command();
        proof {
            cmd@.index_of_first_ensures(' ');
        }
        let (chunk, rest) = match str_split_once(cmd, ' ') {
            Some((chunk, rest)) => (str_trim(chunk), rest),
            None => (cmd, ""),
        };
        proof {
            reveal_strlit("");
            assert(chunk@ == split_word(cmd@).0);
            assert(rest@ == split_word(cmd@).1);
        }
        if chunk.is_empty() {
            return Ok(None);
        }
        let val = match str_strip_prefix(chunk, "0x") {
            Some(hex_num) => match parse_u32_radix(str_trim(hex_num), 16) {
                Some(v) => v,
                None => {
                    return Err(
                        Error {
                            line: self.line,
                            kind: ErrorKind::InvalidArguments {
                                arg: chunk,
                                flag: Some(name),
                                help: "expected a 32-bit hex number",
                            },
                        },
                    );
                },
            },
            None => match parse_u32_radix(chunk, 10) {
                Some(v) => v,
                None => {
                    return Err(
                        Error {
                            line: self.line,
                            kind: ErrorKind::InvalidArguments {
                                arg: chunk,
                                flag: Some(name),
                                help: "expected a 32-bit decimal number",
                            },
                        },
                    );
                },
            },
        };
        self.current = rest;
        Ok(Some(val))
    }

    /// Reads a number argument that must be there.
    pub fn parse_u32_hex_or_dec(&mut self, name: &'static str) -> (r: Result<u32, Error<'cmd>>)
        ensures
            result_view(r) == match number_arg(old(self)@, name@).0 {
                Ok(Some(v)) => Ok(v),
                Ok(None) => Err(
                    ErrorView::InvalidArguments {
                        line: old(self)@.line,
                        help: "expected a number"@,
                        arg: old(self)@.current,
                        flag: Some(name@),
                    },
                ),
                Err(e) => Err(e),
            },
            final(self)@ == number_arg(old(self)@, name@).1,
    {
        match self.parse_optional_u32_hex_or_dec(name) {
            Ok(Some(v)) => Ok(v),
            Ok(None) => Err(self.invalid_argument_named(name, "expected a number")),
            Err(e) => Err(e),
        }
    }

    /// Reads the value of the first of `names` that the rest of the line
    /// starts with, if any.
    pub fn parse_optional_flag<T: FlagValue>(&mut self, names: &'static [&'static str]) -> (r:
        Result<Option<T>, Error<'cmd>>)
        ensures
            result_view(r) == flag_arg::<T>(old(self)@, str_views(names@)).0,
            final(self)@ == flag_arg::<T>(old(self)@, str_views(names@)).1,
    {
        let ghost cmd = trim_chars(self@.current);
        let mut i: usize = 0;
        while i < names.len()
            invariant
                i <= names@.len(),
                cmd == trim_chars(self@.current),
                self@ == old(self)@,
                first_prefix(cmd, str_views(names@), 0) == first_prefix(cmd, str_views(names@), i as int),
            decreases names@.len() - i,
        {
            let name = names[i];
            match str_strip_prefix(self.command(), name) {
                Some(rest) => {
                    let trimmed = str_trim(rest);
                    proof {
                        trimmed@.index_of_first_ensures(' ');
                    }
                    let (chunk, rest) = match str_split_once(trimmed, ' ') {
                        Some((chunk, rest)) => (str_trim(chunk), rest),
                        None => (rest, ""),
                    };
                    proof {
                        reveal_strlit("");
                        assert(str_views(names@)[i as int] == name@);
                        assert(chunk@ == flag_word(cmd.skip(name@.len() as int)).0);
                        assert(rest@ == flag_word(cmd.skip(name@.len() as int)).1);
                    }
                    if chunk.is_empty() {
                        return Err(
                            Error {
                                line: self.line,
                                kind: ErrorKind::InvalidArguments {
                                    arg: chunk,
                                    flag: Some(name),
                                    help: "expected a value",
                                },
                            },
                        );
                    }
                    match T::read(chunk) {
                        Some(val) => {
                            self.current = rest;
                            return Ok(Some(val));
                        },
                        None => {
                            return Err(
                                Error {
                                    line: self.line,
                                    kind: ErrorKind::InvalidArguments {
                                        arg: chunk,
                                        flag: Some(name),
                                        help: "invalid value",
                                    },
                                },
                            );
                        },
                    }
                },
                None => {
                    proof {
                        assert(str_views(names@)[i as int] == name@);
                    }
                },
            }
            i += 1;
        }
        Ok(None)
    }

    /// Reads the value of a flag that must be there.
    pub fn parse_required_flag<T: FlagValue>(&mut self, names: &'static [&'static str]) -> (r:
        Result<T, Error<'cmd>>)
        ensures
            result_view(r) == required_flag::<T>(old(self)@, str_views(names@)),
            final(self)@ == flag_arg::<T>(old(self)@, str_views(names@)).1,
    {
        match self.parse_optional_flag(names) {
            Ok(Some(v)) => Ok(v),
            Ok(None) => Err(Error { line: self.line, kind: ErrorKind::FlagRequired { flags: names } }),
            Err(e) => Err(e),
        }
    }
}

// === The kernel's table ===

/// What the kernel's commands do.
#[derive(Clone, Copy, Debug, PartialEq, Eq, Structural)]
pub enum KernelCommand {
    /// Tell how the embedded game runs.
    Run,
    /// Panic with the rest of the line as the message.
    Panic,
    /// Cause a CPU fault.
    Fault,
    /// Print the version.
    Version,
    /// Shut the machine down.
    Shutdown,
}

/// The kernel's commands, in the order `help` lists them.
pub open spec fn kernel_table() -> Seq<CommandView<KernelCommand>> {
    seq![
        CommandView {
            name: "run"@,
            help: "run the embedded WASM game module"@,
            usage: ""@,
            run: Some(KernelCommand::Run),
        },
        CommandView {
            name: "panic"@,
            help: "cause a kernel panic with the given message. use with caution."@,
            usage: "<MESSAGE>"@,
            run: Some(KernelCommand::Panic),
        },
        CommandView {
            name: "fault"@,
            help: "cause a CPU fault (null pointer dereference). use with caution."@,
            usage: ""@,
            run: Some(KernelCommand::Fault),
        },
        CommandView {
            name: "version"@,
            help: "print verbose build and version info."@,
            usage: ""@,
            run: Some(KernelCommand::Version),
        },
        CommandView {
            name: "shutdown"@,
            help: "exit the kernel and shutdown the machine."@,
            usage: ""@,
            run: Some(KernelCommand::Shutdown),
        },
    ]
}

/// The kernel's command table.
pub fn kernel_commands() -> (cmds: Vec<Command<'static, KernelCommand>>)
    ensures
        command_views(cmds@) == kernel_table(),
{
    let mut cmds: Vec<Command<'static, KernelCommand>> = Vec::new();
    cmds.push(Command::new("run").with_help("run the embedded WASM game module").with_fn(KernelCommand::Run));
    cmds.push(
        Command::new("panic").with_usage("<MESSAGE>").with_help(
            "cause a kernel panic with the given message. use with caution.",
        ).with_fn(KernelCommand::Panic),
    );
    cmds.push(
        Command::new("fault").with_help("cause a CPU fault (null pointer dereference). use with caution.").with_fn(
            KernelCommand::Fault,
        ),
    );
    cmds.push(
        Command::new("version").with_help("print verbose build and version info.").with_fn(KernelCommand::Version),
    );
    cmds.push(
        Command::new("shutdown").with_help("exit the kernel and shutdown the machine.").with_fn(
            KernelCommand::Shutdown,
        ),
    );
    proof {
        assert(command_views(cmds@) =~= kernel_table());
    }
    cmds
}

// === Line editing ===

/// `String::push`: appends `ch`.
#[verifier::external_body]
fn string_push(s: &mut String, ch: char)
    ensures
        final(s)@ == old(s)@.push(ch),
{
    s.push(ch);
}

/// `String::pop`: removes the last character and hands it back; `None` on
/// an empty string.
#[verifier::external_body]
fn string_pop(s: &mut String) -> (r: Option<char>)
    ensures
        old(s)@.len() == 0 ==> r is None && final(s)@ == old(s)@,
        old(s)@.len() > 0 ==> r == Some(old(s)@.last()) && final(s)@ == old(s)@.drop_last(),
{
    s.pop()
}

/// The line being typed at the console.
pub struct LineEditor {
    line: String,
}

impl View for LineEditor {
    type V = Seq<char>;

    closed spec fn view(&self) -> Seq<char> {
        self.line@
    }
}

impl LineEditor {
    /// Nothing typed yet.
    pub fn new() -> (e: Self)
        ensures
            e@ == Seq::<char>::empty(),
    {
        LineEditor { line: String::new() }
    }

    /// Takes one character typed at the console: a newline or carriage
    /// return ends the line and hands it back, DEL takes the last character
    /// away, anything else is added.
    pub fn feed(&mut self, ch: char) -> (done: Option<String>)
        ensures
            ch == '\n' || ch == '\r' ==> (done matches Some(l) && l@ == old(self)@ && final(self)@ == Seq::<
                char,
            >::empty()),
            ch == '\u{7f}' ==> done is None && final(self)@ == if old(self)@.len() > 0 {
                old(self)@.drop_last()
            } else {
                old(self)@
            },
            ch != '\n' && ch != '\r' && ch != '\u{7f}' ==> done is None && final(self)@ == old(self)@.push(ch),
    {
        if ch == '\n' || ch == '\r' {
            let mut done = String::new();
            core::mem::swap(&mut done, &mut self.line);
            Some(done)
        } else if ch == '\u{7f}' {
            let _ = string_pop(&mut self.line);
            None
        } else {
            string_push(&mut self.line, ch);
            None
        }
    }
}

} // verus!
