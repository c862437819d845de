//! Look keys in the Ghostty grammar (`key = value` lines), the colours a
//! theme file gives, and how they overlay the host surface. Reading files,
//! the environment and the fractional keys is the caller's.

use vstd::prelude::*;
use crate::text::{
    chars_of, string_from_chars, is_space, char_is_space, trim, trim_chars, slice_chars, lowered,
    lower_chars, chars_eq, find_char, find_char_in, find_pair_from, find_pair_in, pieces, scan_pieces,
    parse_u64, parse_u64_chars, starts_with,
};
use crate::viewport::LiveGrid;
use crate::chip0::PodCell;

verus! {

/// The colours a theme resolves to, as `0xRRGGBBAA`.
#[derive(Clone, Copy, Debug, PartialEq, Eq)]
pub struct ThemeColors {
    pub background: u32,
    pub foreground: u32,
    pub cursor: u32,
    pub ansi: Option<[u32; 16]>,
    pub split_divider: Option<u32>,
}

// ---------------------------------------------------------------- colours

pub open spec fn is_hex(c: char) -> bool {
    ('0' <= c <= '9') || ('a' <= c <= 'f') || ('A' <= c <= 'F')
}

pub open spec fn hex_digit(c: char) -> nat {
    if '0' <= c <= '9' {
        (c as nat - '0' as nat) as nat
    } else if 'a' <= c <= 'f' {
        (c as nat - 'a' as nat + 10) as nat
    } else {
        (c as nat - 'A' as nat + 10) as nat
    }
}

/// The value of a run of hex digits.
pub open spec fn hex_value(s: Seq<char>) -> nat
    decreases s.len(),
{
    if s.len() == 0 {
        0
    } else {
        hex_value(s.drop_last()) * 16 + hex_digit(s.last())
    }
}

/// `s` without its leading `#`s.
pub open spec fn strip_hashes(s: Seq<char>) -> Seq<char>
    decreases s.len(),
{
    if s.len() > 0 && s[0] == '#' {
        strip_hashes(s.drop_first())
    } else {
        s
    }
}

/// Each char of `s` twice: `abc` becomes `aabbcc`.
pub open spec fn doubled(s: Seq<char>) -> Seq<char> {
    Seq::new(2 * s.len(), |i: int| s[i / 2])
}

/// A colour value: optional `#`s, then 6 hex digits (or 3, each doubled),
/// as `0xRRGGBBff`.
pub open spec fn hex_of(value: Seq<char>) -> Option<u32> {
    let h = strip_hashes(trim(value));
    if !(forall|i: int| 0 <= i < h.len() ==> is_hex(#[trigger] h[i])) {
        None
    } else {
        let d = if h.len() == 3 {
            doubled(h)
        } else {
            h
        };
        if d.len() != 6 {
            None
        } else {
            Some((hex_value(d) * 256 + 255) as u32)
        }
    }
}

pub open spec fn pow16(k: nat) -> nat
    decreases k,
{
    if k == 0 {
        1
    } else {
        16 * pow16((k - 1) as nat)
    }
}

/// Parse a colour value.
pub fn parse_hex(value: &str) -> (r: Option<u32>)
    ensures
        r == hex_of(value@),
{
    let chars = chars_of(value);
    let t = trim_chars(&chars, 0, chars.len());
    assert(chars@.subrange(0, chars@.len() as int) =~= value@);
    let mut s: usize = 0;
    assert(t@.subrange(0, t@.len() as int) =~= t@);
    while s < t.len() && t[s] == '#'
        invariant
            s <= t@.len(),
            strip_hashes(t@) == strip_hashes(t@.subrange(s as int, t@.len() as int)),
        decreases t@.len() - s,
    {
        assert(t@.subrange(s as int, t@.len() as int).drop_first() =~= t@.subrange(s + 1, t@.len() as int));
        s = s + 1;
    }
    let h = slice_chars(&t, s, t.len());
    assert(strip_hashes(h@) == h@);
    assert(h@ == strip_hashes(trim(value@)));
    let mut i: usize = 0;
    while i < h.len()
        invariant
            h@ == strip_hashes(trim(value@)),
            i <= h@.len(),
            forall|j: int| 0 <= j < i ==> is_hex(#[trigger] h@[j]),
        decreases h@.len() - i,
    {
        let c = h[i];
        if !(('0' <= c && c <= '9') || ('a' <= c && c <= 'f') || ('A' <= c && c <= 'F')) {
            assert(!is_hex(h@[i as int]));
            return None;
        }
        i = i + 1;
    }
    let d = if h.len() == 3 {
        let mut d: Vec<char> = Vec::new();
        d.push(h[0]);
        d.push(h[0]);
        d.push(h[1]);
        d.push(h[1]);
        d.push(h[2]);
        d.push(h[2]);
        assert(d@ =~= doubled(h@));
        d
    } else {
        h
    };
    if d.len() != 6 {
        return None;
    }
    proof {
        assert forall|j: int| 0 <= j < d@.len() implies is_hex(#[trigger] d@[j]) by {
            if h@.len() == 3 {
                assert(d@[j] == h@[j / 2]);
            }
        }
    }
    let mut acc: u32 = 0;
    let mut k: usize = 0;
    while k < 6
        invariant
            k <= 6,
            d@.len() == 6,
            forall|j: int| 0 <= j < d@.len() ==> is_hex(#[trigger] d@[j]),
            acc == hex_value(d@.subrange(0, k as int)),
            acc < pow16(k as nat),
            pow16(k as nat) <= 16777216,
        decreases 6 - k,
    {
        let c = d[k];
        let v: u32 = if '0' <= c && c <= '9' {
            (c as u32) - ('0' as u32)
        } else if 'a' <= c && c <= 'f' {
            (c as u32) - ('a' as u32) + 10
        } else {
            (c as u32) - ('A' as u32) + 10
        };
        proof {
            assert(is_hex(d@[k as int]));
            assert(d@.subrange(0, k + 1).drop_last() =~= d@.subrange(0, k as int));
            reveal_with_fuel(pow16, 7);
            assert(pow16((k + 1) as nat) == 16 * pow16(k as nat));
        }
        acc = acc * 16 + v;
        k = k + 1;
    }
    assert(d@.subrange(0, 6) =~= d@);
    Some(acc * 256 + 255)
}

/// A colour with each of the red, green and blue channels lowered by 9,
/// stopping at 0; alpha kept.
pub open spec fn chrome_surface(background: u32) -> u32 {
    let r = background / 0x1000000;
    let g = (background / 0x10000) % 256;
    let b = (background / 0x100) % 256;
    let a = background % 256;
    let dim = |x: u32| if x >= 9 { (x - 9) as u32 } else { 0u32 };
    (dim(r as u32) * 0x1000000 + dim(g as u32) * 0x10000 + dim(b as u32) * 0x100 + a) as u32
}

/// Chrome pane fill: the look background with each colour channel
/// saturating-minus 9.
pub fn chrome_surface_rgba(background: u32) -> (r: u32)
    ensures
        r == chrome_surface(background),
{
    let rr = (background >> 24) & 0xff;
    let gg = (background >> 16) & 0xff;
    let bb = (background >> 8) & 0xff;
    let aa = background & 0xff;
    let r = if rr >= 9 { rr - 9 } else { 0 };
    let g = if gg >= 9 { gg - 9 } else { 0 };
    let b = if bb >= 9 { bb - 9 } else { 0 };
    proof {
        assert(rr == background / 0x1000000 && gg == (background / 0x10000) % 256 && bb == (background / 0x100) % 256
            && aa == background % 256) by (bit_vector)
            requires
                rr == (background >> 24) & 0xff,
                gg == (background >> 16) & 0xff,
                bb == (background >> 8) & 0xff,
                aa == background & 0xff,
        ;
        assert((r << 24) | (g << 16) | (b << 8) | aa == r * 0x1000000 + g * 0x10000 + b * 0x100 + aa) by (bit_vector)
            requires
                r < 256,
                g < 256,
                b < 256,
                aa < 256,
        ;
    }
    (r << 24) | (g << 16) | (b << 8) | aa
}

// ---------------------------------------------------------------- small values

/// `true`, `1`, `yes` and `false`, `0`, `no`, in any ASCII case.
pub open spec fn bool_of(value: Seq<char>) -> Option<bool> {
    let v = lowered(value);
    if v == "true"@ || v == "1"@ || v == "yes"@ {
        Some(true)
    } else if v == "false"@ || v == "0"@ || v == "no"@ {
        Some(false)
    } else {
        None
    }
}

pub fn parse_bool(value: &Vec<char>) -> (r: Option<bool>)
    ensures
        r == bool_of(value@),
{
    let v = lower_chars(value);
    if chars_eq(&v, &chars_of("true")) || chars_eq(&v, &chars_of("1")) || chars_eq(&v, &chars_of("yes")) {
        Some(true)
    } else if chars_eq(&v, &chars_of("false")) || chars_eq(&v, &chars_of("0")) || chars_eq(&v, &chars_of("no")) {
        Some(false)
    } else {
        None
    }
}

/// The first piece of `value` before a comma or white space.
pub open spec fn first_token(value: Seq<char>) -> Seq<char> {
    value.take(first_break(value, 0))
}

pub open spec fn first_break(value: Seq<char>, k: int) -> int
    decreases value.len() - k,
{
    if k < 0 || k >= value.len() {
        value.len() as int
    } else if value[k] == ',' || is_space(value[k]) {
        k
    } else {
        first_break(value, k + 1)
    }
}

proof fn lemma_first_break_range(value: Seq<char>, k: int)
    requires
        0 <= k <= value.len(),
    ensures
        k <= first_break(value, k) <= value.len(),
    decreases value.len() - k,
{
    if k < value.len() && !(value[k] == ',' || is_space(value[k])) {
        lemma_first_break_range(value, k + 1);
    }
}

pub fn first_token_of(value: &Vec<char>) -> (r: Vec<char>)
    ensures
        r@ == first_token(value@),
{
    proof {
        lemma_first_break_range(value@, 0);
    }
    let mut i: usize = 0;
    while i < value.len() && !(value[i] == ',' || char_is_space(value[i]))
        invariant
            i <= value@.len(),
            first_break(value@, 0) == first_break(value@, i as int),
        decreases value@.len() - i,
    {
        i = i + 1;
    }
    slice_chars(value, 0, i)
}

/// `s` starts with `p`, ignoring ASCII case.
pub open spec fn starts_with_ci(s: Seq<char>, p: Seq<char>) -> bool {
    p.len() <= s.len() && lowered(s.take(p.len() as int)) == lowered(p)
}

/// The theme a `theme = ...` value names: the `light:` entry of a
/// comma-separated pair when there is one, the `dark:` entry when it stands
/// alone, else the first entry without a `dark:` prefix, else the value.
pub open spec fn light_theme(value: Seq<char>) -> Seq<char> {
    let parts = theme_parts(value);
    match first_light(parts, 0) {
        Some(i) => trim(parts[i].skip(6)),
        None => if parts.len() == 1 && parts[0].len() > 5 && starts_with_ci(parts[0], "dark:"@) {
            trim(parts[0].skip(5))
        } else {
            match first_not_dark(parts, 0) {
                Some(i) => parts[i],
                None => value,
            }
        },
    }
}

/// The comma-separated entries of a theme value, trimmed.
pub open spec fn theme_parts(value: Seq<char>) -> Seq<Seq<char>> {
    pieces(value, ',').map_values(|p: Seq<char>| trim(p))
}

pub open spec fn light_entry(p: Seq<char>) -> bool {
    p.len() > 6 && starts_with_ci(p, "light:"@)
}

pub open spec fn first_light(parts: Seq<Seq<char>>, k: int) -> Option<int>
    decreases parts.len() - k,
{
    if k < 0 || k >= parts.len() {
        None
    } else if light_entry(parts[k]) {
        Some(k)
    } else {
        first_light(parts, k + 1)
    }
}

pub open spec fn first_not_dark(parts: Seq<Seq<char>>, k: int) -> Option<int>
    decreases parts.len() - k,
{
    if k < 0 || k >= parts.len() {
        None
    } else if parts[k].len() < 5 || !starts_with_ci(parts[k], "dark:"@) {
        Some(k)
    } else {
        first_not_dark(parts, k + 1)
    }
}

// ---------------------------------------------------------------- paths

/// `Path::join` of a relative path: a `/` between them unless the base is
/// empty or already ends with one.
pub open spec fn joined(base: Seq<char>, rel: Seq<char>) -> Seq<char> {
    if base.len() > 0 && base.last() != '/' {
        base.push('/') + rel
    } else {
        base + rel
    }
}

/// Where the user's look file may be: the `RILL_CONFIG` value first, then
/// `.config/rill/config` under the home directory.
pub open spec fn look_candidates(home: Option<Seq<char>>, rill_config: Option<Seq<char>>) -> Seq<Seq<char>> {
    let a: Seq<Seq<char>> = match rill_config {
        Some(p) => seq![p],
        None => Seq::empty(),
    };
    match home {
        Some(h) => a.push(joined(h, ".config/rill/config"@)),
        None => a,
    }
}

pub open spec fn strings_view(v: Seq<String>) -> Seq<Seq<char>> {
    v.map_values(|s: String| s@)
}

pub(crate) fn join_path(base: &str, rel: &str) -> (r: String)
    ensures
        r@ == joined(base@, rel@),
{
    let b = chars_of(base);
    let mut out = chars_of(base);
    if b.len() > 0 && b[b.len() - 1] != '/' {
        out.push('/');
    }
    let rc = chars_of(rel);
    let ghost head = out@;
    let mut i: usize = 0;
    while i < rc.len()
        invariant
            i <= rc@.len(),
            out@ == head + rc@.subrange(0, i as int),
        decreases rc@.len() - i,
    {
        out.push(rc[i]);
        i = i + 1;
    }
    assert(rc@.subrange(0, rc@.len() as int) =~= rc@);
    string_from_chars(out)
}

/// The look file candidates for a home directory and a `RILL_CONFIG` value.
pub fn look_file_candidates_for(home: Option<&str>, rill_config: Option<String>) -> (r: Vec<String>)
    ensures
        strings_view(r@) == look_candidates(
            match home {
                Some(h) => Some(h@),
                None => None,
            },
            match rill_config {
                Some(p) => Some(p@),
                None => None,
            },
        ),
{
    let mut out: Vec<String> = Vec::new();
    if let Some(p) = rill_config {
        out.push(p);
    }
    if let Some(h) = home {
        out.push(join_path(h, ".config/rill/config"));
    }
    proof {
        assert(strings_view(out@) =~= look_candidates(
            match home {
                Some(h) => Some(h@),
                None => None,
            },
            match rill_config {
                Some(p) => Some(p@),
                None => None,
            },
        ));
    }
    out
}


pub open spec fn chars_view(v: Seq<Vec<char>>) -> Seq<Seq<char>> {
    v.map_values(|x: Vec<char>| x@)
}

fn starts_ci(s: &Vec<char>, p: &Vec<char>) -> (r: bool)
    ensures
        r == starts_with_ci(s@, p@),
{
    if p.len() > s.len() {
        return false;
    }
    let head = slice_chars(s, 0, p.len());
    assert(head@ =~= s@.take(p@.len() as int));
    chars_eq(&lower_chars(&head), &lower_chars(p))
}

/// The entries of a theme value, split at commas and trimmed.
fn split_theme_parts(value: &Vec<char>) -> (r: Vec<Vec<char>>)
    ensures
        chars_view(r@) == theme_parts(value@),
{
    let mut parts: Vec<Vec<char>> = Vec::new();
    let mut start: usize = 0;
    let mut i: usize = 0;
    while i < value.len()
        invariant
            start <= i <= value@.len(),
            chars_view(parts@) == scan_pieces(value@, ',', i as nat).0.map_values(|p: Seq<char>| trim(p)),
            value@.subrange(start as int, i as int) == scan_pieces(value@, ',', i as nat).1,
        decreases value@.len() - i,
    {
        let ghost done = scan_pieces(value@, ',', i as nat).0;
        let ghost cur = scan_pieces(value@, ',', i as nat).1;
        if value[i] == ',' {
            let piece = trim_chars(value, start, i);
            let ghost before = parts@;
            parts.push(piece);
            proof {
                assert(chars_view(parts@) =~= chars_view(before).push(trim(cur)));
                assert(done.push(cur).map_values(|p: Seq<char>| trim(p)) =~= done.map_values(|p: Seq<char>| trim(p)).push(trim(cur)));
                assert(value@.subrange((i + 1) as int, (i + 1) as int) =~= Seq::<char>::empty());
            }
            start = i + 1;
        } else {
            proof {
                assert(value@.subrange(start as int, i + 1) =~= cur.push(value@[i as int]));
            }
        }
        i = i + 1;
    }
    let ghost done = scan_pieces(value@, ',', value@.len()).0;
    let ghost cur = scan_pieces(value@, ',', value@.len()).1;
    let piece = trim_chars(value, start, value.len());
    let ghost before = parts@;
    parts.push(piece);
    proof {
        assert(chars_view(parts@) =~= chars_view(before).push(trim(cur)));
        assert(done.push(cur).map_values(|p: Seq<char>| trim(p)) =~= done.map_values(|p: Seq<char>| trim(p)).push(trim(cur)));
    }
    parts
}

fn copy_chars(v: &Vec<char>) -> (r: Vec<char>)
    ensures
        r@ == v@,
{
    slice_chars(v, 0, v.len())
}

/// The theme name a `theme = ...` value selects.
pub fn light_theme_name(value: &Vec<char>) -> (r: Vec<char>)
    ensures
        r@ == light_theme(value@),
{
    let parts = split_theme_parts(value);
    let ghost ps = theme_parts(value@);
    let light = chars_of("light:");
    let dark = chars_of("dark:");
    let mut i: usize = 0;
    while i < parts.len()
        invariant
            ps == theme_parts(value@),
            chars_view(parts@) == ps,
            light@ == "light:"@,
            i <= parts@.len(),
            first_light(ps, 0) == first_light(ps, i as int),
        decreases parts@.len() - i,
    {
        assert(ps[i as int] == parts@[i as int]@);
        if parts[i].len() > 6 && starts_ci(&parts[i], &light) {
            assert(parts@[i as int]@.subrange(6, parts@[i as int]@.len() as int) =~= ps[i as int].skip(6));
            assert(light_entry(ps[i as int]));
            assert(first_light(ps, i as int) == Some(i as int));
            assert(light_theme(value@) == trim(ps[i as int].skip(6)));
            return trim_chars(&parts[i], 6, parts[i].len());
        }
        i = i + 1;
    }
    if parts.len() == 1 && parts[0].len() > 5 && starts_ci(&parts[0], &dark) {
        assert(ps[0] == parts@[0]@);
        assert(parts@[0]@.subrange(5, parts@[0]@.len() as int) =~= ps[0].skip(5));
        return trim_chars(&parts[0], 5, parts[0].len());
    }
    let mut j: usize = 0;
    while j < parts.len()
        invariant
            ps == theme_parts(value@),
            first_light(ps, 0) is None,
            !(ps.len() == 1 && ps[0].len() > 5 && starts_with_ci(ps[0], "dark:"@)),
            chars_view(parts@) == ps,
            dark@ == "dark:"@,
            j <= parts@.len(),
            first_not_dark(ps, 0) == first_not_dark(ps, j as int),
        decreases parts@.len() - j,
    {
        assert(ps[j as int] == parts@[j as int]@);
        if parts[j].len() < 5 || !starts_ci(&parts[j], &dark) {
            assert(first_not_dark(ps, j as int) == Some(j as int));
            assert(light_theme(value@) == ps[j as int]);
            return copy_chars(&parts[j]);
        }
        j = j + 1;
    }
    copy_chars(value)
}

// ---------------------------------------------------------------- look keys

/// What the look keys of a file set, before any theme is read: the plain
/// keys, the colours written out, the palette slots written out, whether a
/// key took effect, and the raw text of the fractional keys in file order.
pub struct LookScan {
    pub font_family: Option<Seq<char>>,
    pub font_fallbacks: Seq<Seq<char>>,
    pub background: Option<u32>,
    pub foreground: Option<u32>,
    pub cursor: Option<u32>,
    pub split_divider: Option<u32>,
    pub theme_name: Option<Seq<char>>,
    pub macos_option_as_alt: Option<bool>,
    pub ansi: Seq<u32>,
    pub ansi_set: Seq<bool>,
    pub saw: bool,
    pub font_sizes: Seq<Seq<char>>,
    pub padding_x: Seq<Seq<char>>,
    pub padding_y: Seq<Seq<char>>,
    pub opacities: Seq<Seq<char>>,
}

/// The look keys of one file, as scanned.
pub struct LookKeys {
    pub font_family: Option<String>,
    pub font_fallbacks: Vec<String>,
    pub background: Option<u32>,
    pub foreground: Option<u32>,
    pub cursor: Option<u32>,
    pub split_divider: Option<u32>,
    pub theme_name: Option<String>,
    pub macos_option_as_alt: Option<bool>,
    pub ansi: Vec<u32>,
    pub ansi_set: Vec<bool>,
    /// Whether a key other than the fractional ones took effect.
    pub saw: bool,
    /// `font-size` values, in file order.
    pub font_sizes: Vec<String>,
    /// The first token of each `window-padding-x` value.
    pub padding_x: Vec<String>,
    /// The first token of each `window-padding-y` value.
    pub padding_y: Vec<String>,
    /// `background-opacity` values, in file order.
    pub opacities: Vec<String>,
}

pub open spec fn opt_chars(o: Option<String>) -> Option<Seq<char>> {
    match o {
        Some(s) => Some(s@),
        None => None,
    }
}

impl LookKeys {
    pub open spec fn view(&self) -> LookScan {
        LookScan {
            font_family: opt_chars(self.font_family),
            font_fallbacks: strings_view(self.font_fallbacks@),
            background: self.background,
            foreground: self.foreground,
            cursor: self.cursor,
            split_divider: self.split_divider,
            theme_name: opt_chars(self.theme_name),
            macos_option_as_alt: self.macos_option_as_alt,
            ansi: self.ansi@,
            ansi_set: self.ansi_set@,
            saw: self.saw,
            font_sizes: strings_view(self.font_sizes@),
            padding_x: strings_view(self.padding_x@),
            padding_y: strings_view(self.padding_y@),
            opacities: strings_view(self.opacities@),
        }
    }
}

/// The scan before any line.
pub open spec fn empty_scan() -> LookScan {
    LookScan {
        font_family: None,
        font_fallbacks: Seq::empty(),
        background: None,
        foreground: None,
        cursor: None,
        split_divider: None,
        theme_name: None,
        macos_option_as_alt: None,
        ansi: Seq::new(16, |_i: int| 0u32),
        ansi_set: Seq::new(16, |_i: int| false),
        saw: false,
        font_sizes: Seq::empty(),
        padding_x: Seq::empty(),
        padding_y: Seq::empty(),
        opacities: Seq::empty(),
    }
}

/// Palette slot `i` set to `h`, when `i` is a slot.
pub open spec fn with_slot(st: LookScan, i: Option<u64>, h: Option<u32>) -> LookScan {
    match (i, h) {
        (Some(i), Some(h)) => if i <= 15 {
            LookScan {
                ansi: st.ansi.update(i as int, h),
                ansi_set: st.ansi_set.update(i as int, true),
                saw: true,
                ..st
            }
        } else {
            st
        },
        _ => st,
    }
}

/// A colour key: set when the value parses.
pub open spec fn colour(st: LookScan, h: Option<u32>, set: spec_fn(LookScan, u32) -> LookScan) -> LookScan {
    match h {
        Some(v) => set(st, v),
        None => st,
    }
}

/// One `key = value` entry.
pub open spec fn key_step(st: LookScan, key: Seq<char>, value: Seq<char>) -> LookScan {
    if key == "font-family"@ && value.len() > 0 {
        LookScan { font_family: Some(value), saw: true, ..st }
    } else if key == "font-size"@ {
        LookScan { font_sizes: st.font_sizes.push(value), ..st }
    } else if key == "font-family-fallback"@ && value.len() > 0 {
        LookScan { font_fallbacks: st.font_fallbacks.push(value), saw: true, ..st }
    } else if key == "background"@ {
        match hex_of(value) {
            Some(h) => LookScan { background: Some(h), saw: true, ..st },
            None => st,
        }
    } else if key == "foreground"@ {
        match hex_of(value) {
            Some(h) => LookScan { foreground: Some(h), saw: true, ..st },
            None => st,
        }
    } else if key == "cursor"@ || key == "cursor-color"@ {
        match hex_of(value) {
            Some(h) => LookScan { cursor: Some(h), saw: true, ..st },
            None => st,
        }
    } else if key == "window-padding-x"@ {
        LookScan { padding_x: st.padding_x.push(first_token(value)), ..st }
    } else if key == "window-padding-y"@ {
        LookScan { padding_y: st.padding_y.push(first_token(value)), ..st }
    } else if key == "background-opacity"@ {
        LookScan { opacities: st.opacities.push(value), ..st }
    } else if key == "split-divider-color"@ {
        match hex_of(value) {
            Some(h) => LookScan { split_divider: Some(h), saw: true, ..st },
            None => st,
        }
    } else if key == "theme"@ {
        LookScan { theme_name: Some(light_theme(value)), saw: true, ..st }
    } else if key == "macos-option-as-alt"@ {
        LookScan { macos_option_as_alt: bool_of(value), saw: st.saw || bool_of(value) is Some, ..st }
    } else if key == "palette"@ {
        match find_char(value, '=') {
            Some(e) => with_slot(st, parse_u64(trim(value.take(e))), hex_of(trim(value.skip(e + 1)))),
            None => st,
        }
    } else if starts_with(key, "palette."@) {
        with_slot(st, parse_u64(key.skip("palette."@.len() as int)), hex_of(value))
    } else {
        st
    }
}

/// `v` without one pair of surrounding double quotes.
pub open spec fn unquoted(v: Seq<char>) -> Seq<char> {
    if v.len() >= 2 && v[0] == '"' && v.last() == '"' {
        v.subrange(1, v.len() - 1)
    } else {
        v
    }
}

/// One line of a look file: blank lines and `#` comments are skipped; a
/// ` #` tail is dropped unless it reads as a colour; then `key = value`,
/// the key trimmed and lower-cased, the value trimmed and unquoted.
pub open spec fn look_line(st: LookScan, raw: Seq<char>) -> LookScan {
    let line0 = trim(raw);
    if line0.len() == 0 || line0[0] == '#' {
        st
    } else {
        let line = match find_pair_from(line0, ' ', '#', 0) {
            Some(idx) => {
                let rest = trim(line0.skip(idx + 2));
                if hex_of(rest) is None && hex_of(seq!['#'] + rest) is None {
                    trim(line0.take(idx))
                } else {
                    line0
                }
            },
            None => line0,
        };
        match find_char(line, '=') {
            None => st,
            Some(eq) => key_step(st, lowered(trim(line.take(eq))), unquoted(trim(line.skip(eq + 1)))),
        }
    }
}

pub open spec fn look_fold(lines: Seq<Seq<char>>) -> LookScan
    decreases lines.len(),
{
    if lines.len() == 0 {
        empty_scan()
    } else {
        look_line(look_fold(lines.drop_last()), lines.last())
    }
}

/// The look keys of a whole file, its lines read in order.
pub open spec fn look_scan(text: Seq<char>) -> LookScan {
    look_fold(pieces(text, '\n'))
}

fn key_is(key: &Vec<char>, lit: &str) -> (r: bool)
    ensures
        r == (key@ == lit@),
{
    chars_eq(key, &chars_of(lit))
}

/// Set palette slot `i` to `h` when both parsed and `i` is a slot.
fn set_slot(st: &mut LookKeys, i: Option<u64>, h: Option<u32>)
    requires
        old(st).ansi@.len() == 16,
        old(st).ansi_set@.len() == 16,
    ensures
        final(st).view() == with_slot(old(st).view(), i, h),
        final(st).ansi@.len() == 16,
        final(st).ansi_set@.len() == 16,
{
    match (i, h) {
        (Some(i), Some(h)) => {
            if i <= 15 {
                st.ansi.set(i as usize, h);
                st.ansi_set.set(i as usize, true);
                st.saw = true;
            }
        },
        _ => {},
    }
}

/// Apply one `key = value` entry.
fn apply_key(st: &mut LookKeys, key: &Vec<char>, value: Vec<char>)
    requires
        old(st).ansi@.len() == 16,
        old(st).ansi_set@.len() == 16,
    ensures
        final(st).view() == key_step(old(st).view(), key@, value@),
        final(st).ansi@.len() == 16,
        final(st).ansi_set@.len() == 16,
{
    let ghost v0 = st.view();
    if key_is(key, "font-family") && value.len() > 0 {
        st.font_family = Some(string_from_chars(value));
        st.saw = true;
    } else if key_is(key, "font-size") {
        st.font_sizes.push(string_from_chars(value));
        proof {
            assert(strings_view(st.font_sizes@) =~= v0.font_sizes.push(value@));
        }
    } else if key_is(key, "font-family-fallback") && value.len() > 0 {
        st.font_fallbacks.push(string_from_chars(value));
        st.saw = true;
        proof {
            assert(strings_view(st.font_fallbacks@) =~= v0.font_fallbacks.push(value@));
        }
    } else if key_is(key, "background") {
        if let Some(h) = parse_hex(string_from_chars(value).as_str()) {
            st.background = Some(h);
            st.saw = true;
        }
    } else if key_is(key, "foreground") {
        if let Some(h) = parse_hex(string_from_chars(value).as_str()) {
            st.foreground = Some(h);
            st.saw = true;
        }
    } else if key_is(key, "cursor") || key_is(key, "cursor-color") {
        if let Some(h) = parse_hex(string_from_chars(value).as_str()) {
            st.cursor = Some(h);
            st.saw = true;
        }
    } else if key_is(key, "window-padding-x") {
        st.padding_x.push(string_from_chars(first_token_of(&value)));
        proof {
            assert(strings_view(st.padding_x@) =~= v0.padding_x.push(first_token(value@)));
        }
    } else if key_is(key, "window-padding-y") {
        st.padding_y.push(string_from_chars(first_token_of(&value)));
        proof {
            assert(strings_view(st.padding_y@) =~= v0.padding_y.push(first_token(value@)));
        }
    } else if key_is(key, "background-opacity") {
        st.opacities.push(string_from_chars(value));
        proof {
            assert(strings_view(st.opacities@) =~= v0.opacities.push(value@));
        }
    } else if key_is(key, "split-divider-color") {
        if let Some(h) = parse_hex(string_from_chars(value).as_str()) {
            st.split_divider = Some(h);
            st.saw = true;
        }
    } else if key_is(key, "theme") {
        st.theme_name = Some(string_from_chars(light_theme_name(&value)));
        st.saw = true;
    } else if key_is(key, "macos-option-as-alt") {
        let b = parse_bool(&value);
        st.macos_option_as_alt = b;
        if b.is_some() {
            st.saw = true;
        }
    } else if key_is(key, "palette") {
        match find_char_in(&value, '=') {
            Some(e) => {
                let idx_text = trim_chars(&value, 0, e);
                let hex_text = trim_chars(&value, e + 1, value.len());
                proof {
                    assert(value@.subrange(0, e as int) =~= value@.take(e as int));
                    assert(value@.subrange(e + 1, value@.len() as int) =~= value@.skip(e + 1));
                    assert(idx_text@.subrange(0, idx_text@.len() as int) =~= idx_text@);
                }
                let i = parse_u64_chars(&idx_text, 0);
                let h = parse_hex(string_from_chars(hex_text).as_str());
                set_slot(st, i, h);
            },
            None => {},
        }
    } else {
        let prefix = chars_of("palette.");
        if key.len() >= prefix.len() && chars_eq(&slice_chars(key, 0, prefix.len()), &prefix) {
            proof {
                assert(key@.subrange(0, prefix@.len() as int) == key@.subrange(0, "palette."@.len() as int));
            }
            let i = parse_u64_chars(key, prefix.len());
            proof {
                assert(key@.subrange(prefix@.len() as int, key@.len() as int) =~= key@.skip("palette."@.len() as int));
            }
            let h = parse_hex(string_from_chars(value).as_str());
            set_slot(st, i, h);
        } else {
            proof {
                if starts_with(key@, "palette."@) {
                    assert(key@.subrange(0, prefix@.len() as int) == prefix@);
                }
            }
        }
    }
}

/// Apply one line of a look file.
fn apply_line(st: &mut LookKeys, raw: &Vec<char>)
    requires
        old(st).ansi@.len() == 16,
        old(st).ansi_set@.len() == 16,
    ensures
        final(st).view() == look_line(old(st).view(), raw@),
        final(st).ansi@.len() == 16,
        final(st).ansi_set@.len() == 16,
{
    let line0 = trim_chars(raw, 0, raw.len());
    assert(raw@.subrange(0, raw@.len() as int) =~= raw@);
    if line0.len() == 0 || line0[0] == '#' {
        return;
    }
    let line = match find_pair_in(&line0, ' ', '#') {
        Some(idx) => {
            let rest = trim_chars(&line0, idx + 2, line0.len());
            let mut hashed: Vec<char> = Vec::new();
            hashed.push('#');
            let mut k: usize = 0;
            while k < rest.len()
                invariant
                    k <= rest@.len(),
                    hashed@ == seq!['#'] + rest@.subrange(0, k as int),
                decreases rest@.len() - k,
            {
                hashed.push(rest[k]);
                k = k + 1;
            }
            proof {
                assert(rest@.subrange(0, rest@.len() as int) =~= rest@);
                assert(line0@.subrange(idx + 2, line0@.len() as int) =~= line0@.skip(idx + 2));
                assert(line0@.subrange(0, idx as int) =~= line0@.take(idx as int));
            }
            if parse_hex(string_from_chars(copy_chars(&rest)).as_str()).is_none() && parse_hex(
                string_from_chars(hashed).as_str(),
            ).is_none() {
                trim_chars(&line0, 0, idx)
            } else {
                line0
            }
        },
        None => line0,
    };
    match find_char_in(&line, '=') {
        None => {},
        Some(eq) => {
            let n = line.len();
            let key = lower_chars(&trim_chars(&line, 0, eq));
            let v = trim_chars(&line, eq + 1, n);
            proof {
                assert(line@.subrange(0, eq as int) =~= line@.take(eq as int));
                assert(line@.subrange(eq + 1, line@.len() as int) =~= line@.skip(eq + 1));
            }
            let value = if v.len() >= 2 && v[0] == '"' && v[v.len() - 1] == '"' {
                slice_chars(&v, 1, v.len() - 1)
            } else {
                v
            };
            apply_key(st, &key, value);
        },
    }
}

/// Scan the look keys of a file.
pub fn scan_look_keys(text: &str) -> (r: LookKeys)
    ensures
        r.view() == look_scan(text@),
        r.ansi@.len() == 16,
        r.ansi_set@.len() == 16,
{
    let mut ansi: Vec<u32> = Vec::new();
    let mut ansi_set: Vec<bool> = Vec::new();
    let mut k: usize = 0;
    while k < 16
        invariant
            k <= 16,
            ansi@ == Seq::new(k as nat, |_i: int| 0u32),
            ansi_set@ == Seq::new(k as nat, |_i: int| false),
        decreases 16 - k,
    {
        ansi.push(0);
        ansi_set.push(false);
        k = k + 1;
        assert(ansi@ =~= Seq::new(k as nat, |_i: int| 0u32));
        assert(ansi_set@ =~= Seq::new(k as nat, |_i: int| false));
    }
    let mut st = LookKeys {
        font_family: None,
        font_fallbacks: Vec::new(),
        background: None,
        foreground: None,
        cursor: None,
        split_divider: None,
        theme_name: None,
        macos_option_as_alt: None,
        ansi,
        ansi_set,
        saw: false,
        font_sizes: Vec::new(),
        padding_x: Vec::new(),
        padding_y: Vec::new(),
        opacities: Vec::new(),
    };
    proof {
        assert(strings_view(st.font_fallbacks@) =~= Seq::<Seq<char>>::empty());
        assert(strings_view(st.font_sizes@) =~= Seq::<Seq<char>>::empty());
        assert(strings_view(st.padding_x@) =~= Seq::<Seq<char>>::empty());
        assert(strings_view(st.padding_y@) =~= Seq::<Seq<char>>::empty());
        assert(strings_view(st.opacities@) =~= Seq::<Seq<char>>::empty());
        assert(st.view() == empty_scan());
    }
    let chars = chars_of(text);
    let mut cur: Vec<char> = Vec::new();
    let mut i: usize = 0;
    while i < chars.len()
        invariant
            chars@ == text@,
            i <= chars@.len(),
            st.ansi@.len() == 16,
            st.ansi_set@.len() == 16,
            st.view() == look_fold(scan_pieces(text@, '\n', i as nat).0),
            cur@ == scan_pieces(text@, '\n', i as nat).1,
        decreases chars@.len() - i,
    {
        let c = chars[i];
        if c == '\n' {
            let ghost done = scan_pieces(text@, '\n', i as nat).0;
            apply_line(&mut st, &cur);
            proof {
                assert(done.push(cur@).drop_last() =~= done);
            }
            cur = Vec::new();
        } else {
            cur.push(c);
        }
        i = i + 1;
    }
    let ghost done = scan_pieces(text@, '\n', i as nat).0;
    apply_line(&mut st, &cur);
    proof {
        assert(done.push(cur@).drop_last() =~= done);
    }
    st
}


// ---------------------------------------------------------------- resolving

/// The look a file gives once its theme is read: everything but the
/// fractional keys.
#[derive(Clone, Debug, PartialEq, Eq)]
pub struct LookCore {
    pub font_family: Option<String>,
    pub font_fallbacks: Vec<String>,
    pub background: Option<u32>,
    pub foreground: Option<u32>,
    pub cursor: Option<u32>,
    pub ansi: Option<[u32; 16]>,
    pub split_divider: Option<u32>,
    pub theme_name: Option<String>,
    pub macos_option_as_alt: Option<bool>,
}

/// A resolved look as a value.
pub struct LookView {
    pub font_family: Option<Seq<char>>,
    pub font_fallbacks: Seq<Seq<char>>,
    pub background: Option<u32>,
    pub foreground: Option<u32>,
    pub cursor: Option<u32>,
    pub ansi: Option<Seq<u32>>,
    pub split_divider: Option<u32>,
    pub theme_name: Option<Seq<char>>,
    pub macos_option_as_alt: Option<bool>,
}

pub open spec fn opt_ansi(a: Option<[u32; 16]>) -> Option<Seq<u32>> {
    match a {
        Some(x) => Some(x@),
        None => None,
    }
}

impl LookCore {
    pub open spec fn view(&self) -> LookView {
        LookView {
            font_family: opt_chars(self.font_family),
            font_fallbacks: strings_view(self.font_fallbacks@),
            background: self.background,
            foreground: self.foreground,
            cursor: self.cursor,
            ansi: opt_ansi(self.ansi),
            split_divider: self.split_divider,
            theme_name: opt_chars(self.theme_name),
            macos_option_as_alt: self.macos_option_as_alt,
        }
    }
}

/// `o`, or else `d`.
pub open spec fn or_else<T>(o: Option<T>, d: Option<T>) -> Option<T> {
    match o {
        Some(v) => Some(v),
        None => d,
    }
}

/// The palette: the theme's slots with the ones the file wrote replaced;
/// with no theme palette, the file's slots only when it wrote all 16.
pub open spec fn merged_ansi(scan: LookScan, base: Option<Seq<u32>>) -> Option<Seq<u32>> {
    if exists|i: int| 0 <= i < 16 && scan.ansi_set[i] {
        match base {
            Some(slots) => Some(Seq::new(16, |i: int| if scan.ansi_set[i] { scan.ansi[i] } else { slots[i] })),
            None => if forall|i: int| 0 <= i < 16 ==> scan.ansi_set[i] {
                Some(scan.ansi)
            } else {
                None
            },
        }
    } else {
        base
    }
}

/// The look of a scan once its theme (if one was named and found) is read:
/// the theme's colours, overridden by the colours the file wrote out.
pub open spec fn resolved_look(scan: LookScan, theme: Option<ThemeColors>) -> LookView {
    let t_bg = match theme { Some(t) => Some(t.background), None => None };
    let t_fg = match theme { Some(t) => Some(t.foreground), None => None };
    let t_cursor = match theme { Some(t) => Some(t.cursor), None => None };
    let t_split = match theme { Some(t) => t.split_divider, None => None };
    let t_ansi = match theme { Some(t) => opt_ansi(t.ansi), None => None };
    LookView {
        font_family: scan.font_family,
        font_fallbacks: scan.font_fallbacks,
        background: or_else(scan.background, t_bg),
        foreground: or_else(scan.foreground, t_fg),
        cursor: or_else(scan.cursor, t_cursor),
        ansi: merged_ansi(scan, t_ansi),
        split_divider: or_else(scan.split_divider, t_split),
        theme_name: scan.theme_name,
        macos_option_as_alt: scan.macos_option_as_alt,
    }
}

fn array16(v: &Vec<u32>) -> (r: [u32; 16])
    requires
        v@.len() == 16,
    ensures
        r@ == v@,
{
    let r = [
        v[0], v[1], v[2], v[3], v[4], v[5], v[6], v[7],
        v[8], v[9], v[10], v[11], v[12], v[13], v[14], v[15],
    ];
    assert(r@ =~= v@);
    r
}

fn copy_strings(v: &Vec<String>) -> (r: Vec<String>)
    ensures
        strings_view(r@) == strings_view(v@),
{
    let mut r: Vec<String> = Vec::new();
    let mut i: usize = 0;
    while i < v.len()
        invariant
            i <= v@.len(),
            strings_view(r@) == strings_view(v@.subrange(0, i as int)),
        decreases v@.len() - i,
    {
        r.push(v[i].clone());
        proof {
            assert(strings_view(v@.subrange(0, i + 1)) =~= strings_view(v@.subrange(0, i as int)).push(v@[i as int]@));
        }
        i = i + 1;
    }
    assert(v@.subrange(0, v@.len() as int) =~= v@);
    r
}

fn copy_opt_string(o: &Option<String>) -> (r: Option<String>)
    ensures
        opt_chars(r) == opt_chars(*o),
{
    match o {
        Some(s) => Some(s.clone()),
        None => None,
    }
}

/// Resolve a scan against the theme it named, if that theme was found.
pub fn resolve_look(keys: &LookKeys, theme: Option<ThemeColors>) -> (r: LookCore)
    requires
        keys.ansi@.len() == 16,
        keys.ansi_set@.len() == 16,
    ensures
        r.view() == resolved_look(keys.view(), theme),
{
    let (t_bg, t_fg, t_cursor, t_split, t_ansi) = match theme {
        Some(t) => (Some(t.background), Some(t.foreground), Some(t.cursor), t.split_divider, t.ansi),
        None => (None, None, None, None, None),
    };
    let mut any = false;
    let mut all = true;
    let mut k: usize = 0;
    while k < 16
        invariant
            keys.ansi_set@.len() == 16,
            k <= 16,
            any == exists|i: int| 0 <= i < k && keys.ansi_set@[i],
            all == forall|i: int| 0 <= i < k ==> keys.ansi_set@[i],
        decreases 16 - k,
    {
        if keys.ansi_set[k] {
            any = true;
        } else {
            all = false;
        }
        k = k + 1;
    }
    proof {
        assert(keys.view().ansi_set == keys.ansi_set@);
        assert(k == 16);
        assert(any == exists|i: int| 0 <= i < 16 && keys.ansi_set@[i]);
        assert(all == forall|i: int| 0 <= i < 16 ==> keys.ansi_set@[i]);
        assert(opt_ansi(t_ansi) == match theme { Some(t) => opt_ansi(t.ansi), None => None });
    }
    let ansi = if any {
        match t_ansi {
            Some(slots) => {
                let mut merged: Vec<u32> = Vec::new();
                let mut i: usize = 0;
                while i < 16
                    invariant
                        keys.ansi@.len() == 16,
                        keys.ansi_set@.len() == 16,
                        i <= 16,
                        merged@ == Seq::new(i as nat, |j: int| if keys.ansi_set@[j] { keys.ansi@[j] } else { slots@[j] }),
                    decreases 16 - i,
                {
                    let v = if keys.ansi_set[i] {
                        keys.ansi[i]
                    } else {
                        slots[i]
                    };
                    merged.push(v);
                    i = i + 1;
                    assert(merged@ =~= Seq::new(i as nat, |j: int| if keys.ansi_set@[j] { keys.ansi@[j] } else { slots@[j] }));
                }
                proof {
                    let sc = keys.view();
                    assert(merged@ =~= Seq::new(16, |j: int| if sc.ansi_set[j] { sc.ansi[j] } else { slots@[j] }));
                }
                Some(array16(&merged))
            },
            None => if all {
                Some(array16(&keys.ansi))
            } else {
                None
            },
        }
    } else {
        t_ansi
    };
    assert(opt_ansi(ansi) == merged_ansi(keys.view(), opt_ansi(t_ansi)));
    let r = LookCore {
        font_family: copy_opt_string(&keys.font_family),
        font_fallbacks: copy_strings(&keys.font_fallbacks),
        background: if keys.background.is_some() { keys.background } else { t_bg },
        foreground: if keys.foreground.is_some() { keys.foreground } else { t_fg },
        cursor: if keys.cursor.is_some() { keys.cursor } else { t_cursor },
        ansi,
        split_divider: if keys.split_divider.is_some() { keys.split_divider } else { t_split },
        theme_name: copy_opt_string(&keys.theme_name),
        macos_option_as_alt: keys.macos_option_as_alt,
    };
    r
}

/// The colours a theme file gives: it must set `background` and
/// `foreground`; the cursor falls back to the foreground.
pub open spec fn theme_of(look: LookView) -> Option<(u32, u32, u32, Option<Seq<u32>>, Option<u32>)> {
    match (look.background, look.foreground) {
        (Some(b), Some(f)) => Some((b, f, match look.cursor { Some(c) => c, None => f }, look.ansi, look.split_divider)),
        _ => None,
    }
}

/// The theme colours a parsed theme file gives, if it sets both
/// `background` and `foreground`.
pub fn theme_from_look(look: &LookCore) -> (r: Option<ThemeColors>)
    ensures
        match theme_of(look.view()) {
            None => r is None,
            Some((b, f, c, a, s)) => r matches Some(t) && t.background == b && t.foreground == f && t.cursor == c
                && opt_ansi(t.ansi) == a && t.split_divider == s,
        },
{
    match (look.background, look.foreground) {
        (Some(background), Some(foreground)) => Some(ThemeColors {
            background,
            foreground,
            cursor: match look.cursor {
                Some(c) => c,
                None => foreground,
            },
            ansi: look.ansi,
            split_divider: look.split_divider,
        }),
        _ => None,
    }
}

/// A theme name as a lookup key: trimmed, `.conf` dropped, `-` and `_` as
/// spaces, ASCII lower case.
pub open spec fn theme_key(name: Seq<char>) -> Seq<char> {
    let t = trim(name);
    let base = if t.len() >= 5 && t.skip(t.len() - 5) == ".conf"@ {
        t.take(t.len() - 5)
    } else {
        t
    };
    lowered(base.map_values(|c: char| if c == '-' || c == '_' { ' ' } else { c }))
}

/// The file names a theme may have in a theme directory: the name as
/// written, with `.conf`, and its key with spaces as dashes, bare and with
/// `.conf`.
pub open spec fn theme_file_names(name: Seq<char>) -> Seq<Seq<char>> {
    let slug = theme_key(name).map_values(|c: char| if c == ' ' { '-' } else { c });
    seq![name, name + ".conf"@, slug, slug + ".conf"@]
}

fn append_chars(a: &Vec<char>, b: &Vec<char>) -> (r: Vec<char>)
    ensures
        r@ == a@ + b@,
{
    let mut r = copy_chars(a);
    let mut i: usize = 0;
    while i < b.len()
        invariant
            i <= b@.len(),
            r@ == a@ + b@.subrange(0, i as int),
        decreases b@.len() - i,
    {
        r.push(b[i]);
        i = i + 1;
    }
    assert(b@.subrange(0, b@.len() as int) =~= b@);
    r
}

fn map_chars(v: &Vec<char>, from: char, from2: char, to: char) -> (r: Vec<char>)
    ensures
        r@ == v@.map_values(|c: char| if c == from || c == from2 { to } else { c }),
{
    let mut r: Vec<char> = Vec::new();
    let mut i: usize = 0;
    while i < v.len()
        invariant
            i <= v@.len(),
            r@ == v@.subrange(0, i as int).map_values(|c: char| if c == from || c == from2 { to } else { c }),
        decreases v@.len() - i,
    {
        let c = v[i];
        r.push(if c == from || c == from2 { to } else { c });
        proof {
            assert(v@.subrange(0, i + 1).map_values(|c: char| if c == from || c == from2 { to } else { c })
                =~= v@.subrange(0, i as int).map_values(|c: char| if c == from || c == from2 { to } else { c }).push(
                if c == from || c == from2 { to } else { c }));
        }
        i = i + 1;
    }
    assert(v@.subrange(0, v@.len() as int) =~= v@);
    r
}

/// The lookup key of a theme name.
pub fn normalize_theme(name: &str) -> (r: Vec<char>)
    ensures
        r@ == theme_key(name@),
{
    let chars = chars_of(name);
    let t = trim_chars(&chars, 0, chars.len());
    assert(chars@.subrange(0, chars@.len() as int) =~= name@);
    let conf = chars_of(".conf");
    let base = if t.len() >= 5 && chars_eq(&slice_chars(&t, t.len() - 5, t.len()), &conf) {
        proof {
            assert(t@.subrange(t@.len() - 5, t@.len() as int) =~= t@.skip(t@.len() - 5));
        }
        slice_chars(&t, 0, t.len() - 5)
    } else {
        proof {
            if t@.len() >= 5 {
                assert(t@.subrange(t@.len() - 5, t@.len() as int) =~= t@.skip(t@.len() - 5));
            }
        }
        t
    };
    proof {
        if t@.len() >= 5 && t@.skip(t@.len() - 5) == ".conf"@ {
            assert(base@ =~= t@.take(t@.len() - 5));
        }
    }
    lower_chars(&map_chars(&base, '-', '_', ' '))
}

/// The file names to try for theme `name`.
pub fn theme_file_names_for(name: &str) -> (r: Vec<String>)
    ensures
        strings_view(r@) == theme_file_names(name@),
{
    let key = normalize_theme(name);
    let slug = map_chars(&key, ' ', ' ', '-');
    proof {
        assert(slug@ =~= theme_key(name@).map_values(|c: char| if c == ' ' { '-' } else { c }));
    }
    let n = chars_of(name);
    let conf = chars_of(".conf");
    let mut out: Vec<String> = Vec::new();
    out.push(string_from_chars(copy_chars(&n)));
    out.push(string_from_chars(append_chars(&n, &conf)));
    out.push(string_from_chars(copy_chars(&slug)));
    out.push(string_from_chars(append_chars(&slug, &conf)));
    assert(strings_view(out@) =~= theme_file_names(name@));
    out
}

/// Add a theme directory to the search list unless it is empty or already
/// listed.
pub fn push_dir(dirs: &mut Vec<String>, p: String)
    ensures
        strings_view(final(dirs)@) == if p@.len() == 0 || strings_view(old(dirs)@).contains(p@) {
            strings_view(old(dirs)@)
        } else {
            strings_view(old(dirs)@).push(p@)
        },
{
    if p.as_str().unicode_len() == 0 {
        return;
    }
    let mut i: usize = 0;
    while i < dirs.len()
        invariant
            i <= dirs@.len(),
            forall|j: int| 0 <= j < i ==> dirs@[j]@ != p@,
        decreases dirs@.len() - i,
    {
        if dirs[i] == p {
            proof {
                assert(strings_view(dirs@)[i as int] == p@);
            }
            return;
        }
        i = i + 1;
    }
    proof {
        assert(!strings_view(dirs@).contains(p@)) by {
            if strings_view(dirs@).contains(p@) {
                let j = choose|j: int| 0 <= j < strings_view(dirs@).len() && strings_view(dirs@)[j] == p@;
                assert(dirs@[j]@ == p@);
            }
        }
    }
    let ghost before = dirs@;
    dirs.push(p);
    assert(strings_view(dirs@) =~= strings_view(before).push(p@));
}

// ---------------------------------------------------------------- surface

/// The host surface's settings, fractional ones aside.
#[derive(Clone, Debug)]
pub struct SurfaceLook {
    pub font_family: String,
    pub font_fallbacks: Vec<String>,
    pub cols: u16,
    pub rows: u16,
    pub theme: Option<String>,
    pub macos_option_as_alt: bool,
    pub colors: Option<ThemeColors>,
}

pub struct SurfaceView {
    pub font_family: Seq<char>,
    pub font_fallbacks: Seq<Seq<char>>,
    pub cols: u16,
    pub rows: u16,
    pub theme: Option<Seq<char>>,
    pub macos_option_as_alt: bool,
    pub colors: Option<ColorsView>,
}

/// Theme colours as a value.
pub struct ColorsView {
    pub background: u32,
    pub foreground: u32,
    pub cursor: u32,
    pub ansi: Option<Seq<u32>>,
    pub split_divider: Option<u32>,
}

pub open spec fn colors_view(c: ThemeColors) -> ColorsView {
    ColorsView {
        background: c.background,
        foreground: c.foreground,
        cursor: c.cursor,
        ansi: opt_ansi(c.ansi),
        split_divider: c.split_divider,
    }
}

impl SurfaceLook {
    pub open spec fn view(&self) -> SurfaceView {
        SurfaceView {
            font_family: self.font_family@,
            font_fallbacks: strings_view(self.font_fallbacks@),
            cols: self.cols,
            rows: self.rows,
            theme: opt_chars(self.theme),
            macos_option_as_alt: self.macos_option_as_alt,
            colors: match self.colors {
                Some(c) => Some(colors_view(c)),
                None => None,
            },
        }
    }
}

/// The colours after a look overlays them: the surface's colours (or,
/// without any, defaults filled from the look), with each colour the look
/// sets taking its place.
pub open spec fn overlaid_colors(base: Option<ColorsView>, look: LookView) -> ColorsView {
    let start = match base {
        Some(c) => c,
        None => ColorsView {
            background: match look.background { Some(b) => b, None => 0x121212ffu32 },
            foreground: match look.foreground { Some(f) => f, None => 0xccccccffu32 },
            cursor: match or_else(look.cursor, look.foreground) { Some(c) => c, None => 0xd9d9d9ffu32 },
            ansi: look.ansi,
            split_divider: look.split_divider,
        },
    };
    ColorsView {
        background: match look.background { Some(b) => b, None => start.background },
        foreground: match look.foreground { Some(f) => f, None => start.foreground },
        cursor: match look.cursor { Some(c) => c, None => start.cursor },
        ansi: if look.ansi is Some { look.ansi } else { start.ansi },
        split_divider: if look.split_divider is Some { look.split_divider } else { start.split_divider },
    }
}

/// A look overlaid on the host surface: the look's font, fallbacks and
/// option key where it sets them; when it sets any colour, the colours as
/// `overlaid_colors` gives them and the look's theme name where it has one.
pub open spec fn overlaid(base: SurfaceView, look: LookView) -> SurfaceView {
    let b1 = SurfaceView {
        font_family: match look.font_family { Some(f) => f, None => base.font_family },
        font_fallbacks: if look.font_fallbacks.len() > 0 { look.font_fallbacks } else { base.font_fallbacks },
        macos_option_as_alt: match look.macos_option_as_alt { Some(b) => b, None => base.macos_option_as_alt },
        ..base
    };
    if look.background is Some || look.foreground is Some || look.cursor is Some || look.ansi is Some {
        SurfaceView {
            colors: Some(overlaid_colors(b1.colors, look)),
            theme: or_else(look.theme_name, b1.theme),
            ..b1
        }
    } else {
        b1
    }
}

/// Overlay a look on the host surface's settings.
pub fn overlay_surface(base: SurfaceLook, look: &LookCore) -> (r: SurfaceLook)
    ensures
        r.view() == overlaid(base.view(), look.view()),
{
    let mut base = base;
    if let Some(f) = &look.font_family {
        base.font_family = f.clone();
    }
    if look.font_fallbacks.len() > 0 {
        base.font_fallbacks = copy_strings(&look.font_fallbacks);
    }
    if let Some(b) = look.macos_option_as_alt {
        base.macos_option_as_alt = b;
    }
    if look.background.is_some() || look.foreground.is_some() || look.cursor.is_some() || look.ansi.is_some() {
        let mut colors = match base.colors {
            Some(c) => c,
            None => ThemeColors {
                background: match look.background {
                    Some(b) => b,
                    None => 0x121212ff,
                },
                foreground: match look.foreground {
                    Some(f) => f,
                    None => 0xccccccff,
                },
                cursor: match look.cursor {
                    Some(c) => c,
                    None => match look.foreground {
                        Some(f) => f,
                        None => 0xd9d9d9ff,
                    },
                },
                ansi: look.ansi,
                split_divider: look.split_divider,
            },
        };
        if let Some(c) = look.background {
            colors.background = c;
        }
        if let Some(c) = look.foreground {
            colors.foreground = c;
        }
        if let Some(c) = look.cursor {
            colors.cursor = c;
        }
        if let Some(a) = look.ansi {
            colors.ansi = Some(a);
        }
        if look.split_divider.is_some() {
            colors.split_divider = look.split_divider;
        }
        base.colors = Some(colors);
        if let Some(name) = &look.theme_name {
            base.theme = Some(name.clone());
        }
    }
    base
}

/// Each cell in the grid's default foreground or background takes the
/// theme's instead; other cells keep their colours.
pub open spec fn themed_cell(c: PodCell, def_fg: u32, def_bg: u32, t: ThemeColors) -> PodCell {
    PodCell {
        fg: if c.fg == def_fg { t.foreground } else { c.fg },
        bg: if c.bg == def_bg { t.background } else { c.bg },
        ..c
    }
}

/// Remap the grid's default-coloured cells to the theme's colours; no
/// theme leaves the grid as it is.
pub fn apply_theme(grid: &mut LiveGrid, colors: &Option<ThemeColors>)
    ensures
        match colors {
            None => final(grid).view() == old(grid).view(),
            Some(t) => final(grid).view() == (crate::viewport::GridView {
                cells: old(grid).view().cells.map_values(
                    |c: PodCell| themed_cell(c, old(grid).default_fg, old(grid).default_bg, *t),
                ),
                ..old(grid).view()
            }),
        },
{
    let t = match colors {
        Some(t) => *t,
        None => {
            return;
        },
    };
    let def_fg = grid.default_fg;
    let def_bg = grid.default_bg;
    let ghost start = grid.cells@;
    let mut i: usize = 0;
    while i < grid.cells.len()
        invariant
            grid.cells@.len() == start.len(),
            i <= start.len(),
            forall|j: int| 0 <= j < i ==> grid.cells@[j] == themed_cell(start[j], def_fg, def_bg, t),
            forall|j: int| i <= j < start.len() ==> grid.cells@[j] == start[j],
            grid.default_fg == def_fg,
            grid.default_bg == def_bg,
            grid.view().cols == old(grid).view().cols,
            grid.view().rows == old(grid).view().rows,
            grid.view().cursor_col == old(grid).view().cursor_col,
            grid.view().cursor_row == old(grid).view().cursor_row,
            grid.view().cursor_visible == old(grid).view().cursor_visible,
            grid.view().full_damage == old(grid).view().full_damage,
            grid.view().damage_row0 == old(grid).view().damage_row0,
            grid.view().damage_row1 == old(grid).view().damage_row1,
            grid.view().default_fg == old(grid).view().default_fg,
            grid.view().default_bg == old(grid).view().default_bg,
            grid.view().grapheme_truncated == old(grid).view().grapheme_truncated,
            grid.view().replies_dropped == old(grid).view().replies_dropped,
            start == old(grid).view().cells,
            def_fg == old(grid).default_fg,
            def_bg == old(grid).default_bg,
        decreases start.len() - i,
    {
        let c = grid.cells[i];
        let n = PodCell {
            codepoint: c.codepoint,
            fg: if c.fg == def_fg { t.foreground } else { c.fg },
            bg: if c.bg == def_bg { t.background } else { c.bg },
            attrs: c.attrs,
            _pad: c._pad,
        };
        grid.cells.set(i, n);
        i = i + 1;
    }
    assert(grid.cells@ =~= start.map_values(|c: PodCell| themed_cell(c, def_fg, def_bg, t)));
}


/// Where the host surface file is looked for, in order.
pub open spec fn host_surface_candidates() -> Seq<Seq<char>> {
    seq!["host-surface.toml"@, "../host-surface.toml"@, "../../host-surface.toml"@]
}

/// The host surface file: the `RILL_HOST_SURFACE` value when it is set and
/// not empty; else the first candidate that exists; else
/// `host-surface.toml`.
pub open spec fn host_surface_choice(env: Option<Seq<char>>, present: Seq<bool>) -> Seq<char> {
    match env {
        Some(p) if p.len() > 0 => p,
        _ => if present[0] {
            host_surface_candidates()[0]
        } else if present[1] {
            host_surface_candidates()[1]
        } else if present[2] {
            host_surface_candidates()[2]
        } else {
            host_surface_candidates()[0]
        },
    }
}

/// The candidate host surface paths, in the order they are tried.
pub fn host_surface_candidate_paths() -> (r: Vec<String>)
    ensures
        strings_view(r@) == host_surface_candidates(),
{
    let mut r: Vec<String> = Vec::new();
    r.push(String::from_str("host-surface.toml"));
    r.push(String::from_str("../host-surface.toml"));
    r.push(String::from_str("../../host-surface.toml"));
    assert(strings_view(r@) =~= host_surface_candidates());
    r
}

/// Choose the host surface file from the environment value and which of
/// the candidates exist.
pub fn host_surface_path(env: Option<&str>, present: &[bool]) -> (r: String)
    requires
        present@.len() == 3,
    ensures
        r@ == host_surface_choice(
            match env {
                Some(p) => Some(p@),
                None => None,
            },
            present@,
        ),
{
    if let Some(p) = env {
        if p.unicode_len() > 0 {
            return String::from_str(p);
        }
    }
    let c = host_surface_candidate_paths();
    proof {
        assert(host_surface_candidates().len() == 3);
        assert(strings_view(c@).len() == 3);
        assert(c@.len() == 3);
        assert(strings_view(c@)[1] == c@[1]@);
        assert(strings_view(c@)[2] == c@[2]@);
        assert(c@[0]@ == host_surface_candidates()[0]);
        assert(c@[1]@ == host_surface_candidates()[1]);
        assert(c@[2]@ == host_surface_candidates()[2]);
    }
    if present[0] {
        c[0].clone()
    } else if present[1] {
        c[1].clone()
    } else if present[2] {
        c[2].clone()
    } else {
        c[0].clone()
    }
}


/// The window background: the surface colours' background, or the dark
/// default without any.
pub fn background_rgba(colors: &Option<ThemeColors>) -> (r: u32)
    ensures
        r == match colors {
            Some(c) => c.background,
            None => 0x121212ffu32,
        },
{
    match colors {
        Some(c) => c.background,
        None => 0x121212ff,
    }
}

/// The text colour: the surface colours' foreground, or the light-grey
/// default without any.
pub fn foreground_rgba(colors: &Option<ThemeColors>) -> (r: u32)
    ensures
        r == match colors {
            Some(c) => c.foreground,
            None => 0xccccccffu32,
        },
{
    match colors {
        Some(c) => c.foreground,
        None => 0xccccccff,
    }
}

/// The cursor colour: the surface colours' cursor, or the default without
/// any.
pub fn cursor_rgba(colors: &Option<ThemeColors>) -> (r: u32)
    ensures
        r == match colors {
            Some(c) => c.cursor,
            None => 0xd9d9d9ffu32,
        },
{
    match colors {
        Some(c) => c.cursor,
        None => 0xd9d9d9ff,
    }
}

/// The colours a look file writes out win over its theme's: each of the
/// background, foreground, cursor and split-divider colours the file sets
/// is the resolved one whatever theme is given, and each it leaves unset
/// comes from the theme (none without a theme).
pub proof fn lemma_explicit_colours_win(scan: LookScan, theme: Option<ThemeColors>)
    ensures
        ({
            let r = resolved_look(scan, theme);
            &&& scan.background matches Some(c) ==> r.background == Some(c)
            &&& scan.foreground matches Some(c) ==> r.foreground == Some(c)
            &&& scan.cursor matches Some(c) ==> r.cursor == Some(c)
            &&& scan.split_divider matches Some(c) ==> r.split_divider == Some(c)
            &&& scan.background is None ==> r.background == (match theme {
                Some(t) => Some(t.background),
                None => None,
            })
            &&& scan.foreground is None ==> r.foreground == (match theme {
                Some(t) => Some(t.foreground),
                None => None,
            })
            &&& scan.cursor is None ==> r.cursor == (match theme {
                Some(t) => Some(t.cursor),
                None => None,
            })
        }),
{
}

/// A colour the look sets takes the surface colour's place: whenever the
/// look sets a background, foreground or cursor, the overlaid surface has
/// colours and that colour is the look's, whatever colours the surface had
/// before; a palette the look sets is the overlaid palette.
pub proof fn lemma_look_colours_replace_surface(base: SurfaceView, look: LookView)
    ensures
        ({
            let r = overlaid(base, look);
            &&& look.background matches Some(c) ==> (r.colors matches Some(k) && k.background == c)
            &&& look.foreground matches Some(c) ==> (r.colors matches Some(k) && k.foreground == c)
            &&& look.cursor matches Some(c) ==> (r.colors matches Some(k) && k.cursor == c)
            &&& look.ansi is Some ==> (r.colors matches Some(k) && k.ansi == look.ansi)
            &&& (look.background is None && look.foreground is None && look.cursor is None && look.ansi is None)
                ==> r.colors == base.colors
        }),
{
}

} // verus!
