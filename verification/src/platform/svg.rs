use vstd::prelude::*;
use vstd::utf8::*;

use crate::platform::pixels::{premultiplied_bgra_of, rgba_to_premultiplied_bgra};
use crate::text::{append_chars, chars_equal, chars_of, str_equal, string_from_utf8, string_of};

verus! {

/// The built-in "copy" icon.
pub const COPY_SVG: &'static str = "<svg xmlns=\"http://www.w3.org/2000/svg\" viewBox=\"0 0 24 24\" fill=\"none\" stroke=\"currentColor\" stroke-width=\"2\" stroke-linecap=\"round\" stroke-linejoin=\"round\" opacity=\"currentOpacity\"><rect x=\"9\" y=\"9\" width=\"11\" height=\"11\" rx=\"2\"/><path d=\"M5 15H4a2 2 0 0 1-2-2V4a2 2 0 0 1 2-2h9a2 2 0 0 1 2 2v1\"/></svg>";

/// The built-in "arrow-left" icon.
pub const ARROW_LEFT_SVG: &'static str = "<svg xmlns=\"http://www.w3.org/2000/svg\" viewBox=\"0 0 24 24\" fill=\"none\" stroke=\"currentColor\" stroke-width=\"2\" stroke-linecap=\"round\" stroke-linejoin=\"round\" opacity=\"currentOpacity\"><path d=\"m12 19-7-7 7-7\"/><path d=\"M19 12H5\"/></svg>";

/// The attributes and path data of an icon of an icon set.
#[derive(Clone, Copy, Debug)]
pub struct IconParts {
    pub style: Option<&'static str>,
    pub x: Option<&'static str>,
    pub y: Option<&'static str>,
    pub width: Option<&'static str>,
    pub height: Option<&'static str>,
    pub view_box: Option<&'static str>,
    pub stroke_linecap: Option<&'static str>,
    pub stroke_linejoin: Option<&'static str>,
    pub stroke_width: Option<&'static str>,
    pub stroke: Option<&'static str>,
    pub fill: Option<&'static str>,
    pub data: &'static str,
}

/// The Lucide "x" icon as `icondata` defines it.
pub open spec fn lucide_x_parts() -> IconParts {
    IconParts {
        style: None,
        x: None,
        y: None,
        width: Some("24"),
        height: Some("24"),
        view_box: Some("0 0 24 24"),
        stroke_linecap: Some("round"),
        stroke_linejoin: Some("round"),
        stroke_width: Some("2"),
        stroke: Some("currentColor"),
        fill: Some("none"),
        data: "<path d=\"M18 6 6 18\" />\n<path d=\"m6 6 12 12\" />",
    }
}

/// The Lucide "minus" icon as `icondata` defines it.
pub open spec fn lucide_minus_parts() -> IconParts {
    IconParts {
        style: None,
        x: None,
        y: None,
        width: Some("24"),
        height: Some("24"),
        view_box: Some("0 0 24 24"),
        stroke_linecap: Some("round"),
        stroke_linejoin: Some("round"),
        stroke_width: Some("2"),
        stroke: Some("currentColor"),
        fill: Some("none"),
        data: "<path d=\"M5 12h14\" />",
    }
}

/// The Lucide "x" icon of `icondata` (`icondata::LuX`), field for field; the contract
/// states the fields as the crate's source defines them.
#[verifier::external_body]
fn lucide_x_icon() -> (r: IconParts)
    ensures
        r == lucide_x_parts(),
{
    let icon = icondata::LuX;
    IconParts {
        style: icon.style,
        x: icon.x,
        y: icon.y,
        width: icon.width,
        height: icon.height,
        view_box: icon.view_box,
        stroke_linecap: icon.stroke_linecap,
        stroke_linejoin: icon.stroke_linejoin,
        stroke_width: icon.stroke_width,
        stroke: icon.stroke,
        fill: icon.fill,
        data: icon.data,
    }
}

/// The Lucide "minus" icon of `icondata` (`icondata::LuMinus`), field for field; the
/// contract states the fields as the crate's source defines them.
#[verifier::external_body]
fn lucide_minus_icon() -> (r: IconParts)
    ensures
        r == lucide_minus_parts(),
{
    let icon = icondata::LuMinus;
    IconParts {
        style: icon.style,
        x: icon.x,
        y: icon.y,
        width: icon.width,
        height: icon.height,
        view_box: icon.view_box,
        stroke_linecap: icon.stroke_linecap,
        stroke_linejoin: icon.stroke_linejoin,
        stroke_width: icon.stroke_width,
        stroke: icon.stroke,
        fill: icon.fill,
        data: icon.data,
    }
}

/// ` name="value"`.
pub open spec fn attr_text(name: Seq<char>, value: Seq<char>) -> Seq<char> {
    seq![' '] + name + seq!['=', '"'] + value + seq!['"']
}

pub open spec fn optional_attr(name: Seq<char>, value: Option<&'static str>) -> Seq<char> {
    match value {
        Some(v) => attr_text(name, v@),
        None => Seq::empty(),
    }
}

fn push_str(out: &mut Vec<char>, s: &str)
    ensures
        final(out)@ == old(out)@ + s@,
{
    let cs = chars_of(s);
    append_chars(out, &cs);
}

/// Appends ` name="value"` to an SVG document when there is a value.
pub fn push_svg_attr(svg: &mut Vec<char>, name: &str, value: Option<&'static str>)
    ensures
        final(svg)@ == old(svg)@ + match value {
            Some(v) => attr_text(name@, v@),
            None => Seq::<char>::empty(),
        },
{
    match value {
        Some(v) => {
            let ghost start = svg@;
            svg.push(' ');
            push_str(svg, name);
            svg.push('=');
            svg.push('"');
            push_str(svg, v);
            svg.push('"');
            assert(svg@ =~= start + attr_text(name@, v@));
        },
        None => {
            assert(svg@ =~= old(svg)@ + Seq::<char>::empty());
        },
    }
}

/// The SVG document of an icon, with its opacity left to `currentOpacity`.
pub open spec fn icon_svg_of(icon: IconParts) -> Seq<char> {
    "<svg xmlns=\"http://www.w3.org/2000/svg\""@ + optional_attr("style"@, icon.style)
        + optional_attr("x"@, icon.x) + optional_attr("y"@, icon.y) + optional_attr(
        "width"@,
        icon.width,
    ) + optional_attr("height"@, icon.height) + optional_attr("viewBox"@, icon.view_box)
        + optional_attr("stroke-linecap"@, icon.stroke_linecap) + optional_attr(
        "stroke-linejoin"@,
        icon.stroke_linejoin,
    ) + optional_attr("stroke-width"@, icon.stroke_width) + optional_attr("stroke"@, icon.stroke)
        + optional_attr("fill"@, icon.fill) + " opacity=\"currentOpacity\">"@ + icon.data@
        + "</svg>"@
}

pub fn icon_svg(icon: &IconParts) -> (r: String)
    ensures
        r@ == icon_svg_of(*icon),
{
    let mut svg: Vec<char> = Vec::new();
    push_str(&mut svg, "<svg xmlns=\"http://www.w3.org/2000/svg\"");
    push_svg_attr(&mut svg, "style", icon.style);
    push_svg_attr(&mut svg, "x", icon.x);
    push_svg_attr(&mut svg, "y", icon.y);
    push_svg_attr(&mut svg, "width", icon.width);
    push_svg_attr(&mut svg, "height", icon.height);
    push_svg_attr(&mut svg, "viewBox", icon.view_box);
    push_svg_attr(&mut svg, "stroke-linecap", icon.stroke_linecap);
    push_svg_attr(&mut svg, "stroke-linejoin", icon.stroke_linejoin);
    push_svg_attr(&mut svg, "stroke-width", icon.stroke_width);
    push_svg_attr(&mut svg, "stroke", icon.stroke);
    push_svg_attr(&mut svg, "fill", icon.fill);
    push_str(&mut svg, " opacity=\"currentOpacity\">");
    push_str(&mut svg, icon.data);
    push_str(&mut svg, "</svg>");
    string_of(&svg)
}

/// `s` with every occurrence of `pat`, found left to right without overlap, replaced by
/// `rep`.
pub open spec fn replace_all(s: Seq<char>, pat: Seq<char>, rep: Seq<char>) -> Seq<char>
    decreases s.len(),
{
    if pat.len() == 0 || s.len() < pat.len() {
        s
    } else if s.take(pat.len() as int) == pat {
        rep + replace_all(s.skip(pat.len() as int), pat, rep)
    } else {
        seq![s[0]] + replace_all(s.drop_first(), pat, rep)
    }
}

/// Replaces every occurrence of `pat` in `s` by `rep`.
pub fn replace_chars(s: &Vec<char>, pat: &Vec<char>, rep: &Vec<char>) -> (r: Vec<char>)
    requires
        pat@.len() > 0,
    ensures
        r@ == replace_all(s@, pat@, rep@),
{
    let n = s.len();
    let m = pat.len();
    let mut out: Vec<char> = Vec::new();
    let mut i: usize = 0;
    assert(s@.skip(0) =~= s@);
    while i < n
        invariant
            i <= n,
            n == s@.len(),
            m == pat@.len(),
            m > 0,
            out@ + replace_all(s@.skip(i as int), pat@, rep@) == replace_all(s@, pat@, rep@),
        decreases n - i,
    {
        let ghost rest = s@.skip(i as int);
        if m <= n - i && chars_equal(&crate::text::slice_chars(s, i, i + m), pat) {
            assert(rest.take(m as int) =~= s@.subrange(i as int, i + m));
            assert(rest.skip(m as int) =~= s@.skip(i + m));
            let ghost before = out@;
            append_chars(&mut out, rep);
            assert(out@ + replace_all(s@.skip(i + m), pat@, rep@) =~= before + replace_all(
                rest,
                pat@,
                rep@,
            ));
            i = i + m;
        } else {
            proof {
                if m <= n - i {
                    assert(rest.take(m as int) =~= s@.subrange(i as int, i + m));
                }
            }
            assert(rest.drop_first() =~= s@.skip(i + 1));
            let ghost before = out@;
            out.push(s[i]);
            assert(out@ + replace_all(s@.skip(i + 1), pat@, rep@) =~= before + replace_all(
                rest,
                pat@,
                rep@,
            ));
            i = i + 1;
        }
    }
    assert(s@.skip(i as int) =~= Seq::<char>::empty());
    assert(out@ + Seq::<char>::empty() =~= out@);
    out
}

/// The upper-case hexadecimal digit of `d`.
pub open spec fn hex_upper_digit(d: int) -> char {
    if d < 10 {
        (48 + d) as char
    } else {
        (55 + d) as char
    }
}

/// The upper-case hexadecimal digits of `v`, most significant first.
pub open spec fn hex_digits(v: nat) -> Seq<char>
    decreases v,
{
    if v < 16 {
        seq![hex_upper_digit(v as int)]
    } else {
        hex_digits(v / 16) + seq![hex_upper_digit((v % 16) as int)]
    }
}

/// `#` and the digits of `color`, padded with zeros to six (`{:06X}`).
pub open spec fn hex_color_of(color: u32) -> Seq<char> {
    let digits = hex_digits(color as nat);
    seq!['#'] + Seq::new(
        (if digits.len() < 6 {
            6 - digits.len()
        } else {
            0
        }) as nat,
        |i: int| '0',
    ) + digits
}

fn hex_digit_char(d: u32) -> (r: char)
    requires
        d < 16,
    ensures
        r == hex_upper_digit(d as int),
{
    if d < 10 {
        ((48 + d) as u8) as char
    } else {
        ((55 + d) as u8) as char
    }
}

proof fn lemma_hex_digits_len(v: nat)
    ensures
        hex_digits(v).len() >= 1,
    decreases v,
{
    if v >= 16 {
        lemma_hex_digits_len(v / 16);
    }
}

/// `#RRGGBB` for a colour.
pub fn hex_color(color: u32) -> (r: Vec<char>)
    ensures
        r@ == hex_color_of(color),
{
    let mut v = color;
    let mut tail: Vec<char> = Vec::new();
    while v >= 16
        invariant
            hex_digits(color as nat) == hex_digits(v as nat) + tail@,
        decreases v,
    {
        let ghost before = tail@;
        tail.insert(0, hex_digit_char(v % 16));
        assert(tail@ =~= seq![hex_upper_digit((v % 16) as int)] + before);
        assert(hex_digits(v as nat) == hex_digits((v / 16) as nat) + seq![hex_upper_digit((v % 16) as int)]);
        v = v / 16;
        assert(hex_digits(color as nat) =~= hex_digits(v as nat) + tail@);
    }
    let mut digits: Vec<char> = Vec::new();
    digits.push(hex_digit_char(v));
    append_chars(&mut digits, &tail);
    assert(digits@ =~= hex_digits(color as nat));
    proof {
        lemma_hex_digits_len(color as nat);
    }
    let mut r: Vec<char> = Vec::new();
    r.push('#');
    let mut pad: usize = if digits.len() < 6 {
        6 - digits.len()
    } else {
        0
    };
    let ghost zeros = pad;
    let mut k: usize = 0;
    while k < pad
        invariant
            k <= pad,
            r@ == seq!['#'] + Seq::new(k as nat, |i: int| '0'),
        decreases pad - k,
    {
        r.push('0');
        k = k + 1;
        assert(r@ =~= seq!['#'] + Seq::new(k as nat, |i: int| '0'));
    }
    append_chars(&mut r, &digits);
    assert(r@ =~= hex_color_of(color));
    r
}

/// The opacity `alpha / 255` to three decimals, rounded to the nearest thousandth.
pub open spec fn opacity_thousandths(alpha: u8) -> int {
    (alpha * 2000 + 255) / 510
}

pub open spec fn opacity_text_of(alpha: u8) -> Seq<char> {
    let t = opacity_thousandths(alpha);
    seq![
        (48 + t / 1000) as char,
        '.',
        (48 + (t / 100) % 10) as char,
        (48 + (t / 10) % 10) as char,
        (48 + t % 10) as char,
    ]
}

fn digit_char(d: u32) -> (r: char)
    requires
        d < 10,
    ensures
        r == (48 + d) as char,
{
    ((48 + d) as u8) as char
}

/// `alpha / 255` written with three decimals, as an SVG opacity.
pub fn opacity_text(alpha: u8) -> (r: Vec<char>)
    ensures
        r@ == opacity_text_of(alpha),
{
    let t: u32 = ((alpha as u32) * 2000 + 255) / 510;
    assert(t <= 1000);
    let mut r: Vec<char> = Vec::new();
    r.push(digit_char(t / 1000));
    r.push('.');
    r.push(digit_char((t / 100) % 10));
    r.push(digit_char((t / 10) % 10));
    r.push(digit_char(t % 10));
    assert(r@ =~= opacity_text_of(alpha));
    r
}

/// An SVG document with `currentColor` and `currentOpacity` filled in.
pub open spec fn tinted_svg_of(svg: Seq<char>, color: u32, alpha: u8) -> Seq<char> {
    replace_all(
        replace_all(svg, "currentColor"@, hex_color_of(color)),
        "currentOpacity"@,
        opacity_text_of(alpha),
    )
}

pub fn tint_svg(svg: &str, color: u32, alpha: u8) -> (r: String)
    ensures
        r@ == tinted_svg_of(svg@, color, alpha),
{
    let text = chars_of(svg);
    let color_marker = chars_of("currentColor");
    let opacity_marker = chars_of("currentOpacity");
    proof {
        reveal_strlit("currentColor");
        reveal_strlit("currentOpacity");
    }
    let hex = hex_color(color);
    let opacity = opacity_text(alpha);
    let colored = replace_chars(&text, &color_marker, &hex);
    let tinted = replace_chars(&colored, &opacity_marker, &opacity);
    string_of(&tinted)
}

/// The SVG text of the built-in icon `key`: `copy`, `arrow-left`, and the Lucide `close`
/// and `minus` icons.
pub open spec fn builtin_svg_of(key: Seq<char>) -> Option<Seq<char>> {
    if key == "copy"@ {
        Some(COPY_SVG@)
    } else if key == "arrow-left"@ {
        Some(ARROW_LEFT_SVG@)
    } else if key == "close"@ {
        Some(icon_svg_of(lucide_x_parts()))
    } else if key == "minus"@ {
        Some(icon_svg_of(lucide_minus_parts()))
    } else {
        None
    }
}

/// The SVG text of a built-in icon, if `key` names one.
pub fn builtin_svg(key: &str) -> (r: Option<String>)
    ensures
        match r {
            Some(s) => builtin_svg_of(key@) == Some(s@),
            None => builtin_svg_of(key@) is None,
        },
{
    if str_equal(key, "copy") {
        Some(COPY_SVG.to_owned())
    } else if str_equal(key, "arrow-left") {
        Some(ARROW_LEFT_SVG.to_owned())
    } else if str_equal(key, "close") {
        Some(icon_svg(&lucide_x_icon()))
    } else if str_equal(key, "minus") {
        Some(icon_svg(&lucide_minus_icon()))
    } else {
        None
    }
}

/// Where the SVG text of an icon comes from.
#[derive(Clone, Copy, Debug)]
pub enum SvgIconSource {
    Text(&'static str),
    Bytes(&'static [u8]),
    Icon(IconParts),
}

/// The SVG text of an icon source, if it has one.
pub open spec fn source_svg_of(source: SvgIconSource) -> Option<Seq<char>> {
    match source {
        SvgIconSource::Text(svg) => Some(svg@),
        SvgIconSource::Bytes(bytes) => if valid_utf8(bytes@) {
            Some(decode_utf8(bytes@))
        } else {
            None
        },
        SvgIconSource::Icon(icon) => Some(icon_svg_of(icon)),
    }
}

fn bytes_to_vec(bytes: &[u8]) -> (r: Vec<u8>)
    ensures
        r@ == bytes@,
{
    let mut r: Vec<u8> = Vec::new();
    let mut i: usize = 0;
    while i < bytes.len()
        invariant
            i <= bytes@.len(),
            r@ == bytes@.take(i as int),
        decreases bytes@.len() - i,
    {
        r.push(bytes[i]);
        i = i + 1;
        assert(r@ =~= bytes@.take(i as int));
    }
    assert(bytes@.take(i as int) =~= bytes@);
    r
}

impl SvgIconSource {
    /// The SVG text of this source; bytes count only when they are valid UTF-8.
    pub fn to_svg(self) -> (r: Option<String>)
        ensures
            match r {
                Some(s) => source_svg_of(self) == Some(s@),
                None => source_svg_of(self) is None,
            },
    {
        match self {
            SvgIconSource::Text(svg) => Some(svg.to_owned()),
            SvgIconSource::Bytes(bytes) => string_from_utf8(bytes_to_vec(bytes)),
            SvgIconSource::Icon(icon) => Some(icon_svg(&icon)),
        }
    }
}

/// Icons an application registers by key.
pub struct SvgIconRegistry {
    icons: Vec<(&'static str, SvgIconSource)>,
}

/// The source last registered under `key` among `icons`, if any.
pub open spec fn registered_source(icons: Seq<(&'static str, SvgIconSource)>, key: Seq<char>) -> Option<
    SvgIconSource,
>
    decreases icons.len(),
{
    if icons.len() == 0 {
        None
    } else if icons.last().0@ == key {
        Some(icons.last().1)
    } else {
        registered_source(icons.drop_last(), key)
    }
}

impl SvgIconRegistry {
    pub closed spec fn spec_icons(self) -> Seq<(&'static str, SvgIconSource)> {
        self.icons@
    }

    /// The source that `key` resolves to; a later registration of a key wins.
    pub open spec fn source_of(self, key: Seq<char>) -> Option<SvgIconSource> {
        registered_source(self.spec_icons(), key)
    }

    pub fn new() -> (r: SvgIconRegistry)
        ensures
            r.spec_icons().len() == 0,
    {
        SvgIconRegistry { icons: Vec::new() }
    }

    pub fn with_icon(self, key: &'static str, svg: SvgIconSource) -> (r: SvgIconRegistry)
        ensures
            r.spec_icons() == self.spec_icons().push((key, svg)),
    {
        let mut icons = self.icons;
        icons.push((key, svg));
        SvgIconRegistry { icons }
    }

    pub fn with_icon_bytes(self, key: &'static str, bytes: &'static [u8]) -> (r: SvgIconRegistry)
        ensures
            r.spec_icons() == self.spec_icons().push((key, SvgIconSource::Bytes(bytes))),
    {
        self.with_icon(key, SvgIconSource::Bytes(bytes))
    }

    pub fn with_icon_text(self, key: &'static str, svg: &'static str) -> (r: SvgIconRegistry)
        ensures
            r.spec_icons() == self.spec_icons().push((key, SvgIconSource::Text(svg))),
    {
        self.with_icon(key, SvgIconSource::Text(svg))
    }

    /// The source registered under `key`, if any.
    pub fn source(&self, key: &str) -> (r: Option<SvgIconSource>)
        ensures
            r == self.source_of(key@),
    {
        let mut i = self.icons.len();
        assert(self.icons@.take(i as int) =~= self.icons@);
        while i > 0
            invariant
                i <= self.icons@.len(),
                registered_source(self.icons@, key@) == registered_source(self.icons@.take(i as int), key@),
            decreases i,
        {
            assert(self.icons@.take(i as int).drop_last() =~= self.icons@.take(i - 1));
            if str_equal(self.icons[i - 1].0, key) {
                return Some(self.icons[i - 1].1);
            }
            i = i - 1;
        }
        None
    }
}

/// Font files that SVG text may use.
pub struct SvgFontRegistry {
    fonts: Vec<&'static [u8]>,
}

impl SvgFontRegistry {
    pub closed spec fn spec_fonts(self) -> Seq<Seq<u8>> {
        self.fonts@.map_values(|f: &'static [u8]| f@)
    }

    pub fn new() -> (r: SvgFontRegistry)
        ensures
            r.spec_fonts().len() == 0,
    {
        SvgFontRegistry { fonts: Vec::new() }
    }

    /// This registry with one more font file.
    pub fn with_font_bytes(self, bytes: &'static [u8]) -> (r: SvgFontRegistry)
        ensures
            r.spec_fonts() == self.spec_fonts().push(bytes@),
    {
        let mut fonts = self.fonts;
        let ghost before = fonts@;
        fonts.push(bytes);
        let r = SvgFontRegistry { fonts };
        assert(r.spec_fonts() =~= self.spec_fonts().push(bytes@));
        r
    }

    /// The font files, in registration order.
    pub fn fonts(&self) -> (r: &Vec<&'static [u8]>)
        ensures
            r@.map_values(|f: &'static [u8]| f@) == self.spec_fonts(),
    {
        &self.fonts
    }
}

/// An icon rasterised to premultiplied BGRA pixels.
pub struct SvgBitmap {
    pub width: i32,
    pub height: i32,
    pub premultiplied_bgra: Vec<u8>,
}

/// What a rasterised icon is cached by.
#[derive(Clone, Copy, Debug)]
pub struct SvgCacheKey {
    pub key: &'static str,
    pub width: i32,
    pub height: i32,
    pub color: u32,
    pub alpha: u8,
}

pub open spec fn same_key(a: SvgCacheKey, b: SvgCacheKey) -> bool {
    a.key@ == b.key@ && a.width == b.width && a.height == b.height && a.color == b.color && a.alpha == b.alpha
}

fn keys_equal(a: &SvgCacheKey, b: &SvgCacheKey) -> (r: bool)
    ensures
        r == same_key(*a, *b),
{
    a.width == b.width && a.height == b.height && a.color == b.color && a.alpha == b.alpha && str_equal(
        a.key,
        b.key,
    )
}

/// The icon registries and the rasterised icons of an application.
pub struct SvgState {
    icons: Option<SvgIconRegistry>,
    fonts: Option<SvgFontRegistry>,
    cache: Vec<(SvgCacheKey, SvgBitmap)>,
}

impl SvgState {
    pub closed spec fn has_icons(self) -> bool {
        self.icons is Some
    }

    pub closed spec fn has_fonts(self) -> bool {
        self.fonts is Some
    }

    pub closed spec fn spec_icons(self) -> Option<SvgIconRegistry> {
        self.icons
    }

    /// The font files of the installed font registry, in registration order, if one is
    /// installed.
    pub closed spec fn installed_fonts(self) -> Option<Seq<Seq<u8>>> {
        match self.fonts {
            Some(registry) => Some(registry.spec_fonts()),
            None => None,
        }
    }

    /// The keys of the rasterised icons, in the order they were stored.
    pub closed spec fn stored_keys(self) -> Seq<SvgCacheKey> {
        self.cache@.map_values(|e: (SvgCacheKey, SvgBitmap)| e.0)
    }

    pub closed spec fn cached_count(self) -> nat {
        self.cache@.len()
    }

    /// The cached bitmap for `key`, as width, height and pixels.
    pub closed spec fn cached(self, key: SvgCacheKey) -> Option<(i32, i32, Seq<u8>)> {
        cached_in(self.cache@, key)
    }

    /// The installed font registry, if any.
    pub fn font_registry(&self) -> (r: Option<&SvgFontRegistry>)
        ensures
            r is Some == self.has_fonts(),
            match r {
                Some(registry) => self.installed_fonts() == Some(registry.spec_fonts()),
                None => self.installed_fonts() is None,
            },
    {
        match &self.fonts {
            Some(fonts) => Some(fonts),
            None => None,
        }
    }

    pub fn new() -> (r: SvgState)
        ensures
            !r.has_icons(),
            !r.has_fonts(),
            r.installed_fonts() is None,
            r.cached_count() == 0,
    {
        SvgState { icons: None, fonts: None, cache: Vec::new() }
    }
}

pub open spec fn cached_in(cache: Seq<(SvgCacheKey, SvgBitmap)>, key: SvgCacheKey) -> Option<(i32, i32, Seq<u8>)>
    decreases cache.len(),
{
    if cache.len() == 0 {
        None
    } else if same_key(cache.last().0, key) {
        Some((cache.last().1.width, cache.last().1.height, cache.last().1.premultiplied_bgra@))
    } else {
        cached_in(cache.drop_last(), key)
    }
}

/// Whether two cache keys name the same icon, size, colour and alpha.
pub open spec fn keys_match(a: SvgCacheKey, b: SvgCacheKey) -> bool {
    &&& a.key@ == b.key@
    &&& a.width == b.width
    &&& a.height == b.height
    &&& a.color == b.color
    &&& a.alpha == b.alpha
}

proof fn lemma_cached_in_keys(cache: Seq<(SvgCacheKey, SvgBitmap)>, k: SvgCacheKey)
    ensures
        cached_in(cache, k) is Some ==> exists|i: int| 0 <= i < cache.len() && #[trigger] keys_match(cache[i].0, k),
        (forall|i: int| 0 <= i < cache.len() ==> !#[trigger] keys_match(cache[i].0, k)) ==> cached_in(cache, k) is None,
    decreases cache.len(),
{
    if cache.len() > 0 {
        lemma_cached_in_keys(cache.drop_last(), k);
        if cached_in(cache, k) is Some {
            if keys_match(cache.last().0, k) {
                assert(keys_match(cache[cache.len() - 1].0, k));
            } else {
                let i = choose|i: int| 0 <= i < cache.drop_last().len() && #[trigger] keys_match(cache.drop_last()[i].0, k);
                assert(cache[i] == cache.drop_last()[i]);
            }
        }
        if forall|i: int| 0 <= i < cache.len() ==> !#[trigger] keys_match(cache[i].0, k) {
            assert(!keys_match(cache[cache.len() - 1].0, k));
            assert forall|i: int| 0 <= i < cache.drop_last().len() implies !#[trigger] keys_match(cache.drop_last()[i].0, k) by {
                assert(cache[i] == cache.drop_last()[i]);
            }
        }
    }
}

/// A rasterised icon is found only under a stored key that names the same icon, size,
/// colour and alpha: a request whose colour (or any other part) differs from every stored
/// key finds nothing, so it is rendered afresh in the requested colour.
pub proof fn law_cached_only_under_the_same_key(state: SvgState, k: SvgCacheKey)
    ensures
        state.cached(k) is Some ==> exists|i: int|
            0 <= i < state.stored_keys().len() && #[trigger] keys_match(state.stored_keys()[i], k),
        (forall|i: int| 0 <= i < state.stored_keys().len() ==> #[trigger] state.stored_keys()[i].color != k.color)
            ==> state.cached(k) is None,
{
    lemma_cached_in_keys(state.cache@, k);
    if state.cached(k) is Some {
        let i = choose|i: int| 0 <= i < state.cache@.len() && #[trigger] keys_match(state.cache@[i].0, k);
        assert(state.stored_keys()[i] == state.cache@[i].0);
    }
    if forall|i: int| 0 <= i < state.stored_keys().len() ==> #[trigger] state.stored_keys()[i].color != k.color {
        assert forall|i: int| 0 <= i < state.cache@.len() implies !#[trigger] keys_match(state.cache@[i].0, k) by {
            assert(state.stored_keys()[i] == state.cache@[i].0);
        }
    }
}

/// Installs the application's icons, once: a second registry is refused and the first
/// stays. Installing clears the rasterised icons.
pub fn install_svg_icon_registry(state: &mut SvgState, registry: SvgIconRegistry) -> (r: bool)
    ensures
        r == !old(state).has_icons(),
        final(state).has_icons(),
        final(state).has_fonts() == old(state).has_fonts(),
        final(state).installed_fonts() == old(state).installed_fonts(),
        r ==> final(state).spec_icons() == Some(registry) && final(state).cached_count() == 0,
        !r ==> *final(state) == *old(state),
{
    if state.icons.is_some() {
        return false;
    }
    state.icons = Some(registry);
    state.cache = Vec::new();
    true
}

/// One font install on the installed fonts: the first registry is taken, and the call
/// says whether it was; once fonts are installed a later registry changes nothing.
pub open spec fn font_install_step(installed: Option<Seq<Seq<u8>>>, fonts: Seq<Seq<u8>>) -> (
    Option<Seq<Seq<u8>>>,
    bool,
) {
    match installed {
        None => (Some(fonts), true),
        Some(f) => (Some(f), false),
    }
}

/// The installed fonts, and what each call answered, after installing `registries` in
/// order on `installed`.
pub open spec fn font_installs(installed: Option<Seq<Seq<u8>>>, registries: Seq<Seq<Seq<u8>>>) -> (
    Option<Seq<Seq<u8>>>,
    Seq<bool>,
)
    decreases registries.len(),
{
    if registries.len() == 0 {
        (installed, Seq::empty())
    } else {
        let (before, answers) = font_installs(installed, registries.drop_last());
        let (after, answer) = font_install_step(before, registries.last());
        (after, answers.push(answer))
    }
}

/// Of registries installed one after another in a fresh state, only the first is taken:
/// the first call answers true and every later one false, and after each call the
/// installed fonts are those of the first registry.
pub proof fn law_first_font_registry_wins(registries: Seq<Seq<Seq<u8>>>)
    requires
        registries.len() > 0,
    ensures
        font_installs(None, registries).0 == Some(registries[0]),
        font_installs(None, registries).1.len() == registries.len(),
        forall|i: int| 0 <= i < registries.len() ==> #[trigger] font_installs(None, registries).1[i] == (i == 0),
    decreases registries.len(),
{
    if registries.len() > 1 {
        let rest = registries.drop_last();
        law_first_font_registry_wins(rest);
        assert(rest[0] == registries[0]);
        let answers = font_installs(None, registries).1;
        assert forall|i: int| 0 <= i < registries.len() implies #[trigger] answers[i] == (i == 0) by {
            if i < rest.len() {
                assert(answers[i] == font_installs(None, rest).1[i]);
            }
        }
    } else {
        assert(registries.drop_last() =~= Seq::<Seq<Seq<u8>>>::empty());
        assert(font_installs(None, Seq::<Seq<Seq<u8>>>::empty()) == (None::<Seq<Seq<u8>>>, Seq::<bool>::empty()));
        assert(font_installs(None, registries.drop_last()) == (None::<Seq<Seq<u8>>>, Seq::<bool>::empty()));
        assert(registries.last() == registries[0]);
        let answers = font_installs(None, registries).1;
        assert(answers =~= seq![true]);
    }
}

/// Installs the fonts SVG text may use, once: a second registry is refused and the first
/// stays. Installing clears the rasterised icons.
pub fn install_svg_font_registry(state: &mut SvgState, registry: SvgFontRegistry) -> (r: bool)
    ensures
        r == !old(state).has_fonts(),
        final(state).has_fonts(),
        final(state).has_icons() == old(state).has_icons(),
        final(state).spec_icons() == old(state).spec_icons(),
        r ==> final(state).installed_fonts() == Some(registry.spec_fonts()),
        (final(state).installed_fonts(), r) == font_install_step(old(state).installed_fonts(), registry.spec_fonts()),
        r ==> final(state).cached_count() == 0,
        !r ==> *final(state) == *old(state),
{
    if state.fonts.is_some() {
        return false;
    }
    state.fonts = Some(registry);
    state.cache = Vec::new();
    true
}

/// The SVG text of an icon: the application's registration of `key` when it has one that
/// yields text, else a built-in icon.
pub open spec fn resolved_svg_of(icons: Option<SvgIconRegistry>, key: Seq<char>, builtin: Option<Seq<char>>) -> Option<Seq<char>> {
    let registered = match icons {
        Some(registry) => match registry.source_of(key) {
            Some(source) => source_svg_of(source),
            None => None,
        },
        None => None,
    };
    match registered {
        Some(svg) => Some(svg),
        None => builtin,
    }
}

/// The SVG text of the icon `key`.
pub fn resolve_svg(state: &SvgState, key: &str) -> (r: Option<String>)
    ensures
        match r {
            Some(s) => resolved_svg_of(state.spec_icons(), key@, builtin_svg_of(key@)) == Some(s@),
            None => resolved_svg_of(state.spec_icons(), key@, builtin_svg_of(key@)) is None,
        },
{
    let registered = match &state.icons {
        Some(registry) => match registry.source(key) {
            Some(source) => source.to_svg(),
            None => None,
        },
        None => None,
    };
    match registered {
        Some(svg) => {
            Some(svg)
        },
        None => {
            let builtin = builtin_svg(key);
            match builtin {
                Some(svg) => {
                    Some(svg)
                },
                None => None,
            }
        },
    }
}

/// The cache key of an icon of `key` at a size; sizes below one pixel count as one.
pub open spec fn raster_key_of(key: &'static str, width: i32, height: i32, color: u32, alpha: u8) -> SvgCacheKey {
    SvgCacheKey {
        key,
        width: if width < 1 {
            1
        } else {
            width
        },
        height: if height < 1 {
            1
        } else {
            height
        },
        color,
        alpha,
    }
}

/// What rasterising an icon takes.
pub enum SvgRasterStep {
    /// The icon is cached.
    Cached { width: i32, height: i32, premultiplied_bgra: Vec<u8> },
    /// The icon must be rendered from this tinted SVG text, `width` x `height` pixels.
    Render { svg: String, width: i32, height: i32 },
    /// No SVG text is known for the key.
    Missing,
}

/// The first step of rasterising the icon `key` at a size: the cached bitmap, or the
/// tinted SVG text to render. Sizes below one pixel count as one.
pub fn svg_raster_step(state: &SvgState, key: &'static str, width: i32, height: i32, color: u32, alpha: u8) -> (r: SvgRasterStep)
    ensures
        ({
            let k = raster_key_of(key, width, height, color, alpha);
            match r {
                SvgRasterStep::Cached { width: cw, height: ch, premultiplied_bgra } => state.cached(k)
                    == Some((cw, ch, premultiplied_bgra@)),
                SvgRasterStep::Render { svg, width: rw, height: rh } => {
                    &&& state.cached(k) is None
                    &&& rw == k.width
                    &&& rh == k.height
                    &&& resolved_svg_of(state.spec_icons(), key@, builtin_svg_of(key@)) matches Some(
                        text,
                    ) && svg@ == tinted_svg_of(text, color, alpha)
                },
                SvgRasterStep::Missing => state.cached(k) is None && resolved_svg_of(
                    state.spec_icons(),
                    key@,
                    builtin_svg_of(key@),
                ) is None,
            }
        }),
{
    let w = if width < 1 {
        1
    } else {
        width
    };
    let h = if height < 1 {
        1
    } else {
        height
    };
    let k = SvgCacheKey { key, width: w, height: h, color, alpha };
    assert(k == raster_key_of(key, width, height, color, alpha));
    let mut i = state.cache.len();
    assert(state.cache@.take(i as int) =~= state.cache@);
    while i > 0
        invariant
            i <= state.cache@.len(),
            k == raster_key_of(key, width, height, color, alpha),
            cached_in(state.cache@, k) == cached_in(state.cache@.take(i as int), k),
        decreases i,
    {
        assert(state.cache@.take(i as int).drop_last() =~= state.cache@.take(i - 1));
        assert(state.cache@.take(i as int).last() == state.cache@[i - 1]);
        if keys_equal(&state.cache[i - 1].0, &k) {
            let bitmap = &state.cache[i - 1].1;
            let pixels = bitmap.premultiplied_bgra.clone();
            assert(pixels@ =~= bitmap.premultiplied_bgra@);
            return SvgRasterStep::Cached {
                width: bitmap.width,
                height: bitmap.height,
                premultiplied_bgra: pixels,
            };
        }
        i = i - 1;
    }
    match resolve_svg(state, key) {
        Some(svg) => {
            let tinted = tint_svg(svg.as_str(), color, alpha);
            SvgRasterStep::Render { svg: tinted, width: w, height: h }
        },
        None => SvgRasterStep::Missing,
    }
}

/// The second step of rasterising an icon: stores the rendered RGBA pixels as
/// premultiplied BGRA under the key, and returns the bitmap.
pub fn store_svg_raster(
    state: &mut SvgState,
    key: &'static str,
    width: i32,
    height: i32,
    color: u32,
    alpha: u8,
    rgba: &[u8],
) -> (r: SvgBitmap)
    ensures
        r.width == width,
        r.height == height,
        r.premultiplied_bgra@ == premultiplied_bgra_of(rgba@),
        final(state).cached(SvgCacheKey { key, width, height, color, alpha }) == Some(
            (width, height, premultiplied_bgra_of(rgba@)),
        ),
        final(state).spec_icons() == old(state).spec_icons(),
        final(state).has_fonts() == old(state).has_fonts(),
        final(state).installed_fonts() == old(state).installed_fonts(),
        final(state).stored_keys() == old(state).stored_keys().push(SvgCacheKey { key, width, height, color, alpha }),
{
    let pixels = rgba_to_premultiplied_bgra(rgba);
    let copy = pixels.clone();
    assert(copy@ =~= pixels@);
    let key_value = SvgCacheKey { key, width, height, color, alpha };
    let ghost before = state.cache@;
    state.cache.push((key_value, SvgBitmap { width, height, premultiplied_bgra: pixels }));
    assert(state.stored_keys() =~= before.map_values(|e: (SvgCacheKey, SvgBitmap)| e.0).push(key_value));
    SvgBitmap { width, height, premultiplied_bgra: copy }
}

} // verus!
