//! Color spaces, components, channel masks, and fixed-point color values.
//!
//! A scalar channel value is held as a signed 64-bit integer in fixed-point
//! form: `UNIT` stands for 1.0, so saturation, lightness, value and the RGB
//! channels lie in `[0, UNIT]`. A hue is an angle held in `UNIT`ths of a
//! degree, in `[0, 360 * UNIT)`. `UNIT` is a multiple of 255, so the eight-bit
//! channels of a pixel convert to scalars and back without loss.
use crate::text::str_eq;
use vstd::arithmetic::div_mod::{
    lemma_basic_div, lemma_div_by_self, lemma_div_is_ordered, lemma_div_multiples_vanish, lemma_div_non_zero, lemma_div_nonincreasing,
    lemma_div_of0, lemma_div_pos_is_pos,
    lemma_div_denominator, lemma_div_multiples_vanish_quotient, lemma_fundamental_div_mod,
    lemma_fundamental_div_mod_converse, lemma_mod_division_less_than_divisor,
    lemma_multiply_divide_le, lemma_multiply_divide_lt,
};
use vstd::arithmetic::mul::lemma_mul_inequality;
use vstd::prelude::*;

verus! {

/// One whole unit of a scalar channel value (the fixed-point scale).
pub const UNIT: i64 = 255 * 2048;

/// A full hue turn: 360 degrees in `UNIT`ths of a degree.
pub const HUE_FULL: i64 = 360 * (255 * 2048);

/// Sixty degrees of hue, one sector of the hue circle.
pub const HUE_SECTOR: i64 = 60 * (255 * 2048);

/// Enumerates color spaces.
#[derive(Clone, Copy, Debug, PartialEq, Eq, Structural)]
pub enum ColorSpace {
    HSL,
    HSV,
    RGB,
}

/// Enumerates components from all spaces.
#[derive(Clone, Copy, Debug, PartialEq, Eq, Structural)]
pub enum ColorComponent {
    Hue,
    Saturation,
    Lightness,
    Value,
    Red,
    Green,
    Blue,
}

/// The color space a component belongs to. Hue and Saturation are tagged
/// HSL only: a mask or comparison request for them never targets HSV.
pub open spec fn spec_color_space(component: ColorComponent) -> ColorSpace {
    match component {
        ColorComponent::Hue => ColorSpace::HSL,
        ColorComponent::Saturation => ColorSpace::HSL,
        ColorComponent::Lightness => ColorSpace::HSL,
        ColorComponent::Value => ColorSpace::HSV,
        ColorComponent::Red => ColorSpace::RGB,
        ColorComponent::Green => ColorSpace::RGB,
        ColorComponent::Blue => ColorSpace::RGB,
    }
}

/// The index of a component in a value triplet of its color space.
pub open spec fn spec_index(component: ColorComponent) -> int {
    match component {
        ColorComponent::Hue => 0,
        ColorComponent::Saturation => 1,
        ColorComponent::Lightness => 2,
        ColorComponent::Value => 2,
        ColorComponent::Red => 0,
        ColorComponent::Green => 1,
        ColorComponent::Blue => 2,
    }
}

/// Parsing of a component name: exact and case-sensitive, from the fixed
/// vocabulary of seven names; anything else is rejected.
pub open spec fn spec_component_from_str(s: Seq<char>) -> Result<ColorComponent, ()> {
    if s == "Hue"@ {
        Ok(ColorComponent::Hue)
    } else if s == "Saturation"@ {
        Ok(ColorComponent::Saturation)
    } else if s == "Lightness"@ {
        Ok(ColorComponent::Lightness)
    } else if s == "Value"@ {
        Ok(ColorComponent::Value)
    } else if s == "Red"@ {
        Ok(ColorComponent::Red)
    } else if s == "Green"@ {
        Ok(ColorComponent::Green)
    } else if s == "Blue"@ {
        Ok(ColorComponent::Blue)
    } else {
        Err(())
    }
}

impl ColorComponent {
    /// Gets the color space the component belongs to.
    pub fn color_space(&self) -> (space: ColorSpace)
        ensures
            space == spec_color_space(*self),
    {
        match *self {
            ColorComponent::Hue => ColorSpace::HSL,
            ColorComponent::Saturation => ColorSpace::HSL,
            ColorComponent::Lightness => ColorSpace::HSL,
            ColorComponent::Value => ColorSpace::HSV,
            ColorComponent::Red => ColorSpace::RGB,
            ColorComponent::Green => ColorSpace::RGB,
            ColorComponent::Blue => ColorSpace::RGB,
        }
    }

    /// Gets the index of the component in a value triplet of the relevant
    /// color space.
    pub fn index(&self) -> (i: usize)
        ensures
            i == spec_index(*self),
            i < 3,
    {
        match *self {
            ColorComponent::Hue => 0,
            ColorComponent::Saturation => 1,
            ColorComponent::Lightness => 2,
            ColorComponent::Value => 2,
            ColorComponent::Red => 0,
            ColorComponent::Green => 1,
            ColorComponent::Blue => 2,
        }
    }

    /// Parses a component name. Returns `Err(())` exactly on strings outside
    /// the seven-name vocabulary.
    pub fn from_str(source: &str) -> (r: Result<ColorComponent, ()>)
        ensures
            r == spec_component_from_str(source@),
    {
        if str_eq(source, "Hue") {
            Ok(ColorComponent::Hue)
        } else if str_eq(source, "Saturation") {
            Ok(ColorComponent::Saturation)
        } else if str_eq(source, "Lightness") {
            Ok(ColorComponent::Lightness)
        } else if str_eq(source, "Value") {
            Ok(ColorComponent::Value)
        } else if str_eq(source, "Red") {
            Ok(ColorComponent::Red)
        } else if str_eq(source, "Green") {
            Ok(ColorComponent::Green)
        } else if str_eq(source, "Blue") {
            Ok(ColorComponent::Blue)
        } else {
            Err(())
        }
    }
}

/// Masks components of a color space.
#[derive(Clone, Debug)]
pub struct ColorSpaceMask {
    pub space: ColorSpace,
    pub components: [bool; 3],
}

/// The space a mask built from the given names declares: the space of the
/// first name that parses successfully, and RGB (the space of Red) when
/// none does.
pub open spec fn spec_mask_space(s0: Seq<char>, s1: Seq<char>, s2: Seq<char>) -> ColorSpace {
    if spec_component_from_str(s0) is Ok {
        spec_color_space(spec_component_from_str(s0)->Ok_0)
    } else if spec_component_from_str(s1) is Ok {
        spec_color_space(spec_component_from_str(s1)->Ok_0)
    } else if spec_component_from_str(s2) is Ok {
        spec_color_space(spec_component_from_str(s2)->Ok_0)
    } else {
        ColorSpace::RGB
    }
}

/// Whether one parsed name contributes channel `j` to a mask of `space`:
/// it must parse, belong to that space, and address index `j`.
pub open spec fn spec_mask_bit(space: ColorSpace, parsed: Result<ColorComponent, ()>, j: int) -> bool {
    match parsed {
        Ok(component) => spec_color_space(component) == space && spec_index(component) == j,
        Err(_) => false,
    }
}

/// Channel `j` of the mask built from three names: set when any of the
/// names contributes it.
pub open spec fn spec_mask_component(
    space: ColorSpace,
    s0: Seq<char>,
    s1: Seq<char>,
    s2: Seq<char>,
    j: int,
) -> bool {
    ||| spec_mask_bit(space, spec_component_from_str(s0), j)
    ||| spec_mask_bit(space, spec_component_from_str(s1), j)
    ||| spec_mask_bit(space, spec_component_from_str(s2), j)
}

impl ColorSpaceMask {
    /// Whether one parsed name sets channel `j` of a mask of `space`.
    fn bit(space: ColorSpace, parsed: &Result<ColorComponent, ()>, j: usize) -> (r: bool)
        ensures
            r == spec_mask_bit(space, *parsed, j as int),
    {
        match parsed {
            Ok(component) => component.color_space() == space && component.index() == j,
            Err(_) => false,
        }
    }

    /// Builds a mask from up to three component names. The mask's space
    /// comes from the first name that parses (RGB when none does); a name
    /// sets its channel only when it parses to a component of that space;
    /// unrecognized and cross-space names are silently dropped.
    pub fn from(source: [&str; 3]) -> (mask: ColorSpaceMask)
        ensures
            mask.space == spec_mask_space(source@[0]@, source@[1]@, source@[2]@),
            forall|j: int|
                0 <= j < 3 ==> mask.components@[j] == spec_mask_component(
                    mask.space,
                    source@[0]@,
                    source@[1]@,
                    source@[2]@,
                    j,
                ),
    {
        let p0 = ColorComponent::from_str(source[0]);
        let p1 = ColorComponent::from_str(source[1]);
        let p2 = ColorComponent::from_str(source[2]);
        let space = match p0 {
            Ok(component) => component.color_space(),
            Err(_) => match p1 {
                Ok(component) => component.color_space(),
                Err(_) => match p2 {
                    Ok(component) => component.color_space(),
                    Err(_) => ColorSpace::RGB,
                },
            },
        };
        let b0 = Self::bit(space, &p0, 0) || Self::bit(space, &p1, 0) || Self::bit(space, &p2, 0);
        let b1 = Self::bit(space, &p0, 1) || Self::bit(space, &p1, 1) || Self::bit(space, &p2, 1);
        let b2 = Self::bit(space, &p0, 2) || Self::bit(space, &p1, 2) || Self::bit(space, &p2, 2);
        ColorSpaceMask { space, components: [b0, b1, b2] }
    }
}

/// One whole unit, as a mathematical integer.
pub open spec fn unit() -> int {
    UNIT as int
}

/// A full hue turn, as a mathematical integer.
pub open spec fn hue_full() -> int {
    HUE_FULL as int
}

/// Sixty degrees of hue, as a mathematical integer.
pub open spec fn hue_sector() -> int {
    HUE_SECTOR as int
}

/// A linear channel value lies between zero and one whole unit.
pub open spec fn spec_scalar_wf(v: int) -> bool {
    0 <= v <= unit()
}

/// A hue lies on the circle: at least zero, under a full turn.
pub open spec fn spec_hue_wf(v: int) -> bool {
    0 <= v < hue_full()
}

/// Whether a component triplet is within range for its color space.
pub open spec fn spec_triple_wf(space: ColorSpace, t: (int, int, int)) -> bool {
    match space {
        ColorSpace::RGB => spec_scalar_wf(t.0) && spec_scalar_wf(t.1) && spec_scalar_wf(t.2),
        _ => spec_hue_wf(t.0) && spec_scalar_wf(t.1) && spec_scalar_wf(t.2),
    }
}

/// The largest of three values.
pub open spec fn spec_max3(a: int, b: int, c: int) -> int {
    if a >= b && a >= c {
        a
    } else if b >= c {
        b
    } else {
        c
    }
}

/// The smallest of three values.
pub open spec fn spec_min3(a: int, b: int, c: int) -> int {
    if a <= b && a <= c {
        a
    } else if b <= c {
        b
    } else {
        c
    }
}

/// The hue of an RGB triplet: the chroma-based sector formula, zero for
/// gray, in `UNIT`ths of a degree.
pub open spec fn spec_hue_from_rgb(r: int, g: int, b: int) -> int {
    let mx = spec_max3(r, g, b);
    let mn = spec_min3(r, g, b);
    let c = mx - mn;
    if c == 0 {
        0
    } else if mx == r {
        if g >= b {
            (g - b) * hue_sector() / c
        } else {
            hue_full() - (b - g) * hue_sector() / c
        }
    } else if mx == g {
        // Green is the largest channel: the hue lies a third of the circle
        // on, in the third sector or mirrored into the second.
        if b >= r {
            2 * hue_sector() + (b - r) * hue_sector() / c
        } else {
            2 * hue_sector() - (r - b) * hue_sector() / c
        }
    } else {
        if r >= g {
            4 * hue_sector() + (r - g) * hue_sector() / c
        } else {
            4 * hue_sector() - (g - r) * hue_sector() / c
        }
    }
}

/// HSL lightness: the mean of the largest and smallest RGB channel.
pub open spec fn spec_lightness(mx: int, mn: int) -> int {
    (mx + mn) / 2
}

/// HSL saturation: chroma over the headroom of the lightness.
pub open spec fn spec_sat_hsl(mx: int, mn: int) -> int {
    let c = mx - mn;
    if c == 0 {
        0
    } else if mx + mn <= unit() {
        c * unit() / (mx + mn)
    } else {
        c * unit() / (2 * unit() - (mx + mn))
    }
}

/// HSV saturation: chroma over the value.
pub open spec fn spec_sat_hsv(mx: int, mn: int) -> int {
    if mx == mn {
        0
    } else {
        (mx - mn) * unit() / mx
    }
}

/// RGB to HSL, componentwise.
pub open spec fn spec_rgb_to_hsl(r: int, g: int, b: int) -> (int, int, int) {
    let mx = spec_max3(r, g, b);
    let mn = spec_min3(r, g, b);
    (spec_hue_from_rgb(r, g, b), spec_sat_hsl(mx, mn), spec_lightness(mx, mn))
}

/// RGB to HSV, componentwise.
pub open spec fn spec_rgb_to_hsv(r: int, g: int, b: int) -> (int, int, int) {
    let mx = spec_max3(r, g, b);
    let mn = spec_min3(r, g, b);
    (spec_hue_from_rgb(r, g, b), spec_sat_hsv(mx, mn), mx)
}

/// The chroma of an HSL pair: saturation scaled by the lightness headroom.
pub open spec fn spec_chroma_hsl(s: int, l: int) -> int {
    let d = if 2 * l >= unit() {
        2 * l - unit()
    } else {
        unit() - 2 * l
    };
    (unit() - d) * s / unit()
}

/// The secondary chroma component: chroma scaled by the distance of the
/// hue from the nearest secondary color axis.
pub open spec fn spec_hue_x(h: int, c: int) -> int {
    let v = (h % (2 * hue_sector())) / 60;
    let e = if v >= unit() {
        v - unit()
    } else {
        unit() - v
    };
    c * (unit() - e) / unit()
}

/// Distributes chroma, secondary component and offset over the RGB
/// channels according to the hue sector.
pub open spec fn spec_sector_rgb(k: int, c: int, x: int, m: int) -> (int, int, int) {
    if k == 0 {
        (c + m, x + m, m)
    } else if k == 1 {
        (x + m, c + m, m)
    } else if k == 2 {
        (m, c + m, x + m)
    } else if k == 3 {
        (m, x + m, c + m)
    } else if k == 4 {
        (x + m, m, c + m)
    } else {
        (c + m, m, x + m)
    }
}

/// HSL to RGB, componentwise.
pub open spec fn spec_hsl_to_rgb(h: int, s: int, l: int) -> (int, int, int) {
    let c = spec_chroma_hsl(s, l);
    let x = spec_hue_x(h, c);
    let m = l - c / 2;
    spec_sector_rgb(h / hue_sector(), c, x, m)
}

/// HSV to RGB, componentwise.
pub open spec fn spec_hsv_to_rgb(h: int, s: int, v: int) -> (int, int, int) {
    let c = v * s / unit();
    let x = spec_hue_x(h, c);
    let m = v - c;
    spec_sector_rgb(h / hue_sector(), c, x, m)
}

/// Conversion between any two spaces. A conversion to the same space is
/// the identity; HSL and HSV convert to one another through RGB.
pub open spec fn spec_convert(from: ColorSpace, t: (int, int, int), to: ColorSpace) -> (
    int,
    int,
    int,
) {
    if from == to {
        t
    } else {
        match (from, to) {
            (ColorSpace::HSL, ColorSpace::RGB) => spec_hsl_to_rgb(t.0, t.1, t.2),
            (ColorSpace::HSL, _) => {
                let rgb = spec_hsl_to_rgb(t.0, t.1, t.2);
                spec_rgb_to_hsv(rgb.0, rgb.1, rgb.2)
            },
            (ColorSpace::HSV, ColorSpace::RGB) => spec_hsv_to_rgb(t.0, t.1, t.2),
            (ColorSpace::HSV, _) => {
                let rgb = spec_hsv_to_rgb(t.0, t.1, t.2);
                spec_rgb_to_hsl(rgb.0, rgb.1, rgb.2)
            },
            (ColorSpace::RGB, ColorSpace::HSL) => spec_rgb_to_hsl(t.0, t.1, t.2),
            (ColorSpace::RGB, _) => spec_rgb_to_hsv(t.0, t.1, t.2),
        }
    }
}

/// The scalar a channel byte stands for: the byte scaled into `[0, UNIT]`.
pub open spec fn spec_scalar_of_byte(b: int) -> int {
    b * 2048
}

/// The channel byte a scalar stands for: scaled by 255 and truncated.
pub open spec fn spec_byte_of_scalar(v: int) -> int {
    v * 255 / unit()
}

/// A channel byte survives the trip through its fixed-point scalar exactly:
/// scaling into `[0, UNIT]` and truncating back reproduces the byte.
pub proof fn lemma_byte_scalar_round_trip(b: int)
    requires
        0 <= b <= 255,
    ensures
        spec_byte_of_scalar(spec_scalar_of_byte(b)) == b,
{
    assert(b * 2048 * 255 == ((255 * 2048) as int) * b) by (nonlinear_arith);
    lemma_div_multiples_vanish(b, (255 * 2048) as int);
}

/// An RGB byte triplet survives conversion to a color and back: converting
/// to RGB space is the identity, and the byte conversion is exact.
pub proof fn lemma_rgb_byte_round_trip(r: int, g: int, b: int)
    requires
        0 <= r <= 255,
        0 <= g <= 255,
        0 <= b <= 255,
    ensures
        spec_convert(
            ColorSpace::RGB,
            (spec_scalar_of_byte(r), spec_scalar_of_byte(g), spec_scalar_of_byte(b)),
            ColorSpace::RGB,
        ) == (spec_scalar_of_byte(r), spec_scalar_of_byte(g), spec_scalar_of_byte(b)),
        spec_byte_of_scalar(spec_scalar_of_byte(r)) == r,
        spec_byte_of_scalar(spec_scalar_of_byte(g)) == g,
        spec_byte_of_scalar(spec_scalar_of_byte(b)) == b,
{
    lemma_byte_scalar_round_trip(r);
    lemma_byte_scalar_round_trip(g);
    lemma_byte_scalar_round_trip(b);
}

/// A gray value survives the trip through either hue-based space exactly:
/// equal RGB channels convert to zero hue and saturation with their level
/// as lightness or value, and convert back to the same equal channels.
pub proof fn lemma_gray_round_trip(v: int)
    requires
        0 <= v <= unit(),
    ensures
        spec_convert(ColorSpace::RGB, (v, v, v), ColorSpace::HSL) == (0int, 0int, v),
        spec_convert(ColorSpace::HSL, (0int, 0int, v), ColorSpace::RGB) == (v, v, v),
        spec_convert(ColorSpace::RGB, (v, v, v), ColorSpace::HSV) == (0int, 0int, v),
        spec_convert(ColorSpace::HSV, (0int, 0int, v), ColorSpace::RGB) == (v, v, v),
{
    assert((v + v) / 2 == v) by {
        lemma_div_multiples_vanish(v, 2);
        assert(v + v == 2 * v);
    }
    assert(spec_chroma_hsl(0, v) == 0) by {
        let d = if 2 * v >= unit() {
            2 * v - unit()
        } else {
            unit() - 2 * v
        };
        assert((unit() - d) * 0 == 0) by (nonlinear_arith);
        lemma_div_of0(unit());
    }
    assert(spec_hue_x(0, 0) == 0) by {
        lemma_mod_division_less_than_divisor(0int, 2 * hue_sector());
        lemma_div_pos_is_pos(0int % (2 * hue_sector()), 60);
        lemma_div_nonincreasing(0int % (2 * hue_sector()), 60);
        assert(0 * (unit() - unit()) == 0) by (nonlinear_arith);
        lemma_div_of0(unit());
    }
    assert(v * 0 / unit() == 0) by {
        assert(v * 0 == 0) by (nonlinear_arith);
        lemma_div_of0(unit());
    }
    assert(spec_hue_x(0, v * 0 / unit()) == 0) by {
        lemma_mod_division_less_than_divisor(0int, 2 * hue_sector());
        lemma_div_pos_is_pos(0int % (2 * hue_sector()), 60);
        lemma_div_nonincreasing(0int % (2 * hue_sector()), 60);
        assert(0 * (unit() - unit()) == 0) by (nonlinear_arith);
        lemma_div_of0(unit());
    }
    lemma_div_of0(hue_sector());
    lemma_div_of0(2);
}

/// The chroma reconstructed from a stored HSV pair: the value times the
/// stored saturation, scaled down, is the chroma or one unit below it.
proof fn lemma_hsv_chroma_round(mx: int, mn: int)
    requires
        0 <= mn <= mx <= unit(),
    ensures
        mx - mn - 1 <= mx * spec_sat_hsv(mx, mn) / unit() <= mx - mn,
{
    let u = unit();
    let c = mx - mn;
    if mx == mn {
        assert(mx * 0 == 0) by (nonlinear_arith);
        lemma_div_of0(u);
    } else {
        let s = c * u / mx;
        assert(0 <= c * u) by (nonlinear_arith)
            requires
                0 <= c && 0 <= u,
        ;
        lemma_fundamental_div_mod(c * u, mx);
        lemma_mod_division_less_than_divisor(c * u, mx);
        let r1 = (c * u) % mx;
        assert(mx * s == c * u - r1);
        assert(c * u == u * c) by (nonlinear_arith);
        assert((c - 1) * u == c * u - u) by (nonlinear_arith);
        assert(u * (c - 1) == (c - 1) * u) by (nonlinear_arith);
        lemma_div_is_ordered(mx * s, u * c, u);
        lemma_div_multiples_vanish(c, u);
        lemma_div_is_ordered(u * (c - 1), mx * s, u);
        lemma_div_multiples_vanish(c - 1, u);
    }
}

/// Scaling a nearly-exact chroma by a nearly-exact hue fraction lands
/// within three units below and two above the original channel gap.
proof fn lemma_hue_x_bounds(gap: int, c: int, cr: int, w: int)
    requires
        0 <= gap <= c,
        1 <= c <= unit(),
        c - 2 <= cr <= c + 1,
        0 <= cr,
        gap * unit() / c <= w <= gap * unit() / c + 1,
        w <= unit(),
    ensures
        gap - 3 <= cr * w / unit() <= gap + 2,
{
    let u = unit();
    let q = gap * u / c;
    assert(0 <= gap * u) by (nonlinear_arith)
        requires
            0 <= gap && 0 <= u,
    ;
    lemma_div_pos_is_pos(gap * u, c);
    lemma_fundamental_div_mod(gap * u, c);
    lemma_mod_division_less_than_divisor(gap * u, c);
    let r2 = (gap * u) % c;
    assert(c * q == gap * u - r2);
    if gap == c {
        assert(c * u == u * c) by (nonlinear_arith);
        lemma_div_multiples_vanish(u, c);
        assert(q == u);
        assert(w == u);
        assert(cr * w <= (c + 1) * u) by (nonlinear_arith)
            requires
                0 <= cr <= c + 1 && w == u && 0 <= u,
        ;
        assert((c + 1) * u <= (gap + 2) * u) by (nonlinear_arith)
            requires
                c + 1 <= gap + 2 && 0 <= u,
        ;
        assert(u * (gap + 2) == (gap + 2) * u) by (nonlinear_arith);
        lemma_div_is_ordered(cr * w, u * (gap + 2), u);
        lemma_div_multiples_vanish(gap + 2, u);
    } else {
        assert(gap * u <= (c - 1) * u) by (nonlinear_arith)
            requires
                gap <= c - 1 && 0 <= u,
        ;
        assert((c - 1) * u < c * u) by (nonlinear_arith)
            requires
                0 < u,
        ;
        lemma_multiply_divide_lt(gap * u, c, u);
        assert(cr * w <= (c + 1) * (q + 1)) by (nonlinear_arith)
            requires
                0 <= cr <= c + 1 && 0 <= w <= q + 1,
        ;
        assert((c + 1) * (q + 1) == c * q + c + q + 1) by (nonlinear_arith);
        assert((gap + 2) * u == gap * u + 2 * u) by (nonlinear_arith);
        assert(u * (gap + 2) == (gap + 2) * u) by (nonlinear_arith);
        lemma_div_is_ordered(cr * w, u * (gap + 2), u);
        lemma_div_multiples_vanish(gap + 2, u);
    }
    assert((c - 2) * q <= cr * w) by (nonlinear_arith)
        requires
            c - 2 <= cr && 0 <= cr && 0 <= q <= w,
    ;
    assert((c - 2) * q == c * q - 2 * q) by (nonlinear_arith);
    assert((gap - 3) * u == gap * u - 3 * u) by (nonlinear_arith);
    assert(u * (gap - 3) == (gap - 3) * u) by (nonlinear_arith);
    lemma_div_is_ordered(u * (gap - 3), cr * w, u);
    lemma_div_multiples_vanish(gap - 3, u);
}

/// Dividing a stored hue offset by sixty recovers the unit-scaled channel
/// fraction exactly.
proof fn lemma_hue_fraction_forward(gap: int, c: int)
    requires
        0 <= gap,
        1 <= c,
    ensures
        gap * hue_sector() / c / 60 == gap * unit() / c,
{
    assert(0 <= gap * hue_sector()) by (nonlinear_arith)
        requires
            0 <= gap && 0 <= hue_sector(),
    ;
    assert(gap * hue_sector() == 60 * (gap * unit())) by (nonlinear_arith)
        requires
            hue_sector() == 60 * unit(),
    ;
    lemma_div_denominator(gap * hue_sector(), c, 60);
    assert(c * 60 == 60 * c) by (nonlinear_arith);
    lemma_div_multiples_vanish_quotient(60, gap * unit(), c);
}

/// In a mirrored sector the recovered hue fraction — the complement of the
/// stored offset, divided by sixty — is the channel fraction or one more.
proof fn lemma_hue_fraction_backward(gap: int, c: int)
    requires
        1 <= gap <= c,
        c <= unit(),
    ensures
        1 <= gap * hue_sector() / c <= hue_sector(),
        gap * unit() / c <= 2 * unit() - (2 * hue_sector() - gap * hue_sector() / c) / 60,
        2 * unit() - (2 * hue_sector() - gap * hue_sector() / c) / 60 <= gap * unit() / c + 1,
{
    let u = unit();
    let hs = hue_sector();
    let t = gap * hs / c;
    let q = gap * u / c;
    assert(hs <= gap * hs) by (nonlinear_arith)
        requires
            1 <= gap && 0 <= hs,
    ;
    lemma_div_non_zero(gap * hs, c);
    assert(gap * hs <= c * hs) by (nonlinear_arith)
        requires
            gap <= c && 0 <= hs,
    ;
    lemma_multiply_divide_le(gap * hs, c, hs);
    assert(0 <= gap * u) by (nonlinear_arith)
        requires
            0 <= gap && 0 <= u,
    ;
    lemma_div_pos_is_pos(gap * u, c);
    lemma_fundamental_div_mod(gap * u, c);
    lemma_mod_division_less_than_divisor(gap * u, c);
    let r2 = (gap * u) % c;
    assert(c * q == gap * u - r2);
    assert(gap * hs == 60 * (gap * u)) by (nonlinear_arith)
        requires
            hs == 60 * u,
    ;
    assert(c * (60 * q) == 60 * (c * q)) by (nonlinear_arith);
    assert(60 * (c * q) <= 60 * (gap * u)) by (nonlinear_arith)
        requires
            c * q <= gap * u,
    ;
    lemma_div_is_ordered(c * (60 * q), gap * hs, c);
    lemma_div_multiples_vanish(60 * q, c);
    assert(gap * u < c * (q + 1)) by {
        assert(c * (q + 1) == c * q + c) by (nonlinear_arith);
    }
    assert(60 * (gap * u) < 60 * (c * (q + 1))) by (nonlinear_arith)
        requires
            gap * u < c * (q + 1),
    ;
    assert(60 * (c * (q + 1)) == c * (60 * q + 60)) by (nonlinear_arith);
    lemma_multiply_divide_lt(gap * hs, c, 60 * q + 60);
    assert(2 * hs == 120 * u) by (nonlinear_arith)
        requires
            hs == 60 * u,
    ;
    if t == 60 * q {
        assert((2 * u - q) * 60 == 120 * u - 60 * q) by (nonlinear_arith);
        lemma_fundamental_div_mod_converse(2 * hs - t, 60, 2 * u - q, 0);
    } else {
        let rho = t - 60 * q;
        assert((2 * u - q - 1) * 60 == 120 * u - 60 * q - 60) by (nonlinear_arith);
        lemma_fundamental_div_mod_converse(2 * hs - t, 60, 2 * u - q - 1, 60 - rho);
    }
}

/// The round trip of an RGB triplet through HSV: convert to hue,
/// saturation and value, then back to RGB.
pub open spec fn spec_rgb_through_hsv(r: int, g: int, b: int) -> (int, int, int) {
    let hsv = spec_rgb_to_hsv(r, g, b);
    spec_hsv_to_rgb(hsv.0, hsv.1, hsv.2)
}

/// Converting any in-range RGB triplet to HSV and back lands within three
/// units of the original on every channel — far below one byte step.
#[verifier::rlimit(100)]
pub proof fn lemma_hsv_round_trip(r: int, g: int, b: int)
    requires
        0 <= r <= unit(),
        0 <= g <= unit(),
        0 <= b <= unit(),
    ensures
        r - 3 <= spec_rgb_through_hsv(r, g, b).0 <= r + 3,
        g - 3 <= spec_rgb_through_hsv(r, g, b).1 <= g + 3,
        b - 3 <= spec_rgb_through_hsv(r, g, b).2 <= b + 3,
{
    let u = unit();
    let hs = hue_sector();
    let mx = spec_max3(r, g, b);
    let mn = spec_min3(r, g, b);
    let c = mx - mn;
    let h = spec_hue_from_rgb(r, g, b);
    let s = spec_sat_hsv(mx, mn);
    let cr = mx * s / u;
    let m = mx - cr;
    lemma_hsv_chroma_round(mx, mn);
    // Gray pixels have zero chroma and convert exactly.
    if c == 0 {
        lemma_gray_round_trip(mx);
    } else if mx == r {
        // Red is the largest channel: the hue lies in the first sector, or
        // mirrored into the sixth when blue exceeds green.
        if g >= b {
            let gap = g - b;
            assert(mn == b);
            let q = gap * u / c;
            assert(0 <= gap * u) by (nonlinear_arith)
                requires
                    0 <= gap && 0 <= u,
            ;
            lemma_div_pos_is_pos(gap * u, c);
            if gap < c {
                assert(0 <= gap * hs) by (nonlinear_arith)
                    requires
                        0 <= gap && 0 <= hs,
                ;
                lemma_div_pos_is_pos(gap * hs, c);
                assert(gap * hs < c * hs) by (nonlinear_arith)
                    requires
                        gap < c && 0 < hs,
                ;
                lemma_multiply_divide_lt(gap * hs, c, hs);
                lemma_basic_div(h, hs);
                lemma_fundamental_div_mod_converse(h, 2 * hs, 0, h);
                lemma_hue_fraction_forward(gap, c);
                assert(gap * u <= (c - 1) * u) by (nonlinear_arith)
                    requires
                        gap <= c - 1 && 0 <= u,
                ;
                assert((c - 1) * u < c * u) by (nonlinear_arith)
                    requires
                        0 < u,
                ;
                lemma_multiply_divide_lt(gap * u, c, u);
                lemma_hue_x_bounds(gap, c, cr, q);
                assert(spec_rgb_through_hsv(r, g, b) == (cr + m, cr * q / u + m, m));
            } else {
                lemma_div_multiples_vanish(hs, c);
                assert(gap * hs == c * hs);
                lemma_div_by_self(hs);
                lemma_fundamental_div_mod_converse(h, 2 * hs, 0, hs);
                assert(hs / 60 == u);
                assert(cr * u == u * cr) by (nonlinear_arith);
                lemma_div_multiples_vanish(cr, u);
                assert(spec_rgb_through_hsv(r, g, b) == (cr + m, cr + m, m));
                assert(g == mx && b == mn);
            }
        } else {
            let gap = b - g;
            assert(mn == g);
            let t = gap * hs / c;
            lemma_hue_fraction_backward(gap, c);
            assert(hue_full() == 6 * hs);
            let q = gap * u / c;
            assert(0 <= gap * u) by (nonlinear_arith)
                requires
                    0 <= gap && 0 <= u,
            ;
            lemma_div_pos_is_pos(gap * u, c);
            if gap < c {
                assert(gap * hs <= (c - 1) * hs) by (nonlinear_arith)
                    requires
                        gap <= c - 1 && 0 <= hs,
                ;
                assert((c - 1) * hs < c * hs) by (nonlinear_arith)
                    requires
                        0 < hs,
                ;
                lemma_multiply_divide_lt(gap * hs, c, hs);
                lemma_fundamental_div_mod_converse(h, hs, 5, hs - t);
                lemma_fundamental_div_mod_converse(h, 2 * hs, 2, 2 * hs - t);
                let w = 2 * u - (2 * hs - t) / 60;
                assert(gap * u <= (c - 1) * u) by (nonlinear_arith)
                    requires
                        gap <= c - 1 && 0 <= u,
                ;
                assert((c - 1) * u < c * u) by (nonlinear_arith)
                    requires
                        0 < u,
                ;
                lemma_multiply_divide_lt(gap * u, c, u);
                lemma_hue_x_bounds(gap, c, cr, w);
                assert(spec_rgb_through_hsv(r, g, b) == (cr + m, m, cr * w / u + m));
            } else {
                lemma_div_multiples_vanish(hs, c);
                assert(gap * hs == c * hs);
                lemma_fundamental_div_mod_converse(h, hs, 5, 0);
                lemma_fundamental_div_mod_converse(h, 2 * hs, 2, hs);
                assert(hs / 60 == u);
                assert(cr * u == u * cr) by (nonlinear_arith);
                lemma_div_multiples_vanish(cr, u);
                assert(spec_rgb_through_hsv(r, g, b) == (cr + m, m, cr + m));
                assert(b == mx && g == mn);
            }
        }
    } else if mx == g {
        // Green is the largest channel: the hue lies a third of the circle
        // on, in the third sector or mirrored into the second.
        if b >= r {
            let gap = b - r;
            assert(mn == r);
            let t = gap * hs / c;
            let q = gap * u / c;
            assert(0 <= gap * u) by (nonlinear_arith)
                requires
                    0 <= gap && 0 <= u,
            ;
            lemma_div_pos_is_pos(gap * u, c);
            if gap < c {
                assert(0 <= gap * hs) by (nonlinear_arith)
                    requires
                        0 <= gap && 0 <= hs,
                ;
                lemma_div_pos_is_pos(gap * hs, c);
                assert(gap * hs < c * hs) by (nonlinear_arith)
                    requires
                        gap < c && 0 < hs,
                ;
                lemma_multiply_divide_lt(gap * hs, c, hs);
                lemma_fundamental_div_mod_converse(h, hs, 2, t);
                lemma_fundamental_div_mod_converse(h, 2 * hs, 1, t);
                lemma_hue_fraction_forward(gap, c);
                assert(gap * u <= (c - 1) * u) by (nonlinear_arith)
                    requires
                        gap <= c - 1 && 0 <= u,
                ;
                assert((c - 1) * u < c * u) by (nonlinear_arith)
                    requires
                        0 < u,
                ;
                lemma_multiply_divide_lt(gap * u, c, u);
                lemma_hue_x_bounds(gap, c, cr, q);
                assert(spec_rgb_through_hsv(r, g, b) == (m, cr + m, cr * q / u + m));
            } else {
                lemma_div_multiples_vanish(hs, c);
                assert(gap * hs == c * hs);
                lemma_fundamental_div_mod_converse(h, hs, 3, 0);
                lemma_fundamental_div_mod_converse(h, 2 * hs, 1, hs);
                assert(hs / 60 == u);
                assert(cr * u == u * cr) by (nonlinear_arith);
                lemma_div_multiples_vanish(cr, u);
                assert(spec_rgb_through_hsv(r, g, b) == (m, cr + m, cr + m));
                assert(b == mx && r == mn);
            }
        } else {
            let gap = r - b;
            assert(mn == b);
            let t = gap * hs / c;
            lemma_hue_fraction_backward(gap, c);
            let q = gap * u / c;
            assert(0 <= gap * u) by (nonlinear_arith)
                requires
                    0 <= gap && 0 <= u,
            ;
            lemma_div_pos_is_pos(gap * u, c);
            if gap < c {
                assert(gap * hs <= (c - 1) * hs) by (nonlinear_arith)
                    requires
                        gap <= c - 1 && 0 <= hs,
                ;
                assert((c - 1) * hs < c * hs) by (nonlinear_arith)
                    requires
                        0 < hs,
                ;
                lemma_multiply_divide_lt(gap * hs, c, hs);
                lemma_fundamental_div_mod_converse(h, hs, 1, hs - t);
                lemma_fundamental_div_mod_converse(h, 2 * hs, 0, 2 * hs - t);
                let w = 2 * u - (2 * hs - t) / 60;
                assert(gap * u <= (c - 1) * u) by (nonlinear_arith)
                    requires
                        gap <= c - 1 && 0 <= u,
                ;
                assert((c - 1) * u < c * u) by (nonlinear_arith)
                    requires
                        0 < u,
                ;
                lemma_multiply_divide_lt(gap * u, c, u);
                lemma_hue_x_bounds(gap, c, cr, w);
                assert(spec_rgb_through_hsv(r, g, b) == (cr * w / u + m, cr + m, m));
            } else {
                lemma_div_multiples_vanish(hs, c);
                assert(gap * hs == c * hs);
                lemma_fundamental_div_mod_converse(h, hs, 1, 0);
                lemma_fundamental_div_mod_converse(h, 2 * hs, 0, hs);
                assert(hs / 60 == u);
                assert(cr * u == u * cr) by (nonlinear_arith);
                lemma_div_multiples_vanish(cr, u);
                assert(spec_rgb_through_hsv(r, g, b) == (cr + m, cr + m, m));
                assert(r == mx && b == mn);
            }
        }
    } else {
        // Blue is the largest channel: the hue lies two thirds of the
        // circle on, in the fifth sector or mirrored into the fourth.
        assert(mx == b);
        if r >= g {
            let gap = r - g;
            assert(mn == g);
            let t = gap * hs / c;
            let q = gap * u / c;
            assert(0 <= gap * u) by (nonlinear_arith)
                requires
                    0 <= gap && 0 <= u,
            ;
            lemma_div_pos_is_pos(gap * u, c);
            if gap < c {
                assert(0 <= gap * hs) by (nonlinear_arith)
                    requires
                        0 <= gap && 0 <= hs,
                ;
                lemma_div_pos_is_pos(gap * hs, c);
                assert(gap * hs < c * hs) by (nonlinear_arith)
                    requires
                        gap < c && 0 < hs,
                ;
                lemma_multiply_divide_lt(gap * hs, c, hs);
                lemma_fundamental_div_mod_converse(h, hs, 4, t);
                lemma_fundamental_div_mod_converse(h, 2 * hs, 2, t);
                lemma_hue_fraction_forward(gap, c);
                assert(gap * u <= (c - 1) * u) by (nonlinear_arith)
                    requires
                        gap <= c - 1 && 0 <= u,
                ;
                assert((c - 1) * u < c * u) by (nonlinear_arith)
                    requires
                        0 < u,
                ;
                lemma_multiply_divide_lt(gap * u, c, u);
                lemma_hue_x_bounds(gap, c, cr, q);
                assert(spec_rgb_through_hsv(r, g, b) == (cr * q / u + m, m, cr + m));
            } else {
                lemma_div_multiples_vanish(hs, c);
                assert(gap * hs == c * hs);
                lemma_fundamental_div_mod_converse(h, hs, 5, 0);
                lemma_fundamental_div_mod_converse(h, 2 * hs, 2, hs);
                assert(hs / 60 == u);
                assert(cr * u == u * cr) by (nonlinear_arith);
                lemma_div_multiples_vanish(cr, u);
                assert(spec_rgb_through_hsv(r, g, b) == (cr + m, m, cr + m));
                assert(r == mx && g == mn);
            }
        } else {
            let gap = g - r;
            assert(mn == r);
            let t = gap * hs / c;
            lemma_hue_fraction_backward(gap, c);
            let q = gap * u / c;
            assert(0 <= gap * u) by (nonlinear_arith)
                requires
                    0 <= gap && 0 <= u,
            ;
            lemma_div_pos_is_pos(gap * u, c);
            if gap < c {
                assert(gap * hs <= (c - 1) * hs) by (nonlinear_arith)
                    requires
                        gap <= c - 1 && 0 <= hs,
                ;
                assert((c - 1) * hs < c * hs) by (nonlinear_arith)
                    requires
                        0 < hs,
                ;
                lemma_multiply_divide_lt(gap * hs, c, hs);
                lemma_fundamental_div_mod_converse(h, hs, 3, hs - t);
                lemma_fundamental_div_mod_converse(h, 2 * hs, 1, 2 * hs - t);
                let w = 2 * u - (2 * hs - t) / 60;
                assert(gap * u <= (c - 1) * u) by (nonlinear_arith)
                    requires
                        gap <= c - 1 && 0 <= u,
                ;
                assert((c - 1) * u < c * u) by (nonlinear_arith)
                    requires
                        0 < u,
                ;
                lemma_multiply_divide_lt(gap * u, c, u);
                lemma_hue_x_bounds(gap, c, cr, w);
                assert(spec_rgb_through_hsv(r, g, b) == (m, cr * w / u + m, cr + m));
            } else {
                lemma_div_multiples_vanish(hs, c);
                assert(gap * hs == c * hs);
                lemma_fundamental_div_mod_converse(h, hs, 3, 0);
                lemma_fundamental_div_mod_converse(h, 2 * hs, 1, hs);
                assert(hs / 60 == u);
                assert(cr * u == u * cr) by (nonlinear_arith);
                lemma_div_multiples_vanish(cr, u);
                assert(spec_rgb_through_hsv(r, g, b) == (m, cr + m, cr + m));
                assert(g == mx && r == mn);
            }
        }
    }
}

/// The round trip of an RGB triplet through HSL: convert to hue,
/// saturation and lightness, then back to RGB.
pub open spec fn spec_rgb_through_hsl(r: int, g: int, b: int) -> (int, int, int) {
    let hsl = spec_rgb_to_hsl(r, g, b);
    spec_hsl_to_rgb(hsl.0, hsl.1, hsl.2)
}

/// Converting any in-range RGB triplet to HSL and back lands within four
/// units of the original on every channel — far below one byte step.
#[verifier::rlimit(100)]
pub proof fn lemma_hsl_round_trip(r: int, g: int, b: int)
    requires
        0 <= r <= unit(),
        0 <= g <= unit(),
        0 <= b <= unit(),
    ensures
        r - 4 <= spec_rgb_through_hsl(r, g, b).0 <= r + 4,
        g - 4 <= spec_rgb_through_hsl(r, g, b).1 <= g + 4,
        b - 4 <= spec_rgb_through_hsl(r, g, b).2 <= b + 4,
{
    let u = unit();
    let hs = hue_sector();
    let mx = spec_max3(r, g, b);
    let mn = spec_min3(r, g, b);
    let c = mx - mn;
    let h = spec_hue_from_rgb(r, g, b);
    let s = spec_sat_hsl(mx, mn);
    let l = spec_lightness(mx, mn);
    let cr = spec_chroma_hsl(s, l);
    let m = l - cr / 2;
    lemma_hsl_chroma_round(mx, mn);
    lemma_hsl_offset_round(mx, mn);
    // Gray pixels have zero chroma and convert exactly.
    if c == 0 {
        lemma_gray_round_trip(mx);
    } else if mx == r {
        // Red is the largest channel: the hue lies in the first sector, or
        // mirrored into the sixth when blue exceeds green.
        if g >= b {
            let gap = g - b;
            assert(mn == b);
            let q = gap * u / c;
            assert(0 <= gap * u) by (nonlinear_arith)
                requires
                    0 <= gap && 0 <= u,
            ;
            lemma_div_pos_is_pos(gap * u, c);
            if gap < c {
                assert(0 <= gap * hs) by (nonlinear_arith)
                    requires
                        0 <= gap && 0 <= hs,
                ;
                lemma_div_pos_is_pos(gap * hs, c);
                assert(gap * hs < c * hs) by (nonlinear_arith)
                    requires
                        gap < c && 0 < hs,
                ;
                lemma_multiply_divide_lt(gap * hs, c, hs);
                lemma_basic_div(h, hs);
                lemma_fundamental_div_mod_converse(h, 2 * hs, 0, h);
                lemma_hue_fraction_forward(gap, c);
                assert(gap * u <= (c - 1) * u) by (nonlinear_arith)
                    requires
                        gap <= c - 1 && 0 <= u,
                ;
                assert((c - 1) * u < c * u) by (nonlinear_arith)
                    requires
                        0 < u,
                ;
                lemma_multiply_divide_lt(gap * u, c, u);
                lemma_hue_x_bounds(gap, c, cr, q);
                assert(spec_rgb_through_hsl(r, g, b) == (cr + m, cr * q / u + m, m));
            } else {
                lemma_div_multiples_vanish(hs, c);
                assert(gap * hs == c * hs);
                lemma_div_by_self(hs);
                lemma_fundamental_div_mod_converse(h, 2 * hs, 0, hs);
                assert(hs / 60 == u);
                assert(cr * u == u * cr) by (nonlinear_arith);
                lemma_div_multiples_vanish(cr, u);
                assert(spec_rgb_through_hsl(r, g, b) == (cr + m, cr + m, m));
                assert(g == mx && b == mn);
            }
        } else {
            let gap = b - g;
            assert(mn == g);
            let t = gap * hs / c;
            lemma_hue_fraction_backward(gap, c);
            assert(hue_full() == 6 * hs);
            let q = gap * u / c;
            assert(0 <= gap * u) by (nonlinear_arith)
                requires
                    0 <= gap && 0 <= u,
            ;
            lemma_div_pos_is_pos(gap * u, c);
            if gap < c {
                assert(gap * hs <= (c - 1) * hs) by (nonlinear_arith)
                    requires
                        gap <= c - 1 && 0 <= hs,
                ;
                assert((c - 1) * hs < c * hs) by (nonlinear_arith)
                    requires
                        0 < hs,
                ;
                lemma_multiply_divide_lt(gap * hs, c, hs);
                lemma_fundamental_div_mod_converse(h, hs, 5, hs - t);
                lemma_fundamental_div_mod_converse(h, 2 * hs, 2, 2 * hs - t);
                let w = 2 * u - (2 * hs - t) / 60;
                assert(gap * u <= (c - 1) * u) by (nonlinear_arith)
                    requires
                        gap <= c - 1 && 0 <= u,
                ;
                assert((c - 1) * u < c * u) by (nonlinear_arith)
                    requires
                        0 < u,
                ;
                lemma_multiply_divide_lt(gap * u, c, u);
                lemma_hue_x_bounds(gap, c, cr, w);
                assert(spec_rgb_through_hsl(r, g, b) == (cr + m, m, cr * w / u + m));
            } else {
                lemma_div_multiples_vanish(hs, c);
                assert(gap * hs == c * hs);
                lemma_fundamental_div_mod_converse(h, hs, 5, 0);
                lemma_fundamental_div_mod_converse(h, 2 * hs, 2, hs);
                assert(hs / 60 == u);
                assert(cr * u == u * cr) by (nonlinear_arith);
                lemma_div_multiples_vanish(cr, u);
                assert(spec_rgb_through_hsl(r, g, b) == (cr + m, m, cr + m));
                assert(b == mx && g == mn);
            }
        }
    } else if mx == g {
        // Green is the largest channel: the hue lies a third of the circle
        // on, in the third sector or mirrored into the second.
        if b >= r {
            let gap = b - r;
            assert(mn == r);
            let t = gap * hs / c;
            let q = gap * u / c;
            assert(0 <= gap * u) by (nonlinear_arith)
                requires
                    0 <= gap && 0 <= u,
            ;
            lemma_div_pos_is_pos(gap * u, c);
            if gap < c {
                assert(0 <= gap * hs) by (nonlinear_arith)
                    requires
                        0 <= gap && 0 <= hs,
                ;
                lemma_div_pos_is_pos(gap * hs, c);
                assert(gap * hs < c * hs) by (nonlinear_arith)
                    requires
                        gap < c && 0 < hs,
                ;
                lemma_multiply_divide_lt(gap * hs, c, hs);
                lemma_fundamental_div_mod_converse(h, hs, 2, t);
                lemma_fundamental_div_mod_converse(h, 2 * hs, 1, t);
                lemma_hue_fraction_forward(gap, c);
                assert(gap * u <= (c - 1) * u) by (nonlinear_arith)
                    requires
                        gap <= c - 1 && 0 <= u,
                ;
                assert((c - 1) * u < c * u) by (nonlinear_arith)
                    requires
                        0 < u,
                ;
                lemma_multiply_divide_lt(gap * u, c, u);
                lemma_hue_x_bounds(gap, c, cr, q);
                assert(spec_rgb_through_hsl(r, g, b) == (m, cr + m, cr * q / u + m));
            } else {
                lemma_div_multiples_vanish(hs, c);
                assert(gap * hs == c * hs);
                lemma_fundamental_div_mod_converse(h, hs, 3, 0);
                lemma_fundamental_div_mod_converse(h, 2 * hs, 1, hs);
                assert(hs / 60 == u);
                assert(cr * u == u * cr) by (nonlinear_arith);
                lemma_div_multiples_vanish(cr, u);
                assert(spec_rgb_through_hsl(r, g, b) == (m, cr + m, cr + m));
                assert(b == mx && r == mn);
            }
        } else {
            let gap = r - b;
            assert(mn == b);
            let t = gap * hs / c;
            lemma_hue_fraction_backward(gap, c);
            let q = gap * u / c;
            assert(0 <= gap * u) by (nonlinear_arith)
                requires
                    0 <= gap && 0 <= u,
            ;
            lemma_div_pos_is_pos(gap * u, c);
            if gap < c {
                assert(gap * hs <= (c - 1) * hs) by (nonlinear_arith)
                    requires
                        gap <= c - 1 && 0 <= hs,
                ;
                assert((c - 1) * hs < c * hs) by (nonlinear_arith)
                    requires
                        0 < hs,
                ;
                lemma_multiply_divide_lt(gap * hs, c, hs);
                lemma_fundamental_div_mod_converse(h, hs, 1, hs - t);
                lemma_fundamental_div_mod_converse(h, 2 * hs, 0, 2 * hs - t);
                let w = 2 * u - (2 * hs - t) / 60;
                assert(gap * u <= (c - 1) * u) by (nonlinear_arith)
                    requires
                        gap <= c - 1 && 0 <= u,
                ;
                assert((c - 1) * u < c * u) by (nonlinear_arith)
                    requires
                        0 < u,
                ;
                lemma_multiply_divide_lt(gap * u, c, u);
                lemma_hue_x_bounds(gap, c, cr, w);
                assert(spec_rgb_through_hsl(r, g, b) == (cr * w / u + m, cr + m, m));
            } else {
                lemma_div_multiples_vanish(hs, c);
                assert(gap * hs == c * hs);
                lemma_fundamental_div_mod_converse(h, hs, 1, 0);
                lemma_fundamental_div_mod_converse(h, 2 * hs, 0, hs);
                assert(hs / 60 == u);
                assert(cr * u == u * cr) by (nonlinear_arith);
                lemma_div_multiples_vanish(cr, u);
                assert(spec_rgb_through_hsl(r, g, b) == (cr + m, cr + m, m));
                assert(r == mx && b == mn);
            }
        }
    } else {
        // Blue is the largest channel: the hue lies two thirds of the
        // circle on, in the fifth sector or mirrored into the fourth.
        assert(mx == b);
        if r >= g {
            let gap = r - g;
            assert(mn == g);
            let t = gap * hs / c;
            let q = gap * u / c;
            assert(0 <= gap * u) by (nonlinear_arith)
                requires
                    0 <= gap && 0 <= u,
            ;
            lemma_div_pos_is_pos(gap * u, c);
            if gap < c {
                assert(0 <= gap * hs) by (nonlinear_arith)
                    requires
                        0 <= gap && 0 <= hs,
                ;
                lemma_div_pos_is_pos(gap * hs, c);
                assert(gap * hs < c * hs) by (nonlinear_arith)
                    requires
                        gap < c && 0 < hs,
                ;
                lemma_multiply_divide_lt(gap * hs, c, hs);
                lemma_fundamental_div_mod_converse(h, hs, 4, t);
                lemma_fundamental_div_mod_converse(h, 2 * hs, 2, t);
                lemma_hue_fraction_forward(gap, c);
                assert(gap * u <= (c - 1) * u) by (nonlinear_arith)
                    requires
                        gap <= c - 1 && 0 <= u,
                ;
                assert((c - 1) * u < c * u) by (nonlinear_arith)
                    requires
                        0 < u,
                ;
                lemma_multiply_divide_lt(gap * u, c, u);
                lemma_hue_x_bounds(gap, c, cr, q);
                assert(spec_rgb_through_hsl(r, g, b) == (cr * q / u + m, m, cr + m));
            } else {
                lemma_div_multiples_vanish(hs, c);
                assert(gap * hs == c * hs);
                lemma_fundamental_div_mod_converse(h, hs, 5, 0);
                lemma_fundamental_div_mod_converse(h, 2 * hs, 2, hs);
                assert(hs / 60 == u);
                assert(cr * u == u * cr) by (nonlinear_arith);
                lemma_div_multiples_vanish(cr, u);
                assert(spec_rgb_through_hsl(r, g, b) == (cr + m, m, cr + m));
                assert(r == mx && g == mn);
            }
        } else {
            let gap = g - r;
            assert(mn == r);
            let t = gap * hs / c;
            lemma_hue_fraction_backward(gap, c);
            let q = gap * u / c;
            assert(0 <= gap * u) by (nonlinear_arith)
                requires
                    0 <= gap && 0 <= u,
            ;
            lemma_div_pos_is_pos(gap * u, c);
            if gap < c {
                assert(gap * hs <= (c - 1) * hs) by (nonlinear_arith)
                    requires
                        gap <= c - 1 && 0 <= hs,
                ;
                assert((c - 1) * hs < c * hs) by (nonlinear_arith)
                    requires
                        0 < hs,
                ;
                lemma_multiply_divide_lt(gap * hs, c, hs);
                lemma_fundamental_div_mod_converse(h, hs, 3, hs - t);
                lemma_fundamental_div_mod_converse(h, 2 * hs, 1, 2 * hs - t);
                let w = 2 * u - (2 * hs - t) / 60;
                assert(gap * u <= (c - 1) * u) by (nonlinear_arith)
                    requires
                        gap <= c - 1 && 0 <= u,
                ;
                assert((c - 1) * u < c * u) by (nonlinear_arith)
                    requires
                        0 < u,
                ;
                lemma_multiply_divide_lt(gap * u, c, u);
                lemma_hue_x_bounds(gap, c, cr, w);
                assert(spec_rgb_through_hsl(r, g, b) == (m, cr * w / u + m, cr + m));
            } else {
                lemma_div_multiples_vanish(hs, c);
                assert(gap * hs == c * hs);
                lemma_fundamental_div_mod_converse(h, hs, 3, 0);
                lemma_fundamental_div_mod_converse(h, 2 * hs, 1, hs);
                assert(hs / 60 == u);
                assert(cr * u == u * cr) by (nonlinear_arith);
                lemma_div_multiples_vanish(cr, u);
                assert(spec_rgb_through_hsl(r, g, b) == (m, cr + m, cr + m));
                assert(g == mx && r == mn);
            }
        }
    }
}

/// The chroma reconstructed from a stored HSL pair: the lightness headroom
/// times the stored saturation, scaled down, is within two units below and
/// one above the chroma.
proof fn lemma_hsl_chroma_round(mx: int, mn: int)
    requires
        0 <= mn <= mx <= unit(),
    ensures
        mx - mn - 2 <= spec_chroma_hsl(spec_sat_hsl(mx, mn), spec_lightness(mx, mn)) <= mx - mn
            + 1,
        0 <= spec_chroma_hsl(spec_sat_hsl(mx, mn), spec_lightness(mx, mn)),
{
    let u = unit();
    let c = mx - mn;
    let s2 = mx + mn;
    let l = s2 / 2;
    lemma_fundamental_div_mod(s2, 2);
    lemma_mod_division_less_than_divisor(s2, 2);
    if c == 0 {
        let d = if 2 * l >= u {
            2 * l - u
        } else {
            u - 2 * l
        };
        assert((u - d) * 0 == 0) by (nonlinear_arith);
        lemma_div_of0(u);
    } else if s2 <= u {
        let s = c * u / s2;
        assert(0 <= c * u) by (nonlinear_arith)
            requires
                0 <= c && 0 <= u,
        ;
        lemma_fundamental_div_mod(c * u, s2);
        lemma_mod_division_less_than_divisor(c * u, s2);
        let r3 = (c * u) % s2;
        assert(s2 * s == c * u - r3);
        assert(c * u <= s2 * u) by (nonlinear_arith)
            requires
                c <= s2 && 0 <= u,
        ;
        lemma_multiply_divide_le(c * u, s2, u);
        lemma_div_pos_is_pos(c * u, s2);
        assert((2 * l) * s <= s2 * s) by (nonlinear_arith)
            requires
                2 * l <= s2 && 0 <= s,
        ;
        assert(c * u == u * c) by (nonlinear_arith);
        lemma_div_is_ordered((2 * l) * s, u * c, u);
        lemma_div_multiples_vanish(c, u);
        assert((s2 - 1) * s <= (2 * l) * s) by (nonlinear_arith)
            requires
                0 <= s2 - 1 <= 2 * l && 0 <= s,
        ;
        assert((s2 - 1) * s == s2 * s - s) by (nonlinear_arith);
        assert((c - 2) * u == c * u - 2 * u) by (nonlinear_arith);
        assert(u * (c - 2) == (c - 2) * u) by (nonlinear_arith);
        lemma_div_is_ordered(u * (c - 2), (2 * l) * s, u);
        lemma_div_multiples_vanish(c - 2, u);
        assert(0 <= (2 * l) * s) by (nonlinear_arith)
            requires
                0 <= 2 * l && 0 <= s,
        ;
        lemma_div_pos_is_pos((2 * l) * s, u);
    } else {
        let dd = 2 * u - s2;
        let s = c * u / dd;
        let ud = u - (2 * l - u);
        assert(dd <= ud <= dd + 1);
        assert(0 <= c * u) by (nonlinear_arith)
            requires
                0 <= c && 0 <= u,
        ;
        lemma_fundamental_div_mod(c * u, dd);
        lemma_mod_division_less_than_divisor(c * u, dd);
        let r3 = (c * u) % dd;
        assert(dd * s == c * u - r3);
        assert(c * u <= dd * u) by (nonlinear_arith)
            requires
                c <= dd && 0 <= u,
        ;
        lemma_multiply_divide_le(c * u, dd, u);
        lemma_div_pos_is_pos(c * u, dd);
        assert(ud * s <= (dd + 1) * s) by (nonlinear_arith)
            requires
                ud <= dd + 1 && 0 <= s,
        ;
        assert((dd + 1) * s == dd * s + s) by (nonlinear_arith);
        assert((c + 1) * u == c * u + u) by (nonlinear_arith);
        assert(u * (c + 1) == (c + 1) * u) by (nonlinear_arith);
        lemma_div_is_ordered(ud * s, u * (c + 1), u);
        lemma_div_multiples_vanish(c + 1, u);
        assert(dd * s <= ud * s) by (nonlinear_arith)
            requires
                dd <= ud && 0 <= s,
        ;
        assert((c - 2) * u == c * u - 2 * u) by (nonlinear_arith);
        assert(u * (c - 2) == (c - 2) * u) by (nonlinear_arith);
        lemma_div_is_ordered(u * (c - 2), ud * s, u);
        lemma_div_multiples_vanish(c - 2, u);
        assert(0 <= ud * s) by (nonlinear_arith)
            requires
                0 <= ud && 0 <= s,
        ;
        lemma_div_pos_is_pos(ud * s, u);
    }
}

/// The offset a round trip through HSL reconstructs: the lightness minus
/// half the recovered chroma stays within one unit of the smallest channel,
/// and offset plus chroma within one unit of the largest.
proof fn lemma_hsl_offset_round(mx: int, mn: int)
    requires
        0 <= mn <= mx <= unit(),
    ensures
        ({
            let l = spec_lightness(mx, mn);
            let cr = spec_chroma_hsl(spec_sat_hsl(mx, mn), l);
            let mm = l - cr / 2;
            mn - 1 <= mm <= mn + 1 && mx - 1 <= cr + mm <= mx + 1
        }),
{
    let l = spec_lightness(mx, mn);
    let cr = spec_chroma_hsl(spec_sat_hsl(mx, mn), l);
    lemma_hsl_chroma_round(mx, mn);
    lemma_fundamental_div_mod(mx + mn, 2);
    lemma_mod_division_less_than_divisor(mx + mn, 2);
    lemma_fundamental_div_mod(cr, 2);
    lemma_mod_division_less_than_divisor(cr, 2);
}

/// A scalar within a few units of a byte's exact scalar converts back to
/// that byte or a neighbour.
proof fn lemma_byte_of_near_scalar(bv: int, v: int)
    requires
        0 <= bv <= 255,
        bv * 2048 - 6 <= v,
        v <= bv * 2048 + 6,
    ensures
        bv - 1 <= spec_byte_of_scalar(v) <= bv + 1,
{
    let u = unit();
    assert(bv * 2048 * 255 == bv * u) by (nonlinear_arith)
        requires
            u == 255 * 2048,
    ;
    assert(v * 255 <= bv * u + 1530) by (nonlinear_arith)
        requires
            v <= bv * 2048 + 6 && bv * 2048 * 255 == bv * u,
    ;
    assert(v * 255 >= bv * u - 1530) by (nonlinear_arith)
        requires
            v >= bv * 2048 - 6 && bv * 2048 * 255 == bv * u,
    ;
    assert((bv - 1) * u == bv * u - u) by (nonlinear_arith);
    assert(u * (bv - 1) == (bv - 1) * u) by (nonlinear_arith);
    lemma_div_is_ordered(u * (bv - 1), v * 255, u);
    lemma_div_multiples_vanish(bv - 1, u);
    assert((bv + 1) * u == bv * u + u) by (nonlinear_arith);
    assert(u * (bv + 1) == (bv + 1) * u) by (nonlinear_arith);
    lemma_multiply_divide_lt(v * 255, u, bv + 1);
}

/// For every RGB byte triplet and every color space, converting the bytes
/// into the space, back to RGB, and again to bytes reproduces each channel
/// within one: the conversion to RGB is the identity, and the trips through
/// HSL and HSV err by a few fixed-point units, far below one byte step.
pub proof fn lemma_round_trip_within_one(r: int, g: int, b: int, space: ColorSpace)
    requires
        0 <= r <= 255,
        0 <= g <= 255,
        0 <= b <= 255,
    ensures
        ({
            let t = (spec_scalar_of_byte(r), spec_scalar_of_byte(g), spec_scalar_of_byte(b));
            let back = spec_convert(space, spec_convert(ColorSpace::RGB, t, space), ColorSpace::RGB);
            &&& r - 1 <= spec_byte_of_scalar(back.0) <= r + 1
            &&& g - 1 <= spec_byte_of_scalar(back.1) <= g + 1
            &&& b - 1 <= spec_byte_of_scalar(back.2) <= b + 1
        }),
{
    let t = (spec_scalar_of_byte(r), spec_scalar_of_byte(g), spec_scalar_of_byte(b));
    let back = spec_convert(space, spec_convert(ColorSpace::RGB, t, space), ColorSpace::RGB);
    match space {
        ColorSpace::RGB => {
            lemma_rgb_byte_round_trip(r, g, b);
        },
        ColorSpace::HSL => {
            lemma_hsl_round_trip(t.0, t.1, t.2);
            lemma_byte_of_near_scalar(r, back.0);
            lemma_byte_of_near_scalar(g, back.1);
            lemma_byte_of_near_scalar(b, back.2);
        },
        ColorSpace::HSV => {
            lemma_hsv_round_trip(t.0, t.1, t.2);
            lemma_byte_of_near_scalar(r, back.0);
            lemma_byte_of_near_scalar(g, back.1);
            lemma_byte_of_near_scalar(b, back.2);
        },
    }
}

/// The round trip of an HSV triplet through RGB and back.
pub open spec fn spec_hsv_through_rgb(h: int, s: int, v: int) -> (int, int, int) {
    let rgb = spec_hsv_to_rgb(h, s, v);
    spec_rgb_to_hsv(rgb.0, rgb.1, rgb.2)
}

/// Converting an in-range HSV triplet to RGB and back recovers the value
/// exactly, and the saturation up to the coarseness quantized chroma
/// forces at small values — in product form, within `unit() / v` of the
/// original. When the chroma underflows to zero (the dark gamut corner,
/// where saturation and hue degenerate) the result is exactly zero hue
/// and saturation with the value kept.
pub proof fn lemma_hsv_anchored_round_trip(h: int, s: int, v: int)
    requires
        spec_hue_wf(h),
        spec_scalar_wf(s),
        spec_scalar_wf(v),
    ensures
        spec_hsv_through_rgb(h, s, v).2 == v,
        spec_hsv_through_rgb(h, s, v).1 <= s,
        v * spec_hsv_through_rgb(h, s, v).1 >= v * s - unit() - v,
        v * s < unit() ==> spec_hsv_through_rgb(h, s, v) == (0int, 0int, v),
{
    let u = unit();
    let sector = hue_sector();
    let cc = v * s / u;
    let m = v - cc;
    assert(0 <= v * s) by (nonlinear_arith)
        requires
            0 <= v && 0 <= s,
    ;
    lemma_div_pos_is_pos(v * s, u);
    assert(v * s == s * v) by (nonlinear_arith);
    lemma_mul_div_bound(s, u, v);
    let v2 = (h % (2 * sector)) / 60;
    let e = if v2 >= u {
        v2 - u
    } else {
        u - v2
    };
    lemma_mod_division_less_than_divisor(h, 2 * sector);
    lemma_div_pos_is_pos(h % (2 * sector), 60);
    lemma_multiply_divide_lt(h % (2 * sector), 60, 2 * u);
    lemma_mul_div_bound(u - e, u, cc);
    assert(cc * (u - e) == (u - e) * cc) by (nonlinear_arith);
    lemma_div_pos_is_pos(h, sector);
    lemma_multiply_divide_lt(h, sector, 6);
    let rgb = spec_hsv_to_rgb(h, s, v);
    assert(spec_max3(rgb.0, rgb.1, rgb.2) == v);
    assert(spec_min3(rgb.0, rgb.1, rgb.2) == m);
    lemma_fundamental_div_mod(v * s, u);
    lemma_mod_division_less_than_divisor(v * s, u);
    if cc == 0 {
        assert((u - e) * 0 == 0) by (nonlinear_arith);
        lemma_div_of0(u);
        assert(spec_hsv_through_rgb(h, s, v) == (0int, 0int, v));
    } else {
        let r1 = (v * s) % u;
        assert(u * cc == v * s - r1);
        assert(cc * u == u * cc) by (nonlinear_arith);
        let sp = (v - m) * u / v;
        assert(v - m == cc);
        lemma_div_is_ordered(cc * u, v * s, v);
        lemma_div_multiples_vanish(s, v);
        lemma_fundamental_div_mod(cc * u, v);
        lemma_mod_division_less_than_divisor(cc * u, v);
        let r2 = (cc * u) % v;
        assert(v * sp == cc * u - r2);
    }
}

/// The round trip of an HSL triplet through RGB and back.
pub open spec fn spec_hsl_through_rgb(h: int, s: int, l: int) -> (int, int, int) {
    let rgb = spec_hsl_to_rgb(h, s, l);
    spec_rgb_to_hsl(rgb.0, rgb.1, rgb.2)
}

/// Converting an in-range HSL triplet to RGB and back recovers the
/// lightness exactly. When the chroma underflows to zero (zero saturation,
/// or the black and white gamut corners, where hue and saturation
/// degenerate) the result is exactly zero hue and saturation with the
/// lightness kept.
pub proof fn lemma_hsl_anchored_round_trip(h: int, s: int, l: int)
    requires
        spec_hue_wf(h),
        spec_scalar_wf(s),
        spec_scalar_wf(l),
    ensures
        spec_hsl_through_rgb(h, s, l).2 == l,
        spec_chroma_hsl(s, l) == 0 ==> spec_hsl_through_rgb(h, s, l) == (0int, 0int, l),
{
    let u = unit();
    let sector = hue_sector();
    let cc = spec_chroma_hsl(s, l);
    let m = l - cc / 2;
    let d = if 2 * l >= u {
        2 * l - u
    } else {
        u - 2 * l
    };
    assert(0 <= (u - d) * s) by (nonlinear_arith)
        requires
            0 <= u - d && 0 <= s,
    ;
    lemma_div_pos_is_pos((u - d) * s, u);
    lemma_mul_div_bound(s, u, u - d);
    assert((u - d) * s == s * (u - d)) by (nonlinear_arith);
    lemma_fundamental_div_mod(cc, 2);
    lemma_mod_division_less_than_divisor(cc, 2);
    if 2 * l >= u {
        lemma_div_is_ordered(cc, 2 * (u - l), 2);
        lemma_div_multiples_vanish(u - l, 2);
    } else {
        lemma_div_is_ordered(cc, 2 * l, 2);
        lemma_div_multiples_vanish(l, 2);
    }
    let v2 = (h % (2 * sector)) / 60;
    let e = if v2 >= u {
        v2 - u
    } else {
        u - v2
    };
    lemma_mod_division_less_than_divisor(h, 2 * sector);
    lemma_div_pos_is_pos(h % (2 * sector), 60);
    lemma_multiply_divide_lt(h % (2 * sector), 60, 2 * u);
    lemma_mul_div_bound(u - e, u, cc);
    assert(cc * (u - e) == (u - e) * cc) by (nonlinear_arith);
    lemma_div_pos_is_pos(h, sector);
    lemma_multiply_divide_lt(h, sector, 6);
    let rgb = spec_hsl_to_rgb(h, s, l);
    assert(spec_max3(rgb.0, rgb.1, rgb.2) == cc + m);
    assert(spec_min3(rgb.0, rgb.1, rgb.2) == m);
    let rho = cc % 2;
    lemma_fundamental_div_mod_converse(cc + m + m, 2, l, rho);
    if cc == 0 {
        assert((u - e) * 0 == 0) by (nonlinear_arith);
        lemma_div_of0(u);
        lemma_fundamental_div_mod_converse(m + m, 2, m, 0);
        assert(spec_hsl_through_rgb(h, s, l) == (0int, 0int, l));
    }
}

/// A quotient of a product is bounded by the factor outside the divisor:
/// with `0 <= a <= b`, the quotient `a * k / b` lies in `[0, k]`.
proof fn lemma_mul_div_bound(a: int, b: int, k: int)
    requires
        0 <= a <= b,
        0 < b,
        0 <= k,
    ensures
        0 <= a * k / b <= k,
{
    assert(0 <= a * k) by (nonlinear_arith)
        requires
            0 <= a,
            0 <= k,
    ;
    assert(a * k <= b * k) by (nonlinear_arith)
        requires
            a <= b,
            0 <= k,
    ;
    lemma_div_pos_is_pos(a * k, b);
    lemma_multiply_divide_le(a * k, b, k);
}

/// The quotient of two positive values, the smaller over the larger,
/// scaled by `k`, is at least one when the numerator is not smaller than
/// the denominator.
proof fn lemma_mul_div_at_least_one(a: int, b: int, k: int)
    requires
        1 <= a,
        0 < b <= k,
    ensures
        1 <= a * k / b,
{
    lemma_mul_inequality(1, a, k);
    assert(1 * k == k);
    lemma_div_non_zero(a * k, b);
}

/// Truncating multiply-then-divide on non-negative values.
fn mul_div(a: i64, b: i64, d: i64) -> (r: i64)
    requires
        0 <= a <= 0x8000_0000,
        0 <= b <= 0x8000_0000,
        0 < d,
    ensures
        r == a as int * b as int / d as int,
        0 <= r,
{
    proof {
        assert(a as int * b as int <= 0x8000_0000 * 0x8000_0000) by (nonlinear_arith)
            requires
                0 <= a as int <= 0x8000_0000,
                0 <= b as int <= 0x8000_0000,
        ;
        assert(0 <= a as int * b as int) by (nonlinear_arith)
            requires
                0 <= a as int,
                0 <= b as int,
        ;
        lemma_div_pos_is_pos(a as int * b as int, d as int);
        lemma_div_nonincreasing(a as int * b as int, d as int);
    }
    ((a as u64 * b as u64) / (d as u64)) as i64
}

/// Truncating division on non-negative values.
fn div_nn(a: i64, d: i64) -> (r: i64)
    requires
        0 <= a,
        0 < d,
    ensures
        r == a as int / d as int,
        0 <= r <= a,
{
    proof {
        lemma_div_pos_is_pos(a as int, d as int);
        lemma_div_nonincreasing(a as int, d as int);
    }
    (a as u64 / d as u64) as i64
}

/// Remainder on non-negative values.
fn rem_nn(a: i64, d: i64) -> (r: i64)
    requires
        0 <= a,
        0 < d,
    ensures
        r == a as int % d as int,
        0 <= r < d,
{
    proof {
        lemma_mod_division_less_than_divisor(a as int, d as int);
    }
    (a as u64 % d as u64) as i64
}

/// The largest of three values.
fn max3(a: i64, b: i64, c: i64) -> (r: i64)
    ensures
        r == spec_max3(a as int, b as int, c as int),
{
    if a >= b && a >= c {
        a
    } else if b >= c {
        b
    } else {
        c
    }
}

/// The smallest of three values.
fn min3(a: i64, b: i64, c: i64) -> (r: i64)
    ensures
        r == spec_min3(a as int, b as int, c as int),
{
    if a <= b && a <= c {
        a
    } else if b <= c {
        b
    } else {
        c
    }
}

/// The hue of an RGB triplet.
fn hue_from_rgb(r: i64, g: i64, b: i64) -> (h: i64)
    requires
        spec_scalar_wf(r as int),
        spec_scalar_wf(g as int),
        spec_scalar_wf(b as int),
    ensures
        h == spec_hue_from_rgb(r as int, g as int, b as int),
        spec_hue_wf(h as int),
{
    let mx = max3(r, g, b);
    let mn = min3(r, g, b);
    let c = mx - mn;
    if c == 0 {
        0
    } else if mx == r {
        if g >= b {
            proof {
                lemma_mul_div_bound(g as int - b as int, c as int, hue_sector());
            }
            mul_div(g - b, HUE_SECTOR, c)
        } else {
            proof {
                lemma_mul_div_bound(b as int - g as int, c as int, hue_sector());
                lemma_mul_div_at_least_one(b as int - g as int, c as int, hue_sector());
            }
            HUE_FULL - mul_div(b - g, HUE_SECTOR, c)
        }
    } else if mx == g {
        // Green is the largest channel: the hue lies a third of the circle
        // on, in the third sector or mirrored into the second.
        if b >= r {
            proof {
                lemma_mul_div_bound(b as int - r as int, c as int, hue_sector());
            }
            2 * HUE_SECTOR + mul_div(b - r, HUE_SECTOR, c)
        } else {
            proof {
                lemma_mul_div_bound(r as int - b as int, c as int, hue_sector());
            }
            2 * HUE_SECTOR - mul_div(r - b, HUE_SECTOR, c)
        }
    } else {
        if r >= g {
            proof {
                lemma_mul_div_bound(r as int - g as int, c as int, hue_sector());
            }
            4 * HUE_SECTOR + mul_div(r - g, HUE_SECTOR, c)
        } else {
            proof {
                lemma_mul_div_bound(g as int - r as int, c as int, hue_sector());
            }
            4 * HUE_SECTOR - mul_div(g - r, HUE_SECTOR, c)
        }
    }
}

/// HSL saturation of the channel extrema.
fn sat_hsl(mx: i64, mn: i64) -> (s: i64)
    requires
        0 <= mn <= mx,
        mx <= UNIT,
    ensures
        s == spec_sat_hsl(mx as int, mn as int),
        spec_scalar_wf(s as int),
{
    let c = mx - mn;
    if c == 0 {
        0
    } else if mx + mn <= UNIT {
        proof {
            lemma_mul_div_bound(c as int, mx as int + mn as int, unit());
        }
        mul_div(c, UNIT, mx + mn)
    } else {
        proof {
            lemma_mul_div_bound(c as int, 2 * unit() - (mx as int + mn as int), unit());
        }
        mul_div(c, UNIT, 2 * UNIT - (mx + mn))
    }
}

/// HSV saturation of the channel extrema.
fn sat_hsv(mx: i64, mn: i64) -> (s: i64)
    requires
        0 <= mn <= mx,
        mx <= UNIT,
    ensures
        s == spec_sat_hsv(mx as int, mn as int),
        spec_scalar_wf(s as int),
{
    if mx == mn {
        0
    } else {
        proof {
            lemma_mul_div_bound(mx as int - mn as int, mx as int, unit());
        }
        mul_div(mx - mn, UNIT, mx)
    }
}

/// RGB to HSL on raw triplets.
fn rgb_to_hsl_arr(r: i64, g: i64, b: i64) -> (out: [i64; 3])
    requires
        spec_scalar_wf(r as int),
        spec_scalar_wf(g as int),
        spec_scalar_wf(b as int),
    ensures
        (out@[0] as int, out@[1] as int, out@[2] as int) == spec_rgb_to_hsl(
            r as int,
            g as int,
            b as int,
        ),
        spec_triple_wf(ColorSpace::HSL, (out@[0] as int, out@[1] as int, out@[2] as int)),
{
    let mx = max3(r, g, b);
    let mn = min3(r, g, b);
    let h = hue_from_rgb(r, g, b);
    let s = sat_hsl(mx, mn);
    let l = div_nn(mx + mn, 2);
    proof {
        lemma_div_is_ordered(mx as int + mn as int, 2 * unit(), 2);
    }
    [h, s, l]
}

/// RGB to HSV on raw triplets.
fn rgb_to_hsv_arr(r: i64, g: i64, b: i64) -> (out: [i64; 3])
    requires
        spec_scalar_wf(r as int),
        spec_scalar_wf(g as int),
        spec_scalar_wf(b as int),
    ensures
        (out@[0] as int, out@[1] as int, out@[2] as int) == spec_rgb_to_hsv(
            r as int,
            g as int,
            b as int,
        ),
        spec_triple_wf(ColorSpace::HSV, (out@[0] as int, out@[1] as int, out@[2] as int)),
{
    let mx = max3(r, g, b);
    let mn = min3(r, g, b);
    let h = hue_from_rgb(r, g, b);
    let s = sat_hsv(mx, mn);
    [h, s, mx]
}

/// The chroma of an HSL pair, with the bounds the offset proof needs.
fn chroma_hsl(s: i64, l: i64) -> (c: i64)
    requires
        spec_scalar_wf(s as int),
        spec_scalar_wf(l as int),
    ensures
        c == spec_chroma_hsl(s as int, l as int),
        0 <= c,
        2 * (l as int) >= unit() ==> c <= 2 * unit() - 2 * (l as int),
        2 * (l as int) < unit() ==> c <= 2 * (l as int),
{
    let d = if 2 * l >= UNIT {
        2 * l - UNIT
    } else {
        UNIT - 2 * l
    };
    proof {
        lemma_mul_div_bound(s as int, unit(), unit() - d as int);
        assert((unit() - d as int) * (s as int) == (s as int) * (unit() - d as int))
            by (nonlinear_arith);
    }
    mul_div(UNIT - d, s, UNIT)
}

/// The secondary chroma component for a hue.
fn hue_x(h: i64, c: i64) -> (x: i64)
    requires
        spec_hue_wf(h as int),
        0 <= c <= UNIT,
    ensures
        x == spec_hue_x(h as int, c as int),
        0 <= x <= c,
{
    let v = div_nn(rem_nn(h, 2 * HUE_SECTOR), 60);
    let e = if v >= UNIT {
        proof {
            lemma_multiply_divide_lt(h as int % (2 * hue_sector()), 60, 2 * unit());
        }
        v - UNIT
    } else {
        UNIT - v
    };
    proof {
        lemma_mul_div_bound(unit() - e as int, unit(), c as int);
        assert((c as int) * (unit() - e as int) == (unit() - e as int) * (c as int))
            by (nonlinear_arith);
    }
    mul_div(c, UNIT - e, UNIT)
}

/// Distributes chroma, secondary component and offset over RGB channels
/// by hue sector.
fn sector_rgb(k: i64, c: i64, x: i64, m: i64) -> (out: [i64; 3])
    requires
        0 <= x <= c,
        0 <= m,
        c + m <= UNIT,
    ensures
        (out@[0] as int, out@[1] as int, out@[2] as int) == spec_sector_rgb(
            k as int,
            c as int,
            x as int,
            m as int,
        ),
        spec_triple_wf(ColorSpace::RGB, (out@[0] as int, out@[1] as int, out@[2] as int)),
{
    if k == 0 {
        [c + m, x + m, m]
    } else if k == 1 {
        [x + m, c + m, m]
    } else if k == 2 {
        [m, c + m, x + m]
    } else if k == 3 {
        [m, x + m, c + m]
    } else if k == 4 {
        [x + m, m, c + m]
    } else {
        [c + m, m, x + m]
    }
}

/// HSL to RGB on raw triplets.
fn hsl_to_rgb_arr(h: i64, s: i64, l: i64) -> (out: [i64; 3])
    requires
        spec_hue_wf(h as int),
        spec_scalar_wf(s as int),
        spec_scalar_wf(l as int),
    ensures
        (out@[0] as int, out@[1] as int, out@[2] as int) == spec_hsl_to_rgb(
            h as int,
            s as int,
            l as int,
        ),
        spec_triple_wf(ColorSpace::RGB, (out@[0] as int, out@[1] as int, out@[2] as int)),
{
    let c = chroma_hsl(s, l);
    let x = hue_x(h, c);
    let half = div_nn(c, 2);
    proof {
        lemma_fundamental_div_mod(c as int, 2);
        lemma_mod_division_less_than_divisor(c as int, 2);
    }
    let m = l - half;
    let k = div_nn(h, HUE_SECTOR);
    proof {
        lemma_div_pos_is_pos(h as int, hue_sector());
    }
    sector_rgb(k, c, x, m)
}

/// HSV to RGB on raw triplets.
fn hsv_to_rgb_arr(h: i64, s: i64, v: i64) -> (out: [i64; 3])
    requires
        spec_hue_wf(h as int),
        spec_scalar_wf(s as int),
        spec_scalar_wf(v as int),
    ensures
        (out@[0] as int, out@[1] as int, out@[2] as int) == spec_hsv_to_rgb(
            h as int,
            s as int,
            v as int,
        ),
        spec_triple_wf(ColorSpace::RGB, (out@[0] as int, out@[1] as int, out@[2] as int)),
{
    proof {
        lemma_mul_div_bound(s as int, unit(), v as int);
        assert((v as int) * (s as int) == (s as int) * (v as int)) by (nonlinear_arith);
    }
    let c = mul_div(v, s, UNIT);
    let x = hue_x(h, c);
    let m = v - c;
    let k = div_nn(h, HUE_SECTOR);
    proof {
        lemma_div_pos_is_pos(h as int, hue_sector());
    }
    sector_rgb(k, c, x, m)
}

/// A position in a generic color space.
#[derive(Clone, Copy, Debug)]
pub struct Color {
    pub space: ColorSpace,
    pub components: [i64; 3],
}

/// The components of a color as a mathematical triplet.
pub open spec fn color_triple(c: Color) -> (int, int, int) {
    (c.components@[0] as int, c.components@[1] as int, c.components@[2] as int)
}

impl Color {
    /// Whether the components are within range for the color's space.
    pub open spec fn wf(self) -> bool {
        spec_triple_wf(self.space, color_triple(self))
    }

    /// Creates a new RGB fixed-point triplet from specified 8 bit components.
    pub fn rgb_from_u8(red: u8, green: u8, blue: u8) -> (color: Self)
        ensures
            color.space == ColorSpace::RGB,
            color_triple(color) == (
                spec_scalar_of_byte(red as int),
                spec_scalar_of_byte(green as int),
                spec_scalar_of_byte(blue as int),
            ),
            color.wf(),
    {
        Color {
            space: ColorSpace::RGB,
            components: [red as i64 * 2048, green as i64 * 2048, blue as i64 * 2048],
        }
    }

    /// Converts to 8 bit components, truncating toward zero.
    pub fn to_u8(&self) -> (out: [u8; 3])
        requires
            self.space == ColorSpace::RGB,
            self.wf(),
        ensures
            out@[0] as int == spec_byte_of_scalar(color_triple(*self).0),
            out@[1] as int == spec_byte_of_scalar(color_triple(*self).1),
            out@[2] as int == spec_byte_of_scalar(color_triple(*self).2),
    {
        proof {
            lemma_mul_div_bound(self.components@[0] as int, unit(), 255);
            lemma_mul_div_bound(self.components@[1] as int, unit(), 255);
            lemma_mul_div_bound(self.components@[2] as int, unit(), 255);
        }
        let b0 = mul_div(self.components[0], 255, UNIT);
        let b1 = mul_div(self.components[1], 255, UNIT);
        let b2 = mul_div(self.components[2], 255, UNIT);
        [b0 as u8, b1 as u8, b2 as u8]
    }

    /// Converts to the specified space.
    pub fn to_space(&self, space: ColorSpace) -> (out: Self)
        requires
            self.wf(),
        ensures
            out.space == space,
            out.wf(),
            color_triple(out) == spec_convert(self.space, color_triple(*self), space),
            space == self.space ==> out == *self,
    {
        if space == self.space {
            return self.clone();
        }
        let components = match self.space {
            ColorSpace::HSL => Self::hsl_to_space(&self.components, space),
            ColorSpace::HSV => Self::hsv_to_space(&self.components, space),
            ColorSpace::RGB => Self::rgb_to_space(&self.components, space),
        };
        Color { space, components }
    }

    /// Converts HSL components into the given space, through RGB where the
    /// target is HSV.
    fn hsl_to_space(source: &[i64; 3], space: ColorSpace) -> (out: [i64; 3])
        requires
            spec_triple_wf(
                ColorSpace::HSL,
                (source@[0] as int, source@[1] as int, source@[2] as int),
            ),
        ensures
            (out@[0] as int, out@[1] as int, out@[2] as int) == spec_convert(
                ColorSpace::HSL,
                (source@[0] as int, source@[1] as int, source@[2] as int),
                space,
            ),
            spec_triple_wf(space, (out@[0] as int, out@[1] as int, out@[2] as int)),
    {
        match space {
            ColorSpace::HSL => [source[0], source[1], source[2]],
            ColorSpace::HSV => {
                let rgb = hsl_to_rgb_arr(source[0], source[1], source[2]);
                rgb_to_hsv_arr(rgb[0], rgb[1], rgb[2])
            },
            ColorSpace::RGB => hsl_to_rgb_arr(source[0], source[1], source[2]),
        }
    }

    /// Converts HSV components into the given space, through RGB where the
    /// target is HSL.
    fn hsv_to_space(source: &[i64; 3], space: ColorSpace) -> (out: [i64; 3])
        requires
            spec_triple_wf(
                ColorSpace::HSV,
                (source@[0] as int, source@[1] as int, source@[2] as int),
            ),
        ensures
            (out@[0] as int, out@[1] as int, out@[2] as int) == spec_convert(
                ColorSpace::HSV,
                (source@[0] as int, source@[1] as int, source@[2] as int),
                space,
            ),
            spec_triple_wf(space, (out@[0] as int, out@[1] as int, out@[2] as int)),
    {
        match space {
            ColorSpace::HSL => {
                let rgb = hsv_to_rgb_arr(source[0], source[1], source[2]);
                rgb_to_hsl_arr(rgb[0], rgb[1], rgb[2])
            },
            ColorSpace::HSV => [source[0], source[1], source[2]],
            ColorSpace::RGB => hsv_to_rgb_arr(source[0], source[1], source[2]),
        }
    }

    /// Converts RGB components into the given space.
    fn rgb_to_space(source: &[i64; 3], space: ColorSpace) -> (out: [i64; 3])
        requires
            spec_triple_wf(
                ColorSpace::RGB,
                (source@[0] as int, source@[1] as int, source@[2] as int),
            ),
        ensures
            (out@[0] as int, out@[1] as int, out@[2] as int) == spec_convert(
                ColorSpace::RGB,
                (source@[0] as int, source@[1] as int, source@[2] as int),
                space,
            ),
            spec_triple_wf(space, (out@[0] as int, out@[1] as int, out@[2] as int)),
    {
        match space {
            ColorSpace::HSL => rgb_to_hsl_arr(source[0], source[1], source[2]),
            ColorSpace::HSV => rgb_to_hsv_arr(source[0], source[1], source[2]),
            ColorSpace::RGB => [source[0], source[1], source[2]],
        }
    }
}

impl Default for ColorSpaceMask {
    /// The default mask: RGB space, no channel affected.
    fn default() -> (mask: Self)
        ensures
            mask.space == ColorSpace::RGB,
            forall|j: int| 0 <= j < 3 ==> !mask.components@[j],
    {
        ColorSpaceMask { space: ColorSpace::RGB, components: [false, false, false] }
    }
}

} // verus!
