//! Helpers for generative sketches: colour palettes with random picks, and an
//! elementary cellular automaton engine whose generations scroll through a grid.
use vstd::prelude::*;

pub mod ca;

verus! {

/// An 8-bit colour with alpha.
#[derive(Debug, Clone, Copy, PartialEq, Eq, Structural)]
pub struct Rgba8 {
    pub red: u8,
    pub green: u8,
    pub blue: u8,
    pub alpha: u8,
}

/// Alpha of a palette pick made without one.
pub const DEFAULT_ALPHA: u8 = 240;

/// The colour with the channels of `rgb` and the given alpha.
pub open spec fn rgba_of(rgb: (u8, u8, u8), alpha: u8) -> Rgba8 {
    Rgba8 { red: rgb.0, green: rgb.1, blue: rgb.2, alpha }
}

/// The given alpha, or the default one.
pub open spec fn alpha_or_default(alpha: Option<u8>) -> u8 {
    match alpha {
        Some(a) => a,
        None => DEFAULT_ALPHA,
    }
}

/// What a palette pick can return: an entry other than the last one, with the given
/// alpha or the default one.
pub open spec fn is_palette_pick(palette: Seq<(u8, u8, u8)>, alpha: Option<u8>, c: Rgba8) -> bool {
    exists|i: int| 0 <= i < palette.len() - 1 && c == rgba_of(#[trigger] palette[i], alpha_or_default(alpha))
}

/// The green palette: green, green-yellow, dark olive green, dark sea green, forest green,
/// medium sea green and medium spring green.
pub open spec fn green_colors() -> Seq<(u8, u8, u8)> {
    seq![(0, 128, 0), (173, 255, 47), (85, 107, 47), (143, 188, 143), (34, 139, 34), (60, 179, 113), (0, 250, 154)]
}

/// The blue palette: blue, alice blue, cadet blue, cornflower blue, dark slate blue, deep
/// sky blue, steel blue, powder blue, royal blue and midnight blue.
pub open spec fn blue_colors() -> Seq<(u8, u8, u8)> {
    seq![
        (0, 0, 255),
        (240, 248, 255),
        (95, 158, 160),
        (100, 149, 237),
        (72, 61, 139),
        (0, 191, 255),
        (70, 130, 180),
        (176, 224, 230),
        (65, 105, 225),
        (25, 25, 112),
    ]
}

/// The pale "retro" palette.
pub open spec fn retro_colors() -> Seq<(u8, u8, u8)> {
    seq![(227, 253, 253), (203, 241, 245), (166, 227, 233), (113, 201, 206)]
}

/// The dark "night" palette.
pub open spec fn night_colors() -> Seq<(u8, u8, u8)> {
    seq![(27, 38, 44), (15, 76, 117), (50, 130, 184), (27, 36, 48)]
}

/// Relies on nannou::rand::random_range: a value drawn from `[lo, hi)`; it panics on an
/// empty range, which the precondition leaves out.
#[verifier::external_body]
pub(crate) fn random_below(lo: usize, hi: usize) -> (r: usize)
    requires
        lo < hi,
    ensures
        lo <= r < hi,
{
    nannou::rand::random_range(lo, hi)
}

/// Sum of two sizes.
pub fn add(left: usize, right: usize) -> (r: usize)
    requires
        left + right <= usize::MAX,
    ensures
        r == left + right,
{
    left + right
}

/// The colour with the channels of `rgb` and alpha `a`.
pub fn srgba8_t(rgb: (u8, u8, u8), a: u8) -> (c: Rgba8)
    ensures
        c == rgba_of(rgb, a),
{
    Rgba8 { red: rgb.0, green: rgb.1, blue: rgb.2, alpha: a }
}

/// Entry `i` of a palette with the given alpha, or the default alpha.
pub fn palette_color(palette: &Vec<(u8, u8, u8)>, i: usize, alpha: Option<u8>) -> (c: Rgba8)
    requires
        i < palette@.len(),
    ensures
        c == rgba_of(palette@[i as int], alpha_or_default(alpha)),
{
    let a = match alpha {
        Some(a) => a,
        None => DEFAULT_ALPHA,
    };
    srgba8_t(palette[i], a)
}

/// A random entry of the palette, never its last one, with the given alpha or the
/// default one.
pub fn get_random_from_palette(palette: Vec<(u8, u8, u8)>, alpha: Option<u8>) -> (c: Rgba8)
    requires
        palette@.len() >= 2,
    ensures
        is_palette_pick(palette@, alpha, c),
{
    let i = random_below(0, palette.len() - 1);
    let c = palette_color(&palette, i, alpha);
    assert(c == rgba_of(palette@[i as int], alpha_or_default(alpha)));
    c
}

/// A random entry of the palette, never its last one, with the given alpha or the
/// default one.
pub fn get_from_palate(p: Vec<(u8, u8, u8)>, alpha: Option<u8>) -> (c: Rgba8)
    requires
        p@.len() >= 2,
    ensures
        is_palette_pick(p@, alpha, c),
{
    get_random_from_palette(p, alpha)
}

/// The green palette.
pub fn green_palette() -> (r: Vec<(u8, u8, u8)>)
    ensures
        r@ == green_colors(),
{
    let r = vec![(0, 128, 0), (173, 255, 47), (85, 107, 47), (143, 188, 143), (34, 139, 34), (60, 179, 113), (0, 250, 154)];
    assert(r@ =~= green_colors());
    r
}

/// The blue palette.
pub fn blue_palette() -> (r: Vec<(u8, u8, u8)>)
    ensures
        r@ == blue_colors(),
{
    let r = vec![
        (0, 0, 255),
        (240, 248, 255),
        (95, 158, 160),
        (100, 149, 237),
        (72, 61, 139),
        (0, 191, 255),
        (70, 130, 180),
        (176, 224, 230),
        (65, 105, 225),
        (25, 25, 112),
    ];
    assert(r@ =~= blue_colors());
    r
}

/// The retro palette.
pub fn retro_palette() -> (r: Vec<(u8, u8, u8)>)
    ensures
        r@ == retro_colors(),
{
    let r = vec![(227, 253, 253), (203, 241, 245), (166, 227, 233), (113, 201, 206)];
    assert(r@ =~= retro_colors());
    r
}

/// The night palette.
pub fn night_palette() -> (r: Vec<(u8, u8, u8)>)
    ensures
        r@ == night_colors(),
{
    let r = vec![(27, 38, 44), (15, 76, 117), (50, 130, 184), (27, 36, 48)];
    assert(r@ =~= night_colors());
    r
}

/// A random colour of the night palette.
pub fn get_random_night(alpha: Option<u8>) -> (c: Rgba8)
    ensures
        is_palette_pick(night_colors(), alpha, c),
{
    get_random_from_palette(night_palette(), alpha)
}

/// A random colour of the retro palette.
pub fn get_random_retro(alpha: Option<u8>) -> (c: Rgba8)
    ensures
        is_palette_pick(retro_colors(), alpha, c),
{
    get_random_from_palette(retro_palette(), alpha)
}

/// A random colour of the green palette.
pub fn get_random_green(alpha: Option<u8>) -> (c: Rgba8)
    ensures
        is_palette_pick(green_colors(), alpha, c),
{
    get_from_palate(green_palette(), alpha)
}

/// A random colour of the blue palette.
pub fn get_random_blue(alpha: Option<u8>) -> (c: Rgba8)
    ensures
        is_palette_pick(blue_colors(), alpha, c),
{
    get_from_palate(blue_palette(), alpha)
}

/// The fully opaque colour with the given channels.
pub fn opaque_color(red: u8, green: u8, blue: u8) -> (c: Rgba8)
    ensures
        c == (Rgba8 { red, green, blue, alpha: 255 }),
{
    Rgba8 { red, green, blue, alpha: 255 }
}

/// An opaque colour with each channel drawn from `0..255`.
pub fn get_random_color() -> (c: Rgba8)
    ensures
        c.red < 255,
        c.green < 255,
        c.blue < 255,
        c.alpha == 255,
{
    let r = random_below(0, 255) as u8;
    let g = random_below(0, 255) as u8;
    let b = random_below(0, 255) as u8;
    opaque_color(r, g, b)
}

} // verus!
