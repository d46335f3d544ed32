//! The drawable primitives that frames are made of.
use std::rc::Rc;

use vstd::prelude::*;

use crate::runtime::Frame;

verus! {

/// A point or an offset in the plane, in whole units. Scaling a position by
/// a fraction rounds it down.
#[derive(Clone, Copy, Debug, PartialEq, Eq, Structural)]
pub struct Vec2 {
    pub x: i64,
    pub y: i64,
}

impl Vec2 {
    pub fn new(x: i64, y: i64) -> (r: Vec2)
        ensures
            r == (Vec2 { x, y }),
    {
        Vec2 { x, y }
    }

    pub fn zero() -> (r: Vec2)
        ensures
            r == (Vec2 { x: 0, y: 0 }),
    {
        Vec2 { x: 0, y: 0 }
    }
}

/// A color with three 8-bit channels.
#[derive(Clone, Copy, Debug, PartialEq, Eq, Structural)]
pub struct Color {
    pub r: u8,
    pub g: u8,
    pub b: u8,
}

/// The lowercase hexadecimal digits.
pub open spec fn hex_digits() -> Seq<char> {
    seq!['0', '1', '2', '3', '4', '5', '6', '7', '8', '9', 'a', 'b', 'c', 'd', 'e', 'f']
}

/// A byte as two lowercase hexadecimal digits.
pub open spec fn hex_byte(v: u8) -> Seq<char> {
    seq![hex_digits()[v as int / 16], hex_digits()[v as int % 16]]
}

impl Color {
    pub fn new(r: u8, g: u8, b: u8) -> (c: Color)
        ensures
            c == (Color { r, g, b }),
    {
        Color { r, g, b }
    }

    /// The color as it is written: `#rrggbb`, in lowercase.
    pub fn to_hex(&self) -> (s: String)
        ensures
            s@ == seq!['#'] + hex_byte(self.r) + hex_byte(self.g) + hex_byte(self.b),
    {
        proof {
            reveal_strlit("#");
        }
        let mut s = String::new();
        s.append("#");
        push_hex_byte(&mut s, self.r);
        push_hex_byte(&mut s, self.g);
        push_hex_byte(&mut s, self.b);
        assert(s@ =~= seq!['#'] + hex_byte(self.r) + hex_byte(self.g) + hex_byte(self.b));
        s
    }
}

fn push_hex_byte(s: &mut String, v: u8)
    ensures
        final(s)@ == old(s)@ + hex_byte(v),
{
    let digits = "0123456789abcdef";
    proof {
        reveal_strlit("0123456789abcdef");
        assert(digits@ =~= hex_digits());
    }
    let hi = digits.substring_char((v / 16) as usize, (v / 16) as usize + 1);
    let lo = digits.substring_char((v % 16) as usize, (v % 16) as usize + 1);
    s.append(hi);
    s.append(lo);
    assert(hi@ =~= seq![hex_digits()[v as int / 16]]);
    assert(lo@ =~= seq![hex_digits()[v as int % 16]]);
    assert(s@ =~= old(s)@ + hex_byte(v));
}

/// A glyph of a font, placed at a position.
#[derive(Clone, Copy, Debug, PartialEq, Eq, Structural)]
pub struct Glyph {
    pub index: u64,
    pub x: i64,
    pub y: i64,
}

/// A polygon drawn as an outline.
#[derive(Debug)]
pub struct StrokePolygon {
    pub color: Color,
    pub line_width: i64,
    pub close: bool,
    pub vertices: Vec<Vec2>,
}

/// A filled polygon.
#[derive(Debug)]
pub struct FillPolygon {
    pub color: Color,
    pub vertices: Vec<Vec2>,
}

/// A run of shaped glyphs in one font.
#[derive(Debug)]
pub struct Text {
    pub color: Color,
    pub font_family: String,
    pub font_style: String,
    pub font_size: i64,
    pub glyphs: Vec<Glyph>,
}

/// An embedded vector image, by path and intrinsic size.
#[derive(Debug)]
pub struct Svg {
    pub path: String,
    pub width: i64,
    pub height: i64,
}

/// An element placed at an offset within a frame.
#[derive(Debug)]
pub struct Placed {
    pub offset: Vec2,
    pub element: Element,
}

/// A drawable primitive.
#[derive(Debug)]
pub enum Element {
    StrokePolygon(StrokePolygon),
    FillPolygon(FillPolygon),
    Text(Text),
    Svg(Svg),
    /// A frame, shared with its other users, drawn at the scale `num / den`.
    Scaled { frame: Rc<Frame>, num: i64, den: u64 },
}

} // verus!
