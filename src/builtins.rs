//! The builtin functions: each checks its arguments, reads what it needs from
//! the environment and the resources, and builds a value.
use std::rc::Rc;

use vstd::prelude::*;

use crate::elements::{Element, FillPolygon, Glyph, StrokePolygon, Svg, Text, Vec2};
use crate::error::Error;
use crate::runtime::{
    binding_error, color_of, face_index, fits_i64, image_of, lemma_floor_of_negative, length_of,
    ratio_greater, run_of, same_text, scale_box, scale_coord, scaled, spanning, text_of,
    typed_binding, union_box, empty_box, lemma_union_associative, lemma_union_commutative, BoundingBox, Env, FontFace, FontMap, Frame, Image, Scope, ShapedGlyph, Val,
};
use crate::types::ValType;

verus! {

/// Whether the arguments have exactly the expected types.
pub open spec fn args_match(expected: Seq<ValType>, actual: Seq<Val>) -> bool {
    expected.len() == actual.len() && forall|i: int|
        0 <= i < expected.len() ==> expected[i] == (#[trigger] actual[i]).type_of()
}

/// Whether `e` is the error that checking the arguments of `fn_name` gives:
/// the arity first, then the first argument of the wrong type.
pub open spec fn validation_error(
    fn_name: Seq<char>,
    expected: Seq<ValType>,
    actual: Seq<Val>,
    e: Error,
) -> bool {
    if expected.len() != actual.len() {
        match e {
            Error::Arity { fn_name: n, expected_count, actual_count } => n@ == fn_name
                && expected_count == expected.len() && actual_count == actual.len(),
            _ => false,
        }
    } else {
        match e {
            Error::ArgType { fn_name: n, expected: t, actual: a, arg } => {
                &&& n@ == fn_name
                &&& arg < expected.len()
                &&& t == expected[arg as int]
                &&& a == actual[arg as int].type_of()
                &&& t != a
                &&& forall|j: int|
                    0 <= j < arg ==> expected[j] == (#[trigger] actual[j]).type_of()
            },
            _ => false,
        }
    }
}

/// Checks the number and the types of the arguments of a builtin.
pub fn validate_args(fn_name: &str, expected: &[ValType], actual: &[Val]) -> (r: Result<(), Error>)
    ensures
        r is Ok <==> args_match(expected@, actual@),
        r matches Err(e) ==> validation_error(fn_name@, expected@, actual@, e),
{
    // First check that there are exactly the right number of arguments.
    if expected.len() != actual.len() {
        return Err(
            Error::Arity {
                fn_name: fn_name.to_owned(),
                expected_count: expected.len(),
                actual_count: actual.len(),
            },
        );
    }
    // Then check the type of each.

    let mut i: usize = 0;
    while i < expected.len()
        invariant
            expected@.len() == actual@.len(),
            i <= expected@.len(),
            forall|j: int| 0 <= j < i ==> expected@[j] == (#[trigger] actual@[j]).type_of(),
        decreases expected.len() - i,
    {
        let t = actual[i].get_type();
        if expected[i] != t {
            return Err(
                Error::ArgType { fn_name: fn_name.to_owned(), expected: expected[i], actual: t, arg: i },
            );
        }
        i += 1;
    }
    Ok(())
}

/// The texts of string slices.
pub open spec fn str_views(s: Seq<&str>) -> Seq<Seq<char>> {
    s.map_values(|l: &str| l@)
}

/// The glyphs of shaped runs.
pub open spec fn run_views(s: Seq<&Vec<ShapedGlyph>>) -> Seq<Seq<ShapedGlyph>> {
    s.map_values(|x: &Vec<ShapedGlyph>| x@)
}

/// The first index at or after `i` that holds a newline, or the length.
pub open spec fn newline_from(s: Seq<char>, i: int) -> int
    decreases s.len() - i,
{
    if i < 0 || i >= s.len() || s[i] == '\n' {
        i
    } else {
        newline_from(s, i + 1)
    }
}

pub proof fn lemma_newline_from(s: Seq<char>, i: int)
    requires
        0 <= i <= s.len(),
    ensures
        i <= newline_from(s, i) <= s.len(),
        newline_from(s, i) < s.len() ==> s[newline_from(s, i)] == '\n',
        forall|k: int| i <= k < newline_from(s, i) ==> s[k] != '\n',
    decreases s.len() - i,
{
    if i < s.len() && s[i] != '\n' {
        lemma_newline_from(s, i + 1);
    }
}

/// The lines of a text: the pieces between newlines, the last one kept
/// even when it is empty.
pub open spec fn lines_of(s: Seq<char>) -> Seq<Seq<char>>
    decreases s.len(),
{
    let i = newline_from(s, 0);
    if i >= s.len() {
        seq![s]
    } else {
        proof {
            lemma_newline_from(s, 0);
        }
        seq![s.subrange(0, i)] + lines_of(s.subrange(i + 1, s.len() as int))
    }
}

/// Splits a string on newlines. Unlike `str::lines`, a final newline is
/// not swallowed: the text has one line more than it has newlines.
pub fn split_lines(text: &str) -> (lines: Vec<&str>)
    ensures
        str_views(lines@) == lines_of(text@),
{
    let n = text.unicode_len();
    let mut lines: Vec<&str> = Vec::new();
    let mut begin: usize = 0;
    let mut i: usize = 0;
    assert(text@.subrange(0, n as int) =~= text@);
    assert(str_views(lines@) + lines_of(text@) =~= lines_of(text@));
    while i < n
        invariant
            n == text@.len(),
            begin <= i <= n,
            forall|k: int| begin <= k < i ==> text@[k] != '\n',
            str_views(lines@) + lines_of(text@.subrange(begin as int, n as int))
                == lines_of(text@),
        decreases n - i,
    {
        if text.get_char(i) == '\n' {
            let ghost rest = text@.subrange(begin as int, n as int);
            proof {
                lemma_newline_from(rest, 0);
                lemma_newline_at(rest, i - begin);
                assert(rest.subrange(0, i - begin) =~= text@.subrange(begin as int, i as int));
                assert(rest.subrange(i - begin + 1, rest.len() as int) =~= text@.subrange(
                    i + 1,
                    n as int,
                ));
            }
            let line = text.substring_char(begin, i);
            let ghost before = str_views(lines@);
            lines.push(line);
            assert(str_views(lines@) =~= before.push(line@));
            assert(before + lines_of(rest) =~= before.push(line@) + lines_of(
                text@.subrange(i + 1, n as int),
            ));
            begin = i + 1;
        }
        i += 1;
    }
    let ghost rest = text@.subrange(begin as int, n as int);
    proof {
        lemma_newline_from(rest, 0);
        lemma_newline_at(rest, rest.len() as int);
        assert(rest.subrange(0, rest.len() as int) =~= rest);
    }
    let line = text.substring_char(begin, n);
    let ghost before = str_views(lines@);
    lines.push(line);
    assert(str_views(lines@) =~= before.push(line@));
    assert(before + lines_of(rest) =~= before.push(line@));
    lines
}

proof fn lemma_newline_at(s: Seq<char>, i: int)
    requires
        0 <= i <= s.len(),
        forall|k: int| 0 <= k < i ==> s[k] != '\n',
        i < s.len() ==> s[i] == '\n',
    ensures
        newline_from(s, 0) == i,
{
    lemma_newline_from(s, 0);
}

pub open spec fn digit_char(d: int) -> char {
    if d == 0 {
        '0'
    } else if d == 1 {
        '1'
    } else if d == 2 {
        '2'
    } else if d == 3 {
        '3'
    } else if d == 4 {
        '4'
    } else if d == 5 {
        '5'
    } else if d == 6 {
        '6'
    } else if d == 7 {
        '7'
    } else if d == 8 {
        '8'
    } else {
        '9'
    }
}

/// The decimal digits of `n`, most significant first, without leading zeros.
pub open spec fn decimal_digits(n: nat) -> Seq<char>
    decreases n,
{
    if n < 10 {
        seq![digit_char(n as int)]
    } else {
        decimal_digits(n / 10).push(digit_char((n % 10) as int))
    }
}

/// The decimal form of an integer, with a minus sign when it is negative.
pub open spec fn decimal(x: int) -> Seq<char> {
    if x < 0 {
        seq!['-'] + decimal_digits((-x) as nat)
    } else {
        decimal_digits(x as nat)
    }
}

fn digit_str(d: u64) -> (r: &'static str)
    requires
        d < 10,
    ensures
        r@ == seq![digit_char(d as int)],
{
    if d == 0 {
        proof {
            reveal_strlit("0");
        }
        "0"
    } else if d == 1 {
        proof {
            reveal_strlit("1");
        }
        "1"
    } else if d == 2 {
        proof {
            reveal_strlit("2");
        }
        "2"
    } else if d == 3 {
        proof {
            reveal_strlit("3");
        }
        "3"
    } else if d == 4 {
        proof {
            reveal_strlit("4");
        }
        "4"
    } else if d == 5 {
        proof {
            reveal_strlit("5");
        }
        "5"
    } else if d == 6 {
        proof {
            reveal_strlit("6");
        }
        "6"
    } else if d == 7 {
        proof {
            reveal_strlit("7");
        }
        "7"
    } else if d == 8 {
        proof {
            reveal_strlit("8");
        }
        "8"
    } else {
        proof {
            reveal_strlit("9");
        }
        "9"
    }
}

fn push_digits(s: &mut String, n: u64)
    ensures
        final(s)@ == old(s)@ + decimal_digits(n as nat),
    decreases n,
{
    if n >= 10 {
        push_digits(s, n / 10);
    }
    s.append(digit_str(n % 10));
    assert(decimal_digits(n as nat) == (if n < 10 {
        seq![digit_char(n as int)]
    } else {
        decimal_digits((n / 10) as nat).push(digit_char((n % 10) as int))
    }));
}

/// The decimal form of an integer.
pub fn to_decimal(x: i64) -> (r: String)
    ensures
        r@ == decimal(x as int),
{
    let mut s = String::new();
    if x < 0 {
        proof {
            reveal_strlit("-");
        }
        s.append("-");
    }
    let n: u64 = if x < 0 {
        (-(x as i128)) as u64
    } else {
        x as u64
    };
    push_digits(&mut s, n);
    s
}

/// Formats a dimensionless number as a string.
pub fn str(_fm: &FontMap, _env: &Env, args: Vec<Val>) -> (r: Result<Val, Error>)
    ensures
        !args_match(seq![ValType::Num(0)], args@) ==> (match r {
            Err(e) => validation_error("str"@, seq![ValType::Num(0)], args@, e),
            _ => false,
        }),
        args_match(seq![ValType::Num(0)], args@) ==> (match (args@[0], r) {
            (Val::Num(x, _), Ok(Val::Str(s))) => s@ == decimal(x as int),
            _ => false,
        }),
{
    match validate_args("str", &[ValType::Num(0)], args.as_slice()) {
        Err(e) => return Err(e),
        Ok(()) => {},
    }
    let num = match &args[0] {
        Val::Num(x, _) => *x,
        _ => {
            proof {
                assert(args@[0].type_of() == ValType::Num(0));
            }
            0
        },
    };
    Ok(Val::Str(to_decimal(num)))
}

/// The two components of a coordinate value.
pub open spec fn coord_of(v: Val) -> (i64, i64) {
    match v {
        Val::Coord(x, y, _) => (x, y),
        _ => (0, 0),
    }
}

/// Whether `r` is a frame holding the one element `el` at the origin, with
/// the given anchor and bounding box.
pub open spec fn single_element_frame(
    r: Result<Val, Error>,
    el: spec_fn(Element) -> bool,
    anchor: Vec2,
    bb: BoundingBox,
) -> bool {
    match r {
        Ok(Val::Frame(f)) => {
            &&& f.elements@.len() == 1
            &&& f.elements@[0].offset == Vec2 { x: 0, y: 0 }
            &&& el(f.elements@[0].element)
            &&& f.anchor == anchor
            &&& f.bounding_box == bb
        },
        _ => false,
    }
}

/// Whether `r` is the error of looking up `name` with type `ty`.
pub open spec fn fails_with_binding(
    r: Result<Val, Error>,
    scopes: Seq<Scope>,
    name: Seq<char>,
    ty: ValType,
) -> bool {
    match r {
        Err(e) => binding_error(scopes, name, ty, e),
        _ => false,
    }
}

/// Whether `r` is the error of checking the arguments.
pub open spec fn fails_validation(
    r: Result<Val, Error>,
    fn_name: Seq<char>,
    expected: Seq<ValType>,
    args: Seq<Val>,
) -> bool {
    match r {
        Err(e) => validation_error(fn_name, expected, args, e),
        _ => false,
    }
}

/// What `line` owes once its argument is a length coordinate `(x, y)`.
pub open spec fn line_outcome(scopes: Seq<Scope>, x: i64, y: i64, r: Result<Val, Error>) -> bool {
    match typed_binding(scopes, "color"@, ValType::Color) {
        None => fails_with_binding(r, scopes, "color"@, ValType::Color),
        Some(c) => match typed_binding(scopes, "line_width"@, ValType::Num(1)) {
            None => fails_with_binding(r, scopes, "line_width"@, ValType::Num(1)),
            Some(w) => single_element_frame(
                r,
                |el: Element|
                    match el {
                        Element::StrokePolygon(p) => {
                            &&& p.color == color_of(c)
                            &&& p.line_width == length_of(w)
                            &&& !p.close
                            &&& p.vertices@ == seq![Vec2 { x: 0, y: 0 }, Vec2 { x, y }]
                        },
                        _ => false,
                    },
                Vec2 { x, y },
                spanning(0, 0, x, y),
            ),
        },
    }
}

/// A frame with one stroked segment from the origin to the given point, in
/// the ambient `color` and `line_width`.
pub fn line(_fm: &FontMap, env: &Env, args: Vec<Val>) -> (r: Result<Val, Error>)
    ensures
        !args_match(seq![ValType::Coord(1)], args@) ==> fails_validation(
            r,
            "line"@,
            seq![ValType::Coord(1)],
            args@,
        ),
        args_match(seq![ValType::Coord(1)], args@) ==> line_outcome(
            env.scopes@,
            coord_of(args@[0]).0,
            coord_of(args@[0]).1,
            r,
        ),
{
    match validate_args("line", &[ValType::Coord(1)], args.as_slice()) {
        Err(e) => return Err(e),
        Ok(()) => {},
    }
    let offset = match &args[0] {
        Val::Coord(x, y, _) => Vec2::new(*x, *y),
        _ => Vec2::zero(),
    };
    let color = match env.lookup_color("color") {
        Ok(c) => c,
        Err(e) => return Err(e),
    };
    let line_width = match env.lookup_len("line_width") {
        Ok(w) => w,
        Err(e) => return Err(e),
    };
    let line = StrokePolygon {
        color: color,
        line_width: line_width,
        close: false,
        vertices: vec![Vec2::zero(), offset],
    };
    let mut frame = Frame::new();
    frame.place_element(Vec2::zero(), Element::StrokePolygon(line));
    frame.set_anchor(offset);
    frame.union_bounding_box(&BoundingBox::sized(offset.x, offset.y));
    Ok(Val::Frame(Rc::new(frame)))
}

/// What `fill_rectangle` owes once its argument is a length coordinate `(w, h)`.
pub open spec fn rectangle_outcome(scopes: Seq<Scope>, w: i64, h: i64, r: Result<Val, Error>) -> bool {
    match typed_binding(scopes, "color"@, ValType::Color) {
        None => fails_with_binding(r, scopes, "color"@, ValType::Color),
        Some(c) => single_element_frame(
            r,
            |el: Element|
                match el {
                    Element::FillPolygon(p) => {
                        &&& p.color == color_of(c)
                        &&& p.vertices@ == seq![
                            Vec2 { x: 0, y: 0 },
                            Vec2 { x: 0, y: h },
                            Vec2 { x: w, y: h },
                            Vec2 { x: w, y: 0 },
                        ]
                    },
                    _ => false,
                },
            Vec2 { x: w, y: h },
            spanning(0, 0, w, h),
        ),
    }
}

/// A frame with one filled rectangle from the origin to `(w, h)`, in the
/// ambient `color`; it is anchored at its far corner.
pub fn fill_rectangle(_fm: &FontMap, env: &Env, args: Vec<Val>) -> (r: Result<Val, Error>)
    ensures
        !args_match(seq![ValType::Coord(1)], args@) ==> fails_validation(
            r,
            "fill_rectangle"@,
            seq![ValType::Coord(1)],
            args@,
        ),
        args_match(seq![ValType::Coord(1)], args@) ==> rectangle_outcome(
            env.scopes@,
            coord_of(args@[0]).0,
            coord_of(args@[0]).1,
            r,
        ),
{
    match validate_args("fill_rectangle", &[ValType::Coord(1)], args.as_slice()) {
        Err(e) => return Err(e),
        Ok(()) => {},
    }
    let (w, h) = match &args[0] {
        Val::Coord(x, y, _) => (*x, *y),
        _ => (0, 0),
    };
    let color = match env.lookup_color("color") {
        Ok(c) => c,
        Err(e) => return Err(e),
    };
    let rect = FillPolygon {
        color: color,
        vertices: vec![Vec2::zero(), Vec2::new(0, h), Vec2::new(w, h), Vec2::new(w, 0)],
    };
    let mut frame = Frame::new();
    frame.place_element(Vec2::zero(), Element::FillPolygon(rect));
    frame.set_anchor(Vec2::new(w, h));
    frame.union_bounding_box(&BoundingBox::sized(w, h));
    Ok(Val::Frame(Rc::new(frame)))
}

/// Whether a path names an svg file.
pub open spec fn is_svg_path(p: Seq<char>) -> bool {
    p.len() >= 4 && p.subrange(p.len() - 4, p.len() as int) == seq!['.', 's', 'v', 'g']
}

fn ends_with_svg(p: &str) -> (r: bool)
    ensures
        r == is_svg_path(p@),
{
    let n = p.unicode_len();
    if n < 4 {
        return false;
    }
    let r = p.get_char(n - 4) == '.' && p.get_char(n - 3) == 's' && p.get_char(n - 2) == 'v'
        && p.get_char(n - 1) == 'g';
    assert(r == (p@.subrange(n - 4, n as int) =~= seq!['.', 's', 'v', 'g']));
    r
}

/// What `image` owes once its argument is the string `path`.
pub open spec fn image_outcome(images: Seq<Image>, path: Seq<char>, r: Result<Val, Error>) -> bool {
    if !is_svg_path(path) {
        match r {
            Err(Error::UnsupportedImage { path: p }) => p@ == path,
            _ => false,
        }
    } else {
        match image_of(images, path) {
            None => match r {
                Err(Error::MissingFile { path: p }) => p@ == path,
                _ => false,
            },
            Some((w, h)) => single_element_frame(
                r,
                |el: Element|
                    match el {
                        Element::Svg(s) => s.path@ == path && s.width == w && s.height == h,
                        _ => false,
                    },
                Vec2 { x: w, y: 0 },
                spanning(0, 0, w, h),
            ),
        }
    }
}

/// A frame that holds the svg image at the given path, anchored at its top
/// right so that images can be put side by side.
pub fn image(fm: &FontMap, _env: &Env, args: Vec<Val>) -> (r: Result<Val, Error>)
    ensures
        !args_match(seq![ValType::Str], args@) ==> fails_validation(
            r,
            "image"@,
            seq![ValType::Str],
            args@,
        ),
        args_match(seq![ValType::Str], args@) ==> image_outcome(
            fm.images@,
            text_of(args@[0]),
            r,
        ),
{
    match validate_args("image", &[ValType::Str], args.as_slice()) {
        Err(e) => return Err(e),
        Ok(()) => {},
    }
    let mut args = args;
    let path = match args.remove(0) {
        Val::Str(s) => s,
        _ => String::new(),
    };
    if !ends_with_svg(path.as_str()) {
        return Err(Error::UnsupportedImage { path });
    }
    let (width, height) = match fm.image_size(path.as_str()) {
        Some(size) => size,
        None => return Err(Error::MissingFile { path }),
    };
    let mut frame = Frame::new();
    frame.place_element(Vec2::zero(), Element::Svg(Svg { path, width, height }));
    frame.union_bounding_box(&BoundingBox::sized(width, height));
    frame.set_anchor(Vec2::new(width, 0));
    Ok(Val::Frame(Rc::new(frame)))
}

/// The scale `num / den` that fits a box of size `(bw, bh)` into `(w, h)`:
/// by width when the box is wider in proportion than the target, else by
/// height.
pub open spec fn fit_scale(bw: int, bh: int, w: i64, h: i64) -> (i64, int) {
    if ratio_greater(bw, bh, w as int, h as int) {
        (w, bw)
    } else {
        (h, bh)
    }
}

/// What `fit` owes once its arguments are the frame `f` and the length
/// coordinate `(w, h)`.
pub open spec fn fit_outcome(v: Val, w: i64, h: i64, r: Result<Val, Error>) -> bool {
    let frame_rc = match v {
        Val::Frame(f) => f,
        _ => arbitrary(),
    };
    let f = *frame_rc;
    let bb = f.bounding_box;
    if w == 0 || h == 0 {
        r matches Err(Error::FitIntoEmptyBox)
    } else if bb.empty || bb.width() <= 0 || bb.height() <= 0 {
        r matches Err(Error::FitEmptyFrame)
    } else {
        let (num, den) = fit_scale(bb.width(), bb.height(), w, h);
        let ax = scaled(f.anchor.x as int, num as int, den);
        let ay = scaled(f.anchor.y as int, num as int, den);
        match scale_box(bb, num as int, den) {
            Some(sb) if fits_i64(ax) && fits_i64(ay) => match r {
                Ok(Val::Frame(g)) => {
                    &&& g.elements@.len() == 1
                    &&& g.elements@[0].offset == Vec2 { x: 0, y: 0 }
                    &&& g.elements@[0].element == Element::Scaled {
                        frame: frame_rc,
                        num,
                        den: den as u64,
                    }
                    &&& g.anchor == Vec2 { x: ax as i64, y: ay as i64 }
                    &&& g.bounding_box == sb
                },
                _ => false,
            },
            _ => r matches Err(Error::Overflow),
        }
    }
}

/// Fitting depends on a frame's bounding box only through the box itself:
/// two frames with the same anchor, whose boxes joined the same three boxes
/// in different orders and groupings, fit alike. Both fail, or both give
/// the same bounding box and anchor.
pub proof fn lemma_fit_ignores_union_order(
    v1: Val,
    v2: Val,
    a: BoundingBox,
    b: BoundingBox,
    c: BoundingBox,
    w: i64,
    h: i64,
    r1: Result<Val, Error>,
    r2: Result<Val, Error>,
)
    requires
        a.wf(),
        b.wf(),
        c.wf(),
        v1 is Frame,
        v2 is Frame,
        frame_val_anchor(v1) == frame_val_anchor(v2),
        frame_val_box(v1) == union_box(union_box(a, b), c),
        frame_val_box(v2) == union_box(c, union_box(b, a)),
        fit_outcome(v1, w, h, r1),
        fit_outcome(v2, w, h, r2),
    ensures
        (r1 is Ok) == (r2 is Ok),
        match (r1, r2) {
            (Ok(Val::Frame(g1)), Ok(Val::Frame(g2))) => g1.bounding_box == g2.bounding_box
                && g1.anchor == g2.anchor,
            _ => true,
        },
{
    lemma_union_commutative(a, b);
    lemma_union_associative(c, b, a);
    lemma_union_commutative(c, union_box(b, a));
    lemma_union_associative(b, a, c);
    assert(union_box(c, union_box(b, a)) == union_box(union_box(a, b), c));
}

/// The anchor of a frame value.
pub open spec fn frame_val_anchor(v: Val) -> Vec2 {
    match v {
        Val::Frame(f) => f.anchor,
        _ => Vec2 { x: 0, y: 0 },
    }
}

/// The bounding box of a frame value.
pub open spec fn frame_val_box(v: Val) -> BoundingBox {
    match v {
        Val::Frame(f) => f.bounding_box,
        _ => empty_box(),
    }
}

/// Scales a frame so that it fits the target box exactly in one dimension
/// and does not exceed it in the other. Its anchor and bounding box scale by
/// the same factor, rounding down.
pub fn fit(_fm: &FontMap, _env: &Env, args: Vec<Val>) -> (r: Result<Val, Error>)
    ensures
        !args_match(seq![ValType::Frame, ValType::Coord(1)], args@) ==> fails_validation(
            r,
            "fit"@,
            seq![ValType::Frame, ValType::Coord(1)],
            args@,
        ),
        args_match(seq![ValType::Frame, ValType::Coord(1)], args@) ==> fit_outcome(
            args@[0],
            coord_of(args@[1]).0,
            coord_of(args@[1]).1,
            r,
        ),
{
    match validate_args("fit", &[ValType::Frame, ValType::Coord(1)], args.as_slice()) {
        Err(e) => return Err(e),
        Ok(()) => {},
    }
    let ghost a = args@;
    let mut args = args;
    let frame = match args.remove(0) {
        Val::Frame(f) => f,
        _ => Rc::new(Frame::new()),
    };
    let (w, h) = match &args[0] {
        Val::Coord(x, y, _) => (*x, *y),
        _ => (0, 0),
    };
    assert(a[0] == Val::Frame(frame));
    assert(a[1] == args@[0]);
    // Fitting into a box without width or height is nonsense, and would
    // divide by zero below.
    if w == 0 || h == 0 {
        return Err(Error::FitIntoEmptyBox);
    }
    let bb = frame.get_bounding_box();
    if bb.empty || bb.x1 <= bb.x0 || bb.y1 <= bb.y0 {
        return Err(Error::FitEmptyFrame);
    }
    let bw = (bb.x1 as i128 - bb.x0 as i128) as u64;
    let bh = (bb.y1 as i128 - bb.y0 as i128) as u64;
    // Compare the aspect ratios bw / bh and w / h without division.
    proof {
        assert(-0x7fff_ffff_ffff_ffff_8000_0000_0000_0000 <= bw as int * h as int
            <= 0x7fff_ffff_ffff_ffff_8000_0000_0000_0000) by (nonlinear_arith)
            requires
                0 < bw < 0x1_0000_0000_0000_0000,
                i64::MIN <= h <= i64::MAX,
        ;
        assert(-0x7fff_ffff_ffff_ffff_8000_0000_0000_0000 <= w as int * bh as int
            <= 0x7fff_ffff_ffff_ffff_8000_0000_0000_0000) by (nonlinear_arith)
            requires
                0 < bh < 0x1_0000_0000_0000_0000,
                i64::MIN <= w <= i64::MAX,
        ;
    }
    let lhs = bw as i128 * h as i128;
    let rhs = w as i128 * bh as i128;
    let wider = if h > 0 {
        lhs > rhs
    } else {
        lhs < rhs
    };
    let (num, den) = if wider {
        // The frame is constrained by width.
        (w, bw)
    } else {
        // The frame is constrained by height.
        (h, bh)
    };
    let anchor = frame.get_anchor();
    let ax = match scale_coord(anchor.x, num, den) {
        Some(v) => v,
        None => return Err(Error::Overflow),
    };
    let ay = match scale_coord(anchor.y, num, den) {
        Some(v) => v,
        None => return Err(Error::Overflow),
    };
    let sb = match bb.scale(num, den) {
        Some(b) => b,
        None => return Err(Error::Overflow),
    };
    // The scaled group shares the frame: nothing is copied.
    let mut scaled_frame = Frame::new();
    scaled_frame.place_element(Vec2::zero(), Element::Scaled { frame, num, den });
    scaled_frame.set_anchor(Vec2::new(ax, ay));
    scaled_frame.union_bounding_box(&sb);
    Ok(Val::Frame(Rc::new(scaled_frame)))
}

/// The font settings `font_family`, `font_style`, `font_size` and
/// `line_height`, when all four are bound with the right types.
pub open spec fn font_settings(scopes: Seq<Scope>) -> Option<(Val, Val, Val, Val)> {
    match (
        typed_binding(scopes, "font_family"@, ValType::Str),
        typed_binding(scopes, "font_style"@, ValType::Str),
        typed_binding(scopes, "font_size"@, ValType::Num(1)),
        typed_binding(scopes, "line_height"@, ValType::Num(1)),
    ) {
        (Some(family), Some(style), Some(size), Some(lh)) => Some((family, style, size, lh)),
        _ => None,
    }
}

/// Whether `r` is the error of the first of the font settings' lookups that
/// fails.
pub open spec fn fails_font_settings(scopes: Seq<Scope>, r: Result<Val, Error>) -> bool {
    if typed_binding(scopes, "font_family"@, ValType::Str) is None {
        fails_with_binding(r, scopes, "font_family"@, ValType::Str)
    } else if typed_binding(scopes, "font_style"@, ValType::Str) is None {
        fails_with_binding(r, scopes, "font_style"@, ValType::Str)
    } else if typed_binding(scopes, "font_size"@, ValType::Num(1)) is None {
        fails_with_binding(r, scopes, "font_size"@, ValType::Num(1))
    } else {
        fails_with_binding(r, scopes, "line_height"@, ValType::Num(1))
    }
}

/// Whether `r` is the error for a missing font.
pub open spec fn fails_missing_font(r: Result<Val, Error>, family: Seq<char>, style: Seq<char>) -> bool {
    match r {
        Err(Error::MissingFont { family: f, style: s }) => f@ == family && s@ == style,
        _ => false,
    }
}

/// What `glyph` owes once its argument is the number `x`.
pub open spec fn glyph_outcome(
    faces: Seq<FontFace>,
    scopes: Seq<Scope>,
    x: i64,
    r: Result<Val, Error>,
) -> bool {
    if x < 0 {
        match r {
            Err(Error::InvalidGlyphIndex { index }) => index == x,
            _ => false,
        }
    } else {
        match font_settings(scopes) {
            None => fails_font_settings(scopes, r),
            Some((family, style, size, lh)) => match face_index(
                faces,
                text_of(family),
                text_of(style),
            ) {
                None => fails_missing_font(r, text_of(family), text_of(style)),
                Some(_) => match typed_binding(scopes, "color"@, ValType::Color) {
                    None => fails_with_binding(r, scopes, "color"@, ValType::Color),
                    Some(c) => if length_of(lh) == i64::MIN {
                        r matches Err(Error::Overflow)
                    } else {
                        single_element_frame(
                            r,
                            |el: Element|
                                match el {
                                    Element::Text(t) => {
                                        &&& t.color == color_of(c)
                                        &&& t.font_family@ == text_of(family)
                                        &&& t.font_style@ == text_of(style)
                                        &&& t.font_size == length_of(size)
                                        &&& t.glyphs@ == seq![Glyph { index: x as u64, x: 0, y: 0 }]
                                    },
                                    _ => false,
                                },
                            Vec2 { x: 0, y: 0 },
                            spanning(0, (-length_of(lh)) as i64, 0, (-length_of(lh)) as i64),
                        )
                    },
                },
            },
        }
    }
}

/// A frame with the single glyph of the given index at the origin, in the
/// ambient font.
pub fn glyph(fm: &FontMap, env: &Env, args: Vec<Val>) -> (r: Result<Val, Error>)
    ensures
        !args_match(seq![ValType::Num(0)], args@) ==> fails_validation(
            r,
            "glyph"@,
            seq![ValType::Num(0)],
            args@,
        ),
        args_match(seq![ValType::Num(0)], args@) ==> glyph_outcome(
            fm.faces@,
            env.scopes@,
            length_of(args@[0]),
            r,
        ),
{
    match validate_args("glyph", &[ValType::Num(0)], args.as_slice()) {
        Err(e) => return Err(e),
        Ok(()) => {},
    }
    let index = match &args[0] {
        Val::Num(x, _) => *x,
        _ => 0,
    };
    if index < 0 {
        return Err(Error::InvalidGlyphIndex { index });
    }
    let font_family = match env.lookup_str("font_family") {
        Ok(s) => s,
        Err(e) => return Err(e),
    };
    let font_style = match env.lookup_str("font_style") {
        Ok(s) => s,
        Err(e) => return Err(e),
    };
    let font_size = match env.lookup_len("font_size") {
        Ok(v) => v,
        Err(e) => return Err(e),
    };
    let line_height = match env.lookup_len("line_height") {
        Ok(v) => v,
        Err(e) => return Err(e),
    };
    if fm.get(font_family.as_str(), font_style.as_str()).is_none() {
        return Err(Error::MissingFont { family: font_family, style: font_style });
    }
    let color = match env.lookup_color("color") {
        Ok(c) => c,
        Err(e) => return Err(e),
    };
    if line_height == i64::MIN {
        return Err(Error::Overflow);
    }
    let ghost glyphs = seq![Glyph { index: index as u64, x: 0, y: 0 }];
    let text_elem = Text {
        color: color,
        font_family: font_family,
        font_style: font_style,
        font_size: font_size,
        glyphs: vec![Glyph { index: index as u64, x: 0, y: 0 }],
    };
    // The width of the glyph is not known here.
    let width: i64 = 0;
    let mut frame = Frame::new();
    frame.place_element(Vec2::zero(), Element::Text(text_elem));
    frame.set_anchor(Vec2::new(width, 0));
    frame.union_bounding_box(&BoundingBox::new(Vec2::new(0, -line_height), Vec2::new(width, 0)));
    assert(frame.elements@[0].element matches Element::Text(t) && t.glyphs@ == glyphs);
    assert(frame.bounding_box == spanning(0, (-line_height) as i64, 0, (-line_height) as i64));
    Ok(Val::Frame(Rc::new(frame)))
}

/// A length in font units scaled to a font size: font units are thousandths
/// of the size.
pub open spec fn font_scaled(v: i32, font_size: i64) -> int {
    (v as int * font_size as int) / 1000
}

/// The pen position after the first `k` glyphs of a run.
pub open spec fn pen(run: Seq<ShapedGlyph>, font_size: i64, k: int) -> (int, int)
    decreases k,
{
    if k <= 0 {
        (0, 0)
    } else {
        let p = pen(run, font_size, k - 1);
        let g = run[k - 1];
        (
            p.0 + font_scaled(g.x_offset, font_size) + font_scaled(g.x_advance, font_size),
            p.1 + font_scaled(g.y_offset, font_size) + font_scaled(g.y_advance, font_size),
        )
    }
}

/// Where the glyph at `k` of a run is placed.
pub open spec fn glyph_pos(run: Seq<ShapedGlyph>, font_size: i64, k: int) -> (int, int) {
    let p = pen(run, font_size, k);
    (p.0 + font_scaled(run[k].x_offset, font_size), p.1 + font_scaled(run[k].y_offset, font_size))
}

/// The glyph at `k` of a run, placed.
pub open spec fn run_glyph(run: Seq<ShapedGlyph>, font_size: i64, k: int) -> Glyph {
    Glyph {
        index: run[k].codepoint as u64,
        x: glyph_pos(run, font_size, k).0 as i64,
        y: glyph_pos(run, font_size, k).1 as i64,
    }
}

/// Whether every pen and glyph position of a run fits in `i64`.
pub open spec fn run_fits(run: Seq<ShapedGlyph>, font_size: i64) -> bool {
    &&& forall|k: int| #![trigger pen(run, font_size, k)] 0 <= k <= run.len() ==> fits_i64(pen(run, font_size, k).0)
        && fits_i64(pen(run, font_size, k).1)
    &&& forall|k: int| #![trigger glyph_pos(run, font_size, k)] 0 <= k < run.len() ==> fits_i64(glyph_pos(run, font_size, k).0)
        && fits_i64(glyph_pos(run, font_size, k).1)
}

/// The advance width of a run.
pub open spec fn run_width(run: Seq<ShapedGlyph>, font_size: i64) -> int {
    pen(run, font_size, run.len() as int).0
}

fn font_scale(v: i32, font_size: i64) -> (r: i128)
    ensures
        r == font_scaled(v, font_size),
        -0x20_0000_0000_0000_0000_0000 <= r <= 0x20_0000_0000_0000_0000_0000,
{
    proof {
        assert(-0x4000_0000_0000_0000_0000_0000 <= v as int * font_size as int
            <= 0x4000_0000_0000_0000_0000_0000) by (nonlinear_arith)
            requires
                i32::MIN <= v <= i32::MAX,
                i64::MIN <= font_size <= i64::MAX,
        ;
    }
    let p = v as i128 * font_size as i128;
    let q: i128 = if p >= 0 {
        (p as u128 / 1000) as i128
    } else {
        let m = (-p) as u128;
        proof {
            lemma_floor_of_negative(m as int, 1000);
        }
        -(((m + 999) / 1000) as i128)
    };
    assert(q == p / 1000);
    proof {
        vstd::arithmetic::div_mod::lemma_fundamental_div_mod(p as int, 1000);
    }
    q
}

fn to_i64(v: i128) -> (r: Option<i64>)
    ensures
        r == (if fits_i64(v as int) {
            Some(v as i64)
        } else {
            None
        }),
{
    if v < i64::MIN as i128 || v > i64::MAX as i128 {
        None
    } else {
        Some(v as i64)
    }
}

/// Places the glyphs of a shaped run at absolute positions, scaled to the
/// font size, and returns them with the width of the run; `None` when a
/// position leaves the range of `i64`.
fn typeset_line(run: &Vec<ShapedGlyph>, font_size: i64) -> (r: Option<(Vec<Glyph>, i64)>)
    ensures
        r is Some <==> run_fits(run@, font_size),
        r matches Some((g, w)) ==> {
            &&& g@.len() == run@.len()
            &&& w == run_width(run@, font_size)
            &&& forall|k: int|
                0 <= k < run@.len() ==> #[trigger] g@[k] == run_glyph(run@, font_size, k)
        },
{
    let mut glyphs: Vec<Glyph> = Vec::new();
    let mut cur_x: i64 = 0;
    let mut cur_y: i64 = 0;
    let mut k: usize = 0;
    while k < run.len()
        invariant
            k <= run@.len(),
            glyphs@.len() == k,
            cur_x == pen(run@, font_size, k as int).0,
            cur_y == pen(run@, font_size, k as int).1,
            forall|j: int| #![trigger pen(run@, font_size, j)] 0 <= j <= k ==> fits_i64(pen(run@, font_size, j).0)
                && fits_i64(pen(run@, font_size, j).1),
            forall|j: int| #![trigger glyph_pos(run@, font_size, j)] 0 <= j < k ==> fits_i64(glyph_pos(run@, font_size, j).0)
                && fits_i64(glyph_pos(run@, font_size, j).1),
            forall|j: int|
                0 <= j < k ==> #[trigger] glyphs@[j] == run_glyph(run@, font_size, j),
        decreases run.len() - k,
    {
        let g = run[k];
        let ghost gp = glyph_pos(run@, font_size, k as int);
        let ghost next = pen(run@, font_size, k + 1);
        let gx = match to_i64(cur_x as i128 + font_scale(g.x_offset, font_size)) {
            Some(v) => v,
            None => {
                assert(!fits_i64(gp.0));
                return None;
            },
        };
        let gy = match to_i64(cur_y as i128 + font_scale(g.y_offset, font_size)) {
            Some(v) => v,
            None => {
                assert(!fits_i64(gp.1));
                return None;
            },
        };
        glyphs.push(Glyph { index: g.codepoint as u64, x: gx, y: gy });
        cur_x = match to_i64(gx as i128 + font_scale(g.x_advance, font_size)) {
            Some(v) => v,
            None => {
                assert(!fits_i64(next.0));
                return None;
            },
        };
        cur_y = match to_i64(gy as i128 + font_scale(g.y_advance, font_size)) {
            Some(v) => v,
            None => {
                assert(!fits_i64(next.1));
                return None;
            },
        };
        k += 1;
    }
    Some((glyphs, cur_x))
}

/// The horizontal alignment of lines of text.
#[derive(Clone, Copy, Debug, PartialEq, Eq, Structural)]
pub enum TextAlign {
    Left,
    Center,
    Right,
}

/// The alignment that a `text_align` value names.
pub open spec fn align_of(s: Seq<char>) -> Option<TextAlign> {
    if s == seq!['l', 'e', 'f', 't'] {
        Some(TextAlign::Left)
    } else if s == seq!['c', 'e', 'n', 't', 'e', 'r'] {
        Some(TextAlign::Center)
    } else if s == seq!['r', 'i', 'g', 'h', 't'] {
        Some(TextAlign::Right)
    } else {
        None
    }
}

fn parse_align(s: &str) -> (r: Option<TextAlign>)
    ensures
        r == align_of(s@),
{
    proof {
        reveal_strlit("left");
        reveal_strlit("center");
        reveal_strlit("right");
    }
    if same_text(s, "left") {
        assert("left"@ =~= seq!['l', 'e', 'f', 't']);
        Some(TextAlign::Left)
    } else if same_text(s, "center") {
        assert("center"@ =~= seq!['c', 'e', 'n', 't', 'e', 'r']);
        Some(TextAlign::Center)
    } else if same_text(s, "right") {
        assert("right"@ =~= seq!['r', 'i', 'g', 'h', 't']);
        Some(TextAlign::Right)
    } else {
        assert("left"@ =~= seq!['l', 'e', 'f', 't']);
        assert("center"@ =~= seq!['c', 'e', 'n', 't', 'e', 'r']);
        assert("right"@ =~= seq!['r', 'i', 'g', 'h', 't']);
        None
    }
}

/// The horizontal offset of a line of the given width: left-aligned lines
/// start at 0, centered ones at minus half their width (rounded down), and
/// right-aligned ones end at 0.
pub open spec fn line_offset(a: TextAlign, width: int) -> int {
    match a {
        TextAlign::Left => 0,
        TextAlign::Center => (-width) / 2,
        TextAlign::Right => -width,
    }
}

/// The runs of the lines in order, when each line has been shaped.
pub open spec fn runs_of(face_runs: Seq<(String, Vec<ShapedGlyph>)>, lines: Seq<Seq<char>>) -> Option<
    Seq<Seq<ShapedGlyph>>,
>
    decreases lines.len(),
{
    if lines.len() == 0 {
        Some(seq![])
    } else {
        match (runs_of(face_runs, lines.drop_last()), run_of(face_runs, lines.last())) {
            (Some(rs), Some(r)) => Some(rs.push(r)),
            _ => None,
        }
    }
}

/// The glyphs of a line, moved by `dx` and `dy`.
pub open spec fn line_glyphs(run: Seq<ShapedGlyph>, font_size: i64, dx: int, dy: int) -> Seq<Glyph> {
    Seq::new(
        run.len(),
        |k: int|
            Glyph {
                index: run[k].codepoint as u64,
                x: (glyph_pos(run, font_size, k).0 + dx) as i64,
                y: (glyph_pos(run, font_size, k).1 + dy) as i64,
            },
    )
}

/// Whether every glyph of a line, moved by `dx` and `dy`, stays in range.
pub open spec fn line_fits(run: Seq<ShapedGlyph>, font_size: i64, dx: int, dy: int) -> bool {
    forall|k: int|
        #![trigger glyph_pos(run, font_size, k)]
        0 <= k < run.len() ==> fits_i64(glyph_pos(run, font_size, k).0 + dx) && fits_i64(
            glyph_pos(run, font_size, k).1 + dy,
        )
}

/// Lays out lines one below the other. The result is the placed glyphs, the
/// widest line's width (at least 0), the least line offset (at most 0), and
/// the pen position after the last line; `None` when a position leaves the
/// range of `i64`.
pub open spec fn layout(runs: Seq<Seq<ShapedGlyph>>, font_size: i64, lh: i64, a: TextAlign) -> Option<
    (Seq<Glyph>, int, int, int, int),
>
    decreases runs.len(),
{
    if runs.len() == 0 {
        Some((seq![], 0, 0, 0, 0))
    } else {
        match layout(runs.drop_last(), font_size, lh, a) {
            None => None,
            Some((gs, mw, mo, cx, cy)) => {
                let run = runs.last();
                let w = run_width(run, font_size);
                let off = line_offset(a, w);
                if run_fits(run, font_size) && fits_i64(off) && line_fits(run, font_size, off, cy)
                    && fits_i64(off + w) && fits_i64(cy + lh) {
                    Some(
                        (
                            gs + line_glyphs(run, font_size, off, cy),
                            if mw < w {
                                w
                            } else {
                                mw
                            },
                            if off < mo {
                                off
                            } else {
                                mo
                            },
                            off + w,
                            cy + lh,
                        ),
                    )
                } else {
                    None
                }
            },
        }
    }
}

proof fn lemma_layout_stops(runs: Seq<Seq<ShapedGlyph>>, font_size: i64, lh: i64, a: TextAlign, j: int)
    requires
        0 <= j <= runs.len(),
        layout(runs.take(j), font_size, lh, a) is None,
    ensures
        layout(runs, font_size, lh, a) is None,
    decreases runs.len(),
{
    if runs.len() > j {
        assert(runs.drop_last().take(j) =~= runs.take(j));
        lemma_layout_stops(runs.drop_last(), font_size, lh, a, j);
    } else {
        assert(runs.take(j) =~= runs);
    }
}

proof fn lemma_runs_missing(face_runs: Seq<(String, Vec<ShapedGlyph>)>, lines: Seq<Seq<char>>, j: int)
    requires
        0 <= j < lines.len(),
        run_of(face_runs, lines[j]) is None,
    ensures
        runs_of(face_runs, lines) is None,
    decreases lines.len(),
{
    if j < lines.len() - 1 {
        lemma_runs_missing(face_runs, lines.drop_last(), j);
    }
}

/// What `t` owes once its argument is the string `text`.
pub open spec fn t_outcome(faces: Seq<FontFace>, scopes: Seq<Scope>, text: Seq<char>, r: Result<Val, Error>) -> bool {
    match font_settings(scopes) {
        None => fails_font_settings(scopes, r),
        Some((family, style, size, lh)) => match typed_binding(scopes, "text_align"@, ValType::Str) {
            None => fails_with_binding(r, scopes, "text_align"@, ValType::Str),
            Some(ta) => match face_index(faces, text_of(family), text_of(style)) {
                None => fails_missing_font(r, text_of(family), text_of(style)),
                Some(fi) => match align_of(text_of(ta)) {
                    None => match r {
                        Err(Error::InvalidTextAlign { value }) => value@ == text_of(ta),
                        _ => false,
                    },
                    Some(a) => match runs_of(faces[fi].runs@, lines_of(text)) {
                        None => match r {
                            Err(Error::Unshaped { line }) => lines_of(text).contains(line@)
                                && run_of(faces[fi].runs@, line@) is None,
                            _ => false,
                        },
                        Some(runs) => text_frame_outcome(
                            scopes,
                            text_of(family),
                            text_of(style),
                            length_of(size),
                            length_of(lh),
                            layout(runs, length_of(size), length_of(lh), a),
                            r,
                        ),
                    },
                },
            },
        },
    }
}

/// What `t` owes once the lines are laid out.
pub open spec fn text_frame_outcome(
    scopes: Seq<Scope>,
    family: Seq<char>,
    style: Seq<char>,
    size: i64,
    lh: i64,
    laid: Option<(Seq<Glyph>, int, int, int, int)>,
    r: Result<Val, Error>,
) -> bool {
    match laid {
        None => r matches Err(Error::Overflow),
        Some((gs, mw, mo, cx, cy)) => match typed_binding(scopes, "color"@, ValType::Color) {
            None => fails_with_binding(r, scopes, "color"@, ValType::Color),
            Some(c) => if !(fits_i64(-lh) && fits_i64(cy - lh) && fits_i64(mo + mw)) {
                r matches Err(Error::Overflow)
            } else {
                single_element_frame(
                    r,
                    |el: Element|
                        match el {
                            Element::Text(t) => {
                                &&& t.color == color_of(c)
                                &&& t.font_family@ == family
                                &&& t.font_style@ == style
                                &&& t.font_size == size
                                &&& t.glyphs@ == gs
                            },
                            _ => false,
                        },
                    Vec2 { x: cx as i64, y: (cy - lh) as i64 },
                    spanning(mo as i64, (-lh) as i64, (mo + mw) as i64, (cy - lh) as i64),
                )
            },
        },
    }
}

/// The union of the boxes of the laid-out lines: line `k` spans from its
/// offset to its end, and from `(k - 1) * lh` to `k * lh`.
pub open spec fn lines_box(runs: Seq<Seq<ShapedGlyph>>, font_size: i64, lh: i64, a: TextAlign) -> BoundingBox
    decreases runs.len(),
{
    if runs.len() == 0 {
        empty_box()
    } else {
        match layout(runs.drop_last(), font_size, lh, a) {
            None => empty_box(),
            Some((_, _, _, _, cy)) => {
                let w = run_width(runs.last(), font_size);
                let off = line_offset(a, w);
                union_box(
                    lines_box(runs.drop_last(), font_size, lh, a),
                    spanning(off as i64, (cy - lh) as i64, (off + w) as i64, cy as i64),
                )
            },
        }
    }
}

proof fn lemma_offset_monotone(a: TextAlign, w1: int, w2: int)
    requires
        0 <= w1 <= w2,
    ensures
        line_offset(a, w2) <= line_offset(a, w1) <= 0,
        w1 + line_offset(a, w1) <= w2 + line_offset(a, w2),
{
    vstd::arithmetic::div_mod::lemma_fundamental_div_mod(-w1, 2);
    vstd::arithmetic::div_mod::lemma_fundamental_div_mod(-w2, 2);
}

/// Lays out lines whose widths and line height are not negative: the
/// widest line gives the width, the least offset is that of the widest
/// line, and the pen ends `lh` below for each line.
proof fn lemma_layout_shape(runs: Seq<Seq<ShapedGlyph>>, font_size: i64, lh: i64, a: TextAlign)
    requires
        lh >= 0,
        forall|j: int| 0 <= j < runs.len() ==> run_width(#[trigger] runs[j], font_size) >= 0,
        layout(runs, font_size, lh, a) is Some,
    ensures
        ({
            let (gs, mw, mo, cx, cy) = layout(runs, font_size, lh, a)->0;
            &&& mw >= 0
            &&& mo == line_offset(a, mw)
            &&& cy >= 0
            &&& fits_i64(mo) && fits_i64(mo + mw) && fits_i64(cy)
            &&& runs.len() > 0 ==> lines_box(runs, font_size, lh, a) == spanning(
                mo as i64,
                -lh as i64,
                (mo + mw) as i64,
                (cy - lh) as i64,
            )
        }),
    decreases runs.len(),
{
    if runs.len() > 0 {
        let prev = runs.drop_last();
        assert(layout(prev, font_size, lh, a) is Some);
        assert forall|j: int| 0 <= j < prev.len() implies run_width(#[trigger] prev[j], font_size)
            >= 0 by {
            assert(prev[j] == runs[j]);
        }
        lemma_layout_shape(prev, font_size, lh, a);
        let (gs0, mw0, mo0, cx0, cy0) = layout(prev, font_size, lh, a)->0;
        let run = runs.last();
        let w = run_width(run, font_size);
        assert(w == run_width(runs[runs.len() - 1], font_size));
        let off = line_offset(a, w);
        if mw0 <= w {
            lemma_offset_monotone(a, mw0, w);
        } else {
            lemma_offset_monotone(a, w, mw0);
        }
        lemma_offset_monotone(a, 0, w);
        lemma_offset_monotone(a, 0, mw0);
        let mw = if mw0 < w {
            w
        } else {
            mw0
        };
        let mo = if off < mo0 {
            off
        } else {
            mo0
        };
        assert(layout(runs, font_size, lh, a)->0 == (
            gs0 + line_glyphs(run, font_size, off, cy0),
            mw,
            mo,
            off + w,
            cy0 + lh,
        ));
        assert(mo == line_offset(a, mw));
        assert(mo + mw == if mo0 + mw0 < off + w {
            off + w
        } else {
            mo0 + mw0
        });
        if prev.len() == 0 {
            assert(lines_box(prev, font_size, lh, a) == empty_box());
        }
        assert(lines_box(runs, font_size, lh, a) == union_box(
            lines_box(prev, font_size, lh, a),
            spanning(off as i64, (cy0 - lh) as i64, (off + w) as i64, cy0 as i64),
        ));
    } else {
        assert(line_offset(a, 0) == 0) by {
            vstd::arithmetic::div_mod::lemma_fundamental_div_mod(0, 2);
        }
    }
}

/// The bounding box of laid-out text is the union of the boxes of its lines,
/// for widths and a line height that are not negative; `t` gives its frame
/// exactly this box.
pub proof fn lemma_text_box_is_union_of_lines(
    runs: Seq<Seq<ShapedGlyph>>,
    font_size: i64,
    lh: i64,
    a: TextAlign,
)
    requires
        runs.len() > 0,
        lh >= 0,
        forall|j: int| 0 <= j < runs.len() ==> run_width(#[trigger] runs[j], font_size) >= 0,
        layout(runs, font_size, lh, a) is Some,
    ensures
        ({
            let (gs, mw, mo, cx, cy) = layout(runs, font_size, lh, a)->0;
            lines_box(runs, font_size, lh, a) == spanning(
                mo as i64,
                -lh as i64,
                (mo + mw) as i64,
                (cy - lh) as i64,
            )
        }),
{
    lemma_layout_shape(runs, font_size, lh, a);
}

/// Half of `x`, rounded down.
fn half_down(x: i128) -> (r: i128)
    requires
        -0x1_0000_0000_0000_0000 <= x <= 0x1_0000_0000_0000_0000,
    ensures
        r == x / 2,
{
    if x >= 0 {
        x / 2
    } else {
        proof {
            lemma_floor_of_negative(-x as int, 2);
        }
        -((-x + 1) / 2)
    }
}

/// The shaped run of every line, in the face at `face`.
fn collect_runs<'a>(fm: &'a FontMap, face: usize, lines: &Vec<&str>) -> (r: Result<
    Vec<&'a Vec<ShapedGlyph>>,
    Error,
>)
    requires
        face < fm.faces@.len(),
    ensures
        match runs_of(fm.faces@[face as int].runs@, str_views(lines@)) {
            Some(rs) => match r {
                Ok(v) => run_views(v@) == rs,
                _ => false,
            },
            None => match r {
                Err(Error::Unshaped { line }) => str_views(lines@).contains(line@)
                    && run_of(fm.faces@[face as int].runs@, line@) is None,
                _ => false,
            },
        },
{
    let ghost face_runs = fm.faces@[face as int].runs@;
    let ghost views = str_views(lines@);
    let mut runs: Vec<&Vec<ShapedGlyph>> = Vec::new();
    let mut j: usize = 0;
    while j < lines.len()
        invariant
            face < fm.faces@.len(),
            face_runs == fm.faces@[face as int].runs@,
            views == str_views(lines@),
            j <= lines@.len(),
            runs_of(face_runs, views.take(j as int)) == Some(
                run_views(runs@),
            ),
        decreases lines.len() - j,
    {
        assert(views.take(j + 1).drop_last() =~= views.take(j as int));
        match fm.shaped(face, lines[j]) {
            Some(run) => {
                let ghost before = run_views(runs@);
                runs.push(run);
                assert(run_views(runs@) =~= before.push(run@));
            },
            None => {
                proof {
                    lemma_runs_missing(face_runs, views, j as int);
                    assert(views.contains(views[j as int]));
                }
                return Err(Error::Unshaped { line: lines[j].to_owned() });
            },
        }
        j += 1;
    }
    assert(views.take(j as int) =~= views);
    Ok(runs)
}

/// Lays out shaped lines one below the other; `None` when a position
/// leaves the range of `i64`.
#[verifier::loop_isolation(false)]
fn lay_out(runs: &Vec<&Vec<ShapedGlyph>>, font_size: i64, line_height: i64, ta: TextAlign) -> (r: Option<
    (Vec<Glyph>, i64, i64, i64, i64),
>)
    ensures
        match layout(run_views(runs@), font_size, line_height, ta) {
            Some((gs, mw, mo, cx, cy)) => match r {
                Some((g, a, b, c, d)) => g@ == gs && a == mw && b == mo && c == cx && d == cy,
                None => false,
            },
            None => r is None,
        },
{
    let ghost rv = run_views(runs@);
    let mut glyphs: Vec<Glyph> = Vec::new();
    let mut max_width: i64 = 0;
    let mut min_offset: i64 = 0;
    let mut cur_x: i64 = 0;
    let mut cur_y: i64 = 0;
    let mut j: usize = 0;
    assert(rv.take(0) =~= Seq::<Seq<ShapedGlyph>>::empty());
    while j < runs.len()
        invariant
            rv == run_views(runs@),
            j <= runs@.len(),
            layout(rv.take(j as int), font_size, line_height, ta) == Some(
                (glyphs@, max_width as int, min_offset as int, cur_x as int, cur_y as int),
            ),
        decreases runs.len() - j,
    {
        let ghost prefix = rv.take(j + 1);
        assert(prefix.drop_last() =~= rv.take(j as int));
        assert(prefix.last() == runs@[j as int]@);
        let (placed, width) = match typeset_line(runs[j], font_size) {
            Some(lw) => lw,
            None => {
                proof {
                    lemma_layout_stops(rv, font_size, line_height, ta, j + 1);
                }
                return None;
            },
        };
        // Apply the horizontal offset that aligns the line.
        let offset = match ta {
            TextAlign::Left => 0,
            TextAlign::Center => half_down(-(width as i128)),
            TextAlign::Right => -(width as i128),
        };
        let offset = match to_i64(offset) {
            Some(v) => v,
            None => {
                proof {
                    lemma_layout_stops(rv, font_size, line_height, ta, j + 1);
                }
                return None;
            },
        };
        let ghost before = glyphs@;
        let mut k: usize = 0;
        while k < placed.len()
            invariant
                k <= placed@.len(),
                placed@.len() == runs@[j as int]@.len(),
                forall|i: int|
                    0 <= i < placed@.len() ==> #[trigger] placed@[i] == run_glyph(
                        runs@[j as int]@,
                        font_size,
                        i,
                    ),
                run_fits(runs@[j as int]@, font_size),
                glyphs@ == before + line_glyphs(runs@[j as int]@, font_size, offset as int, cur_y as int).take(k as int),
                forall|i: int|
                    #![trigger glyph_pos(runs@[j as int]@, font_size, i)]
                    0 <= i < k ==> fits_i64(glyph_pos(runs@[j as int]@, font_size, i).0 + offset) && fits_i64(
                        glyph_pos(runs@[j as int]@, font_size, i).1 + cur_y,
                    ),
            decreases placed.len() - k,
        {
            let g = placed[k];
            let ghost gp = glyph_pos(runs@[j as int]@, font_size, k as int);
            assert(placed@[k as int] == run_glyph(runs@[j as int]@, font_size, k as int));
            let x = match to_i64(g.x as i128 + offset as i128) {
                Some(v) => v,
                None => {
                    proof {
                        assert(!fits_i64(gp.0 + offset));
                        lemma_layout_stops(rv, font_size, line_height, ta, j + 1);
                    }
                    return None;
                },
            };
            let y = match to_i64(g.y as i128 + cur_y as i128) {
                Some(v) => v,
                None => {
                    proof {
                        assert(!fits_i64(gp.1 + cur_y));
                        lemma_layout_stops(rv, font_size, line_height, ta, j + 1);
                    }
                    return None;
                },
            };
            glyphs.push(Glyph { index: g.index, x, y });
            assert(line_glyphs(runs@[j as int]@, font_size, offset as int, cur_y as int).take(k + 1)
                =~= line_glyphs(runs@[j as int]@, font_size, offset as int, cur_y as int).take(k as int).push(
                Glyph { index: g.index, x, y },
            ));
            k += 1;
        }
        assert(line_glyphs(runs@[j as int]@, font_size, offset as int, cur_y as int).take(k as int)
            =~= line_glyphs(runs@[j as int]@, font_size, offset as int, cur_y as int));
        let next_x = match to_i64(offset as i128 + width as i128) {
            Some(v) => v,
            None => {
                proof {
                    lemma_layout_stops(rv, font_size, line_height, ta, j + 1);
                }
                return None;
            },
        };
        let next_y = match to_i64(cur_y as i128 + line_height as i128) {
            Some(v) => v,
            None => {
                proof {
                    lemma_layout_stops(rv, font_size, line_height, ta, j + 1);
                }
                return None;
            },
        };
        if max_width < width {
            max_width = width;
        }
        if offset < min_offset {
            min_offset = offset;
        }
        cur_x = next_x;
        cur_y = next_y;
        j += 1;
    }
    assert(rv.take(j as int) =~= rv);
    Some((glyphs, max_width, min_offset, cur_x, cur_y))
}

/// A frame of shaped text, one line below the other, aligned by the ambient
/// `text_align` and set in the ambient font.
pub fn t(fm: &FontMap, env: &Env, args: Vec<Val>) -> (r: Result<Val, Error>)
    ensures
        !args_match(seq![ValType::Str], args@) ==> fails_validation(
            r,
            "t"@,
            seq![ValType::Str],
            args@,
        ),
        args_match(seq![ValType::Str], args@) ==> t_outcome(
            fm.faces@,
            env.scopes@,
            text_of(args@[0]),
            r,
        ),
{
    match validate_args("t", &[ValType::Str], args.as_slice()) {
        Err(e) => return Err(e),
        Ok(()) => {},
    }
    let text = match &args[0] {
        Val::Str(s) => s.as_str(),
        _ => "",
    };
    let text_lines = split_lines(text);
    // The font comes from the 'font_family' and 'font_style' variables.
    let font_family = match env.lookup_str("font_family") {
        Ok(s) => s,
        Err(e) => return Err(e),
    };
    let font_style = match env.lookup_str("font_style") {
        Ok(s) => s,
        Err(e) => return Err(e),
    };
    let font_size = match env.lookup_len("font_size") {
        Ok(v) => v,
        Err(e) => return Err(e),
    };
    let line_height = match env.lookup_len("line_height") {
        Ok(v) => v,
        Err(e) => return Err(e),
    };
    let text_align = match env.lookup_str("text_align") {
        Ok(s) => s,
        Err(e) => return Err(e),
    };
    let face = match fm.get(font_family.as_str(), font_style.as_str()) {
        Some(i) => i,
        None => return Err(Error::MissingFont { family: font_family, style: font_style }),
    };
    let ta = match parse_align(text_align.as_str()) {
        Some(a) => a,
        None => return Err(Error::InvalidTextAlign { value: text_align }),
    };
    let runs = match collect_runs(fm, face, &text_lines) {
        Ok(v) => v,
        Err(e) => return Err(e),
    };
    // Lay the lines out one below the other.
    let (glyphs, max_width, min_offset, cur_x, cur_y) = match lay_out(
        &runs,
        font_size,
        line_height,
        ta,
    ) {
        Some(l) => l,
        None => return Err(Error::Overflow),
    };
    let color = match env.lookup_color("color") {
        Ok(c) => c,
        Err(e) => return Err(e),
    };
    if line_height == i64::MIN {
        return Err(Error::Overflow);
    }
    let anchor_y = match to_i64(cur_y as i128 - line_height as i128) {
        Some(v) => v,
        None => return Err(Error::Overflow),
    };
    if to_i64(min_offset as i128 + max_width as i128).is_none() {
        return Err(Error::Overflow);
    }
    let text_elem = Text {
        color: color,
        font_family: font_family,
        font_style: font_style,
        font_size: font_size,
        glyphs: glyphs,
    };
    let mut frame = Frame::new();
    frame.place_element(Vec2::zero(), Element::Text(text_elem));
    frame.set_anchor(Vec2::new(cur_x, anchor_y));
    let top_left = Vec2::new(min_offset, -line_height);
    let size = Vec2::new(max_width, cur_y);
    frame.union_bounding_box(&BoundingBox::new(top_left, size));
    Ok(Val::Frame(Rc::new(frame)))
}

} // verus!
