use std::rc::Rc;

use pris::builtins;
use pris::elements::{Color, Element, Glyph, Vec2};
use pris::error::Error;
use pris::runtime::{BoundingBox, Env, FontFace, FontMap, Frame, Image, ShapedGlyph, Val};
use pris::types::ValType;

fn no_resources() -> FontMap {
    FontMap { faces: Vec::new(), images: Vec::new() }
}

fn shaped(advance: i32) -> ShapedGlyph {
    ShapedGlyph { codepoint: 7, x_offset: 0, y_offset: 0, x_advance: advance, y_advance: 0 }
}

fn text_env(align: &str) -> Env {
    let mut env = Env::new();
    env.bind("font_family".to_string(), Val::Str("Sans".to_string()));
    env.bind("font_style".to_string(), Val::Str("Regular".to_string()));
    env.bind("font_size".to_string(), Val::Num(10, 1));
    env.bind("line_height".to_string(), Val::Num(20, 1));
    env.bind("text_align".to_string(), Val::Str(align.to_string()));
    env.bind("color".to_string(), Val::Color(Color::new(1, 2, 3)));
    env.bind("line_width".to_string(), Val::Num(2, 1));
    env
}

fn fonts() -> FontMap {
    // "ab" is two glyphs of 500 font units; "c" one glyph of 1000.
    let runs = vec![
        ("ab".to_string(), vec![shaped(500), shaped(500)]),
        ("c".to_string(), vec![shaped(1000)]),
        ("".to_string(), Vec::new()),
    ];
    FontMap {
        faces: vec![FontFace { family: "Sans".to_string(), style: "Regular".to_string(), runs }],
        images: vec![Image { path: "logo.svg".to_string(), width: 30, height: 10 }],
    }
}

fn frame_of(v: Result<Val, Error>) -> Rc<Frame> {
    match v {
        Ok(Val::Frame(f)) => f,
        other => panic!("expected a frame, got {:?}", other),
    }
}

fn sized_frame(w: i64, h: i64) -> Frame {
    let mut f = Frame::new();
    f.union_bounding_box(&BoundingBox::sized(w, h));
    f.set_anchor(Vec2::new(w, h));
    f
}

#[test]
fn split_lines_returns_as_many_lines_as_newlines_plus_one() {
    let text = "\nfoo\nbar\n";
    let lines = builtins::split_lines(text);
    assert_eq!(&lines, &["", "foo", "bar", ""]);
}

#[test]
fn split_lines_of_text_without_newline() {
    assert_eq!(builtins::split_lines("abc"), vec!["abc"]);
    assert_eq!(builtins::split_lines(""), vec![""]);
    assert_eq!(builtins::split_lines("\nfoo\n"), vec!["", "foo", ""]);
}

#[test]
fn validate_args_reports_arity_then_type() {
    let args = vec![Val::Num(1, 0), Val::Num(2, 0)];
    match builtins::validate_args("f", &[ValType::Num(0)], &args) {
        Err(Error::Arity { fn_name, expected_count, actual_count }) => {
            assert_eq!((fn_name.as_str(), expected_count, actual_count), ("f", 1, 2));
        }
        other => panic!("unexpected {:?}", other),
    }
    let args = vec![Val::Num(1, 0), Val::Str("x".to_string())];
    match builtins::validate_args("f", &[ValType::Num(0), ValType::Num(0)], &args) {
        Err(Error::ArgType { fn_name, expected, actual, arg }) => {
            assert_eq!(fn_name, "f");
            assert_eq!((expected, actual, arg), (ValType::Num(0), ValType::Str, 1));
        }
        other => panic!("unexpected {:?}", other),
    }
    assert!(builtins::validate_args("f", &[ValType::Num(0), ValType::Str], &args).is_ok());
}

#[test]
fn builtins_check_arguments_before_building() {
    let fm = no_resources();
    let env = Env::new();
    assert!(matches!(builtins::line(&fm, &env, vec![]), Err(Error::Arity { .. })));
    assert!(matches!(
        builtins::fill_rectangle(&fm, &env, vec![Val::Coord(1, 2, 0)]),
        Err(Error::ArgType { arg: 0, actual: ValType::Coord(0), .. })
    ));
    assert!(matches!(builtins::str(&fm, &env, vec![Val::Num(1, 1)]), Err(Error::ArgType { .. })));
    assert!(matches!(builtins::t(&fm, &env, vec![Val::Num(1, 0)]), Err(Error::ArgType { .. })));
    assert!(matches!(builtins::glyph(&fm, &env, vec![]), Err(Error::Arity { .. })));
    assert!(matches!(builtins::image(&fm, &env, vec![Val::Num(1, 0)]), Err(Error::ArgType { .. })));
    assert!(matches!(
        builtins::fit(&fm, &env, vec![Val::Coord(1, 1, 1), Val::Coord(1, 1, 1)]),
        Err(Error::ArgType { arg: 0, expected: ValType::Frame, .. })
    ));
}

#[test]
fn str_formats_integers() {
    let fm = no_resources();
    let env = Env::new();
    assert!(matches!(builtins::str(&fm, &env, vec![Val::Num(-120, 0)]), Ok(Val::Str(s)) if s == "-120"));
    assert_eq!(builtins::to_decimal(0), "0");
    assert_eq!(builtins::to_decimal(i64::MIN), "-9223372036854775808");
    assert_eq!(builtins::to_decimal(9876543210), "9876543210");
}

#[test]
fn line_reads_color_and_width() {
    let fm = no_resources();
    let env = text_env("left");
    let f = frame_of(builtins::line(&fm, &env, vec![Val::Coord(4, -3, 1)]));
    assert_eq!(f.anchor, Vec2::new(4, -3));
    assert_eq!(f.bounding_box, BoundingBox::corners(0, -3, 4, 0));
    match &f.elements[0].element {
        Element::StrokePolygon(p) => {
            assert_eq!(p.color, Color::new(1, 2, 3));
            assert_eq!(p.line_width, 2);
            assert!(!p.close);
            assert_eq!(p.vertices, vec![Vec2::zero(), Vec2::new(4, -3)]);
        }
        other => panic!("unexpected {:?}", other),
    }
}

#[test]
fn line_without_color_is_unresolved() {
    let fm = no_resources();
    let env = Env::new();
    assert!(matches!(
        builtins::line(&fm, &env, vec![Val::Coord(1, 1, 1)]),
        Err(Error::Unresolved { name }) if name == "color"
    ));
    let mut env = Env::new();
    env.bind("color".to_string(), Val::Num(1, 0));
    assert!(matches!(
        builtins::line(&fm, &env, vec![Val::Coord(1, 1, 1)]),
        Err(Error::VarType { expected: ValType::Color, actual: ValType::Num(0), .. })
    ));
}

#[test]
fn inner_scope_shadows_outer() {
    let fm = no_resources();
    let mut env = text_env("left");
    env.push_scope();
    env.bind("color".to_string(), Val::Color(Color::new(9, 9, 9)));
    let f = frame_of(builtins::fill_rectangle(&fm, &env, vec![Val::Coord(5, 6, 1)]));
    match &f.elements[0].element {
        Element::FillPolygon(p) => {
            assert_eq!(p.color, Color::new(9, 9, 9));
            assert_eq!(
                p.vertices,
                vec![Vec2::zero(), Vec2::new(0, 6), Vec2::new(5, 6), Vec2::new(5, 0)]
            );
        }
        other => panic!("unexpected {:?}", other),
    }
    assert_eq!(f.anchor, Vec2::new(5, 6));
    assert_eq!(f.bounding_box, BoundingBox::sized(5, 6));
}

#[test]
fn fit_scales_by_width_when_wider() {
    let fm = no_resources();
    let env = Env::new();
    let g = frame_of(builtins::fit(&fm, &env, vec![Val::Frame(Rc::new(sized_frame(10, 5))), Val::Coord(20, 20, 1)]));
    // 10 / 5 > 20 / 20: the width constrains, and the scale is 20 / 10.
    assert_eq!(g.bounding_box, BoundingBox::sized(20, 10));
    assert_eq!(g.anchor, Vec2::new(20, 10));
    match &g.elements[0].element {
        Element::Scaled { frame, num: 20, den: 10 } => assert_eq!(frame.bounding_box, BoundingBox::sized(10, 5)),
        other => panic!("unexpected {:?}", other),
    }
}

#[test]
fn fit_scales_by_height_when_taller() {
    let fm = no_resources();
    let env = Env::new();
    let g = frame_of(builtins::fit(&fm, &env, vec![Val::Frame(Rc::new(sized_frame(5, 10))), Val::Coord(20, 30, 1)]));
    // 5 / 10 < 20 / 30: the height constrains, and the scale is 30 / 10.
    assert_eq!(g.bounding_box, BoundingBox::sized(15, 30));
    assert_eq!(g.anchor, Vec2::new(15, 30));
    let g = frame_of(builtins::fit(&fm, &env, vec![Val::Frame(Rc::new(sized_frame(3, 3))), Val::Coord(10, 10, 1)]));
    // 10 / 3 rounds down.
    assert_eq!(g.bounding_box, BoundingBox::sized(10, 10));
}

#[test]
fn fit_rejects_degenerate_boxes() {
    let fm = no_resources();
    let env = Env::new();
    assert!(matches!(
        builtins::fit(&fm, &env, vec![Val::Frame(Rc::new(sized_frame(10, 5))), Val::Coord(0, 20, 1)]),
        Err(Error::FitIntoEmptyBox)
    ));
    assert!(matches!(
        builtins::fit(&fm, &env, vec![Val::Frame(Rc::new(Frame::new())), Val::Coord(10, 20, 1)]),
        Err(Error::FitEmptyFrame)
    ));
    assert!(matches!(
        builtins::fit(&fm, &env, vec![Val::Frame(Rc::new(sized_frame(10, 0))), Val::Coord(10, 20, 1)]),
        Err(Error::FitEmptyFrame)
    ));
    assert!(matches!(
        builtins::fit(&fm, &env, vec![Val::Frame(Rc::new(sized_frame(1, 1))), Val::Coord(i64::MAX, i64::MAX, 1)]),
        Ok(_)
    ));
    assert!(matches!(
        builtins::fit(&fm, &env, vec![Val::Frame(Rc::new(sized_frame(1, 2))), Val::Coord(i64::MAX, i64::MAX, 1)]),
        Ok(_)
    ));
}

#[test]
fn bounding_box_union_laws() {
    let a = BoundingBox::sized(3, 4);
    let b = BoundingBox::corners(-2, 1, 1, 9);
    let c = BoundingBox::corners(5, -5, 6, -4);
    let e = BoundingBox::empty();
    assert_eq!(a.union(&b).union(&c), a.union(&b.union(&c)));
    assert_eq!(a.union(&b), b.union(&a));
    assert_eq!(a.union(&e), a);
    assert_eq!(e.union(&a), a);
    assert_eq!(a.union(&b), BoundingBox::corners(-2, 0, 3, 9));
}

#[test]
fn bounding_box_scale_rounds_down() {
    let b = BoundingBox::corners(-3, -1, 3, 1);
    assert_eq!(b.scale(1, 2), Some(BoundingBox::corners(-2, -1, 1, 0)));
    assert_eq!(BoundingBox::sized(i64::MAX, 1).scale(2, 1), None);
    assert_eq!(BoundingBox::empty().scale(5, 1), Some(BoundingBox::empty()));
}

#[test]
fn image_needs_an_svg_that_was_loaded() {
    let fm = fonts();
    let env = Env::new();
    let f = frame_of(builtins::image(&fm, &env, vec![Val::Str("logo.svg".to_string())]));
    assert_eq!(f.anchor, Vec2::new(30, 0));
    assert_eq!(f.bounding_box, BoundingBox::sized(30, 10));
    assert!(matches!(&f.elements[0].element, Element::Svg(s) if s.path == "logo.svg"));
    assert!(matches!(
        builtins::image(&fm, &env, vec![Val::Str("logo.png".to_string())]),
        Err(Error::UnsupportedImage { path }) if path == "logo.png"
    ));
    assert!(matches!(
        builtins::image(&fm, &env, vec![Val::Str("other.svg".to_string())]),
        Err(Error::MissingFile { path }) if path == "other.svg"
    ));
}

#[test]
fn glyph_places_one_glyph() {
    let fm = fonts();
    let env = text_env("left");
    let f = frame_of(builtins::glyph(&fm, &env, vec![Val::Num(42, 0)]));
    assert_eq!(f.anchor, Vec2::new(0, 0));
    assert_eq!(f.bounding_box, BoundingBox::corners(0, -20, 0, -20));
    match &f.elements[0].element {
        Element::Text(t) => {
            assert_eq!(t.glyphs, vec![Glyph { index: 42, x: 0, y: 0 }]);
            assert_eq!(t.font_size, 10);
        }
        other => panic!("unexpected {:?}", other),
    }
    assert!(matches!(
        builtins::glyph(&fm, &env, vec![Val::Num(-1, 0)]),
        Err(Error::InvalidGlyphIndex { index: -1 })
    ));
    assert!(matches!(
        builtins::glyph(&no_resources(), &env, vec![Val::Num(1, 0)]),
        Err(Error::MissingFont { family, style }) if family == "Sans" && style == "Regular"
    ));
}

#[test]
fn t_lays_out_lines_left_aligned() {
    let fm = fonts();
    let env = text_env("left");
    let f = frame_of(builtins::t(&fm, &env, vec![Val::Str("ab\nc".to_string())]));
    // Font units are thousandths of the font size 10: "ab" is 10 wide, "c" too.
    match &f.elements[0].element {
        Element::Text(t) => {
            assert_eq!(
                t.glyphs,
                vec![
                    Glyph { index: 7, x: 0, y: 0 },
                    Glyph { index: 7, x: 5, y: 0 },
                    Glyph { index: 7, x: 0, y: 20 },
                ]
            );
            assert_eq!(t.color, Color::new(1, 2, 3));
        }
        other => panic!("unexpected {:?}", other),
    }
    assert_eq!(f.anchor, Vec2::new(10, 20));
    assert_eq!(f.bounding_box, BoundingBox::corners(0, -20, 10, 20));
}

#[test]
fn t_aligns_center_and_right() {
    let fm = fonts();
    let f = frame_of(builtins::t(&fm, &text_env("center"), vec![Val::Str("c".to_string())]));
    assert_eq!(f.anchor, Vec2::new(5, 0));
    assert_eq!(f.bounding_box, BoundingBox::corners(-5, -20, 5, 0));
    let f = frame_of(builtins::t(&fm, &text_env("right"), vec![Val::Str("ab\n".to_string())]));
    match &f.elements[0].element {
        Element::Text(t) => assert_eq!(t.glyphs[0], Glyph { index: 7, x: -10, y: 0 }),
        other => panic!("unexpected {:?}", other),
    }
    assert_eq!(f.anchor, Vec2::new(0, 20));
    assert_eq!(f.bounding_box, BoundingBox::corners(-10, -20, 0, 20));
}

#[test]
fn t_reports_its_errors() {
    let fm = fonts();
    assert!(matches!(
        builtins::t(&fm, &text_env("justify"), vec![Val::Str("c".to_string())]),
        Err(Error::InvalidTextAlign { value }) if value == "justify"
    ));
    assert!(matches!(
        builtins::t(&fm, &text_env("left"), vec![Val::Str("c\nzz".to_string())]),
        Err(Error::Unshaped { line }) if line == "zz"
    ));
    assert!(matches!(
        builtins::t(&no_resources(), &text_env("left"), vec![Val::Str("c".to_string())]),
        Err(Error::MissingFont { .. })
    ));
    assert!(matches!(
        builtins::t(&fm, &Env::new(), vec![Val::Str("c".to_string())]),
        Err(Error::Unresolved { name }) if name == "font_family"
    ));
}

#[test]
fn fit_shares_the_frame_it_scales() {
    let fm = no_resources();
    let env = Env::new();
    let shared = Rc::new(sized_frame(10, 5));
    let a = frame_of(builtins::fit(&fm, &env, vec![Val::Frame(Rc::clone(&shared)), Val::Coord(20, 20, 1)]));
    let b = frame_of(builtins::fit(&fm, &env, vec![Val::Frame(Rc::clone(&shared)), Val::Coord(5, 5, 1)]));
    assert_eq!(b.bounding_box, BoundingBox::sized(5, 2));
    for g in [&a, &b] {
        match &g.elements[0].element {
            Element::Scaled { frame, .. } => assert!(Rc::ptr_eq(frame, &shared)),
            other => panic!("unexpected {:?}", other),
        }
    }
}

#[test]
fn text_box_is_the_union_of_its_line_boxes() {
    let fm = fonts();
    let f = frame_of(builtins::t(&fm, &text_env("center"), vec![Val::Str("ab\nc\n".to_string())]));
    // Line widths 10, 10, 0 at line height 20, centered.
    let lines = [
        BoundingBox::new(Vec2::new(-5, -20), Vec2::new(10, 20)),
        BoundingBox::new(Vec2::new(-5, 0), Vec2::new(10, 20)),
        BoundingBox::new(Vec2::new(0, 20), Vec2::new(0, 20)),
    ];
    let joined = lines[2].union(&lines[0].union(&lines[1]));
    assert_eq!(f.bounding_box, joined);
}
