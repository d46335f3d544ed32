//! Runtime values, bounding boxes and frames.
use std::rc::Rc;

use vstd::prelude::*;

use crate::elements::{Color, Element, Placed, Vec2};
use crate::error::Error;
use crate::types::ValType;

verus! {

/// An axis-aligned box from `(x0, y0)` to `(x1, y1)`, or the empty box, the
/// identity of union.
#[derive(Clone, Copy, Debug, PartialEq, Eq, Structural)]
pub struct BoundingBox {
    pub empty: bool,
    pub x0: i64,
    pub y0: i64,
    pub x1: i64,
    pub y1: i64,
}

/// The empty box.
pub open spec fn empty_box() -> BoundingBox {
    BoundingBox { empty: true, x0: 0, y0: 0, x1: 0, y1: 0 }
}

pub open spec fn min_i64(a: i64, b: i64) -> i64 {
    if a <= b {
        a
    } else {
        b
    }
}

pub open spec fn max_i64(a: i64, b: i64) -> i64 {
    if a <= b {
        b
    } else {
        a
    }
}

/// The box with corners `(ax, ay)` and `(bx, by)`, in either order.
pub open spec fn spanning(ax: i64, ay: i64, bx: i64, by: i64) -> BoundingBox {
    BoundingBox {
        empty: false,
        x0: min_i64(ax, bx),
        y0: min_i64(ay, by),
        x1: max_i64(ax, bx),
        y1: max_i64(ay, by),
    }
}

/// The smallest box that covers both.
pub open spec fn union_box(a: BoundingBox, b: BoundingBox) -> BoundingBox {
    if a.empty {
        b
    } else if b.empty {
        a
    } else {
        BoundingBox {
            empty: false,
            x0: min_i64(a.x0, b.x0),
            y0: min_i64(a.y0, b.y0),
            x1: max_i64(a.x1, b.x1),
            y1: max_i64(a.y1, b.y1),
        }
    }
}

/// `x` scaled by `num / den`, rounded down.
pub open spec fn scaled(x: int, num: int, den: int) -> int {
    (x * num) / den
}

pub open spec fn fits_i64(x: int) -> bool {
    i64::MIN <= x <= i64::MAX
}

/// A box scaled by `num / den` about the origin, when its corners stay in range.
pub open spec fn scale_box(b: BoundingBox, num: int, den: int) -> Option<BoundingBox> {
    if b.empty {
        Some(b)
    } else {
        let ax = scaled(b.x0 as int, num, den);
        let ay = scaled(b.y0 as int, num, den);
        let bx = scaled(b.x1 as int, num, den);
        let by = scaled(b.y1 as int, num, den);
        if fits_i64(ax) && fits_i64(ay) && fits_i64(bx) && fits_i64(by) {
            Some(spanning(ax as i64, ay as i64, bx as i64, by as i64))
        } else {
            None
        }
    }
}

impl BoundingBox {
    /// An empty box has all corners at the origin; another one is ordered.
    pub open spec fn wf(self) -> bool {
        if self.empty {
            self == empty_box()
        } else {
            self.x0 <= self.x1 && self.y0 <= self.y1
        }
    }

    pub open spec fn width(self) -> int {
        self.x1 - self.x0
    }

    pub open spec fn height(self) -> int {
        self.y1 - self.y0
    }

    pub fn empty() -> (r: BoundingBox)
        ensures
            r == empty_box(),
    {
        BoundingBox { empty: true, x0: 0, y0: 0, x1: 0, y1: 0 }
    }

    /// The box from the origin to `(w, h)`.
    pub fn sized(w: i64, h: i64) -> (r: BoundingBox)
        ensures
            r == spanning(0, 0, w, h),
            r.wf(),
    {
        BoundingBox::corners(0, 0, w, h)
    }

    /// The box from `top_left` that extends by `size`.
    pub fn new(top_left: Vec2, size: Vec2) -> (r: BoundingBox)
        requires
            fits_i64(top_left.x + size.x),
            fits_i64(top_left.y + size.y),
        ensures
            r == spanning(
                top_left.x,
                top_left.y,
                (top_left.x + size.x) as i64,
                (top_left.y + size.y) as i64,
            ),
            r.wf(),
    {
        BoundingBox::corners(top_left.x, top_left.y, top_left.x + size.x, top_left.y + size.y)
    }

    /// The box with corners `(ax, ay)` and `(bx, by)`, in either order.
    pub fn corners(ax: i64, ay: i64, bx: i64, by: i64) -> (r: BoundingBox)
        ensures
            r == spanning(ax, ay, bx, by),
            r.wf(),
    {
        BoundingBox {
            empty: false,
            x0: if ax <= bx {
                ax
            } else {
                bx
            },
            y0: if ay <= by {
                ay
            } else {
                by
            },
            x1: if ax <= bx {
                bx
            } else {
                ax
            },
            y1: if ay <= by {
                by
            } else {
                ay
            },
        }
    }

    /// The smallest box that covers this one and `other`.
    pub fn union(&self, other: &BoundingBox) -> (r: BoundingBox)
        ensures
            r == union_box(*self, *other),
            self.wf() && other.wf() ==> r.wf(),
    {
        if self.empty {
            *other
        } else if other.empty {
            *self
        } else {
            BoundingBox {
                empty: false,
                x0: if self.x0 <= other.x0 {
                    self.x0
                } else {
                    other.x0
                },
                y0: if self.y0 <= other.y0 {
                    self.y0
                } else {
                    other.y0
                },
                x1: if self.x1 <= other.x1 {
                    other.x1
                } else {
                    self.x1
                },
                y1: if self.y1 <= other.y1 {
                    other.y1
                } else {
                    self.y1
                },
            }
        }
    }

    /// This box scaled by `num / den` about the origin, rounding down; `None`
    /// when a corner would leave the range of `i64`.
    pub fn scale(&self, num: i64, den: u64) -> (r: Option<BoundingBox>)
        requires
            den > 0,
        ensures
            r == scale_box(*self, num as int, den as int),
            self.wf() ==> (r matches Some(b) ==> b.wf()),
    {
        if self.empty {
            return Some(*self);
        }
        let ax = scale_coord(self.x0, num, den);
        let ay = scale_coord(self.y0, num, den);
        let bx = scale_coord(self.x1, num, den);
        let by = scale_coord(self.y1, num, den);
        match (ax, ay, bx, by) {
            (Some(ax), Some(ay), Some(bx), Some(by)) => Some(BoundingBox::corners(ax, ay, bx, by)),
            _ => None,
        }
    }
}

pub proof fn lemma_floor_of_negative(m: int, d: int)
    requires
        m > 0,
        d > 0,
    ensures
        -((m + d - 1) / d) == (-m) / d,
{
    let q = (m + d - 1) / d;
    let r = (m + d - 1) % d;
    vstd::arithmetic::div_mod::lemma_fundamental_div_mod(m + d - 1, d);
    assert(-m == d * (-q) + (d - 1 - r)) by (nonlinear_arith)
        requires
            m + d - 1 == d * q + r,
    ;
    vstd::arithmetic::div_mod::lemma_fundamental_div_mod_converse(-m, d, -q, d - 1 - r);
}

/// `x` scaled by `num / den`, rounded down; `None` when that leaves the range
/// of `i64`.
pub fn scale_coord(x: i64, num: i64, den: u64) -> (r: Option<i64>)
    requires
        den > 0,
    ensures
        r == (if fits_i64(scaled(x as int, num as int, den as int)) {
            Some(scaled(x as int, num as int, den as int) as i64)
        } else {
            None
        }),
{
    assert(-0x4000_0000_0000_0000_0000_0000_0000_0000 <= x as int * num as int
        <= 0x4000_0000_0000_0000_0000_0000_0000_0000) by (nonlinear_arith)
        requires
            i64::MIN <= x <= i64::MAX,
            i64::MIN <= num <= i64::MAX,
    ;
    let p = x as i128 * num as i128;
    let d = den as i128;
    let q: i128 = if p >= 0 {
        (p as u128 / d as u128) as i128
    } else {
        let m = (-p) as u128;
        proof {
            lemma_floor_of_negative(m as int, d as int);
        }
        -(((m + d as u128 - 1) / d as u128) as i128)
    };
    assert(q == p / d);
    if q < i64::MIN as i128 || q > i64::MAX as i128 {
        None
    } else {
        Some(q as i64)
    }
}

/// Two lengths of a box, in a form fit to compare aspect ratios exactly.
pub open spec fn ratio_greater(a: int, b: int, c: int, d: int) -> bool {
    // a / b > c / d, for b > 0 and d != 0.
    if d > 0 {
        a * d > c * b
    } else {
        a * d < c * b
    }
}

/// A drawing: elements in paint order, the point at which a next frame
/// continues, and the box that covers the drawing. Once built, a frame is
/// shared through `Rc` and never changed.
#[derive(Debug)]
pub struct Frame {
    pub elements: Vec<Placed>,
    pub anchor: Vec2,
    pub bounding_box: BoundingBox,
}

impl Frame {
    pub fn new() -> (f: Frame)
        ensures
            f.elements@.len() == 0,
            f.anchor == (Vec2 { x: 0, y: 0 }),
            f.bounding_box == empty_box(),
    {
        Frame { elements: Vec::new(), anchor: Vec2::zero(), bounding_box: BoundingBox::empty() }
    }

    /// Appends an element; paint order is append order.
    pub fn place_element(&mut self, offset: Vec2, element: Element)
        ensures
            final(self).elements@.len() == old(self).elements@.len() + 1,
            forall|k: int|
                0 <= k < old(self).elements@.len() ==> final(self).elements@[k] == old(
                    self,
                ).elements@[k],
            final(self).elements@.last().offset == offset,
            final(self).elements@.last().element == element,
            final(self).anchor == old(self).anchor,
            final(self).bounding_box == old(self).bounding_box,
    {
        self.elements.push(Placed { offset, element });
    }

    pub fn set_anchor(&mut self, anchor: Vec2)
        ensures
            final(self).anchor == anchor,
            final(self).elements == old(self).elements,
            final(self).bounding_box == old(self).bounding_box,
    {
        self.anchor = anchor;
    }

    /// Grows the bounding box to cover `bb` too.
    pub fn union_bounding_box(&mut self, bb: &BoundingBox)
        ensures
            final(self).bounding_box == union_box(old(self).bounding_box, *bb),
            final(self).elements == old(self).elements,
            final(self).anchor == old(self).anchor,
    {
        self.bounding_box = self.bounding_box.union(bb);
    }

    pub fn get_bounding_box(&self) -> (r: BoundingBox)
        ensures
            r == self.bounding_box,
    {
        self.bounding_box
    }

    pub fn get_anchor(&self) -> (r: Vec2)
        ensures
            r == self.anchor,
    {
        self.anchor
    }
}

/// A runtime value. Numbers and coordinates are whole numbers (`i64`), and
/// carry the power of length of their unit: 0 is dimensionless, 1 a length.
/// Where a value is scaled by a fraction, the result is rounded down.
#[derive(Debug)]
pub enum Val {
    Num(i64, i32),
    Coord(i64, i64, i32),
    Color(Color),
    Str(String),
    Frame(Rc<Frame>),
}

impl Val {
    pub open spec fn type_of(&self) -> ValType {
        match self {
            Val::Num(_, d) => ValType::Num(*d),
            Val::Coord(_, _, d) => ValType::Coord(*d),
            Val::Color(_) => ValType::Color,
            Val::Str(_) => ValType::Str,
            Val::Frame(_) => ValType::Frame,
        }
    }

    pub fn get_type(&self) -> (t: ValType)
        ensures
            t == self.type_of(),
    {
        match self {
            Val::Num(_, d) => ValType::Num(*d),
            Val::Coord(_, _, d) => ValType::Coord(*d),
            Val::Color(_) => ValType::Color,
            Val::Str(_) => ValType::Str,
            Val::Frame(_) => ValType::Frame,
        }
    }
}

/// One scope: its bindings in the order they were made.
pub type Scope = Vec<(String, Val)>;

/// The value that the latest binding of `name` in `b` holds.
pub open spec fn scope_lookup(b: Seq<(String, Val)>, name: Seq<char>) -> Option<Val>
    decreases b.len(),
{
    if b.len() == 0 {
        None
    } else if b.last().0@ == name {
        Some(b.last().1)
    } else {
        scope_lookup(b.drop_last(), name)
    }
}

/// The value of `name` in the innermost scope that binds it.
pub open spec fn env_lookup(scopes: Seq<Scope>, name: Seq<char>) -> Option<Val>
    decreases scopes.len(),
{
    if scopes.len() == 0 {
        None
    } else {
        match scope_lookup(scopes.last()@, name) {
            Some(v) => Some(v),
            None => env_lookup(scopes.drop_last(), name),
        }
    }
}

/// A chain of scopes, the innermost last.
#[derive(Debug)]
pub struct Env {
    pub scopes: Vec<Scope>,
}

/// Whether two strings hold the same characters.
pub fn same_text(a: &str, b: &str) -> (r: bool)
    ensures
        r == (a@ == b@),
{
    let n = a.unicode_len();
    if n != b.unicode_len() {
        return false;
    }
    let mut i: usize = 0;
    while i < n
        invariant
            n == a@.len() == b@.len(),
            i <= n,
            forall|k: int| 0 <= k < i ==> a@[k] == b@[k],
        decreases n - i,
    {
        if a.get_char(i) != b.get_char(i) {
            return false;
        }
        i += 1;
    }
    assert(a@ =~= b@);
    true
}

/// What a typed lookup of `name` owes, where `found` is what the scopes bind
/// and `expected` the type asked for.
pub open spec fn lookup_outcome<T>(
    found: Option<Val>,
    name: Seq<char>,
    expected: ValType,
    r: Result<T, Error>,
    value: spec_fn(Val) -> T,
) -> bool {
    match found {
        None => match r {
            Err(Error::Unresolved { name: n }) => n@ == name,
            _ => false,
        },
        Some(v) => if v.type_of() == expected {
            r == Ok::<T, Error>(value(v))
        } else {
            match r {
                Err(Error::VarType { name: n, expected: e, actual: a }) => n@ == name && e
                    == expected && a == v.type_of(),
                _ => false,
            }
        },
    }
}

pub open spec fn color_of(v: Val) -> Color {
    match v {
        Val::Color(c) => c,
        _ => Color { r: 0, g: 0, b: 0 },
    }
}

pub open spec fn length_of(v: Val) -> i64 {
    match v {
        Val::Num(x, _) => x,
        _ => 0,
    }
}

pub open spec fn text_of(v: Val) -> Seq<char> {
    match v {
        Val::Str(s) => s@,
        _ => Seq::empty(),
    }
}

impl Env {
    pub fn new() -> (e: Env)
        ensures
            e.scopes@.len() == 1,
            e.scopes@[0]@.len() == 0,
    {
        Env { scopes: vec![Vec::new()] }
    }

    /// Binds `name` in the innermost scope, which must not bind it yet: a
    /// binding never changes, though an inner scope may shadow it.
    pub fn bind(&mut self, name: String, value: Val)
        requires
            old(self).scopes@.len() > 0,
            scope_lookup(old(self).scopes@.last()@, name@) is None,
        ensures
            final(self).scopes@.len() == old(self).scopes@.len(),
            forall|k: int|
                0 <= k < old(self).scopes@.len() - 1 ==> final(self).scopes@[k] == old(
                    self,
                ).scopes@[k],
            final(self).scopes@.last()@ == old(self).scopes@.last()@.push((name, value)),
    {
        let last = self.scopes.len() - 1;
        let mut scope = Vec::new();
        std::mem::swap(&mut scope, &mut self.scopes[last]);
        scope.push((name, value));
        self.scopes.set(last, scope);
    }

    /// Opens an inner scope.
    pub fn push_scope(&mut self)
        ensures
            final(self).scopes@.drop_last() == old(self).scopes@,
            final(self).scopes@.len() == old(self).scopes@.len() + 1,
            final(self).scopes@.last()@.len() == 0,
    {
        self.scopes.push(Vec::new());
    }

    /// Resolves `name` through the scopes, innermost first.
    pub fn lookup(&self, name: &str) -> (r: Option<&Val>)
        ensures
            match r {
                Some(v) => env_lookup(self.scopes@, name@) == Some(*v),
                None => env_lookup(self.scopes@, name@) is None,
            },
    {
        let mut s = self.scopes.len();
        assert(self.scopes@.subrange(0, s as int) =~= self.scopes@);
        while s > 0
            invariant
                s <= self.scopes@.len(),
                env_lookup(self.scopes@, name@) == env_lookup(
                    self.scopes@.subrange(0, s as int),
                    name@,
                ),
            decreases s,
        {
            let scope = &self.scopes[s - 1];
            let ghost prefix = self.scopes@.subrange(0, s as int);
            assert(prefix.drop_last() =~= self.scopes@.subrange(0, s - 1));
            let mut k = scope.len();
            assert(scope@.subrange(0, k as int) =~= scope@);
            while k > 0
                invariant
                    0 < s <= self.scopes@.len(),
                    *scope == self.scopes@[s - 1],
                    prefix == self.scopes@.subrange(0, s as int),
                    env_lookup(self.scopes@, name@) == env_lookup(prefix, name@),
                    k <= scope@.len(),
                    scope_lookup(scope@, name@) == scope_lookup(scope@.subrange(0, k as int), name@),
                decreases k,
            {
                let ghost part = scope@.subrange(0, k as int);
                assert(part.drop_last() =~= scope@.subrange(0, k - 1));
                if same_text(scope[k - 1].0.as_str(), name) {
                    assert(prefix.last() == *scope);
                    return Some(&scope[k - 1].1);
                }
                k -= 1;
            }
            assert(scope@.subrange(0, 0) =~= Seq::<(String, Val)>::empty());
            s -= 1;
        }
        assert(self.scopes@.subrange(0, 0) =~= Seq::<Scope>::empty());
        None
    }

    /// Looks up a color.
    pub fn lookup_color(&self, name: &str) -> (r: Result<Color, Error>)
        ensures
            lookup_outcome(
                env_lookup(self.scopes@, name@),
                name@,
                ValType::Color,
                r,
                |v: Val| color_of(v),
            ),
    {
        match self.lookup(name) {
            None => Err(Error::Unresolved { name: name.to_owned() }),
            Some(Val::Color(c)) => Ok(*c),
            Some(v) => Err(
                Error::VarType { name: name.to_owned(), expected: ValType::Color, actual: v.get_type() },
            ),
        }
    }

    /// Looks up a length: a number of power 1.
    pub fn lookup_len(&self, name: &str) -> (r: Result<i64, Error>)
        ensures
            lookup_outcome(
                env_lookup(self.scopes@, name@),
                name@,
                ValType::Num(1),
                r,
                |v: Val| length_of(v),
            ),
    {
        match self.lookup(name) {
            None => Err(Error::Unresolved { name: name.to_owned() }),
            Some(Val::Num(x, 1)) => Ok(*x),
            Some(v) => Err(
                Error::VarType {
                    name: name.to_owned(),
                    expected: ValType::Num(1),
                    actual: v.get_type(),
                },
            ),
        }
    }

    /// Looks up a string.
    pub fn lookup_str(&self, name: &str) -> (r: Result<String, Error>)
        ensures
            match r {
                Ok(s) => lookup_outcome(
                    env_lookup(self.scopes@, name@),
                    name@,
                    ValType::Str,
                    Ok::<Seq<char>, Error>(s@),
                    |v: Val| text_of(v),
                ),
                Err(e) => lookup_outcome(
                    env_lookup(self.scopes@, name@),
                    name@,
                    ValType::Str,
                    Err::<Seq<char>, Error>(e),
                    |v: Val| text_of(v),
                ),
            },
    {
        match self.lookup(name) {
            None => Err(Error::Unresolved { name: name.to_owned() }),
            Some(Val::Str(s)) => Ok(s.clone()),
            Some(v) => Err(
                Error::VarType { name: name.to_owned(), expected: ValType::Str, actual: v.get_type() },
            ),
        }
    }
}

/// The value bound to `name`, when it is bound to a value of type `ty`.
pub open spec fn typed_binding(scopes: Seq<Scope>, name: Seq<char>, ty: ValType) -> Option<Val> {
    match env_lookup(scopes, name) {
        Some(v) => if v.type_of() == ty {
            Some(v)
        } else {
            None
        },
        None => None,
    }
}

/// Whether `e` is the error of looking up `name` with type `ty`, when that
/// lookup fails.
pub open spec fn binding_error(scopes: Seq<Scope>, name: Seq<char>, ty: ValType, e: Error) -> bool {
    lookup_outcome(env_lookup(scopes, name), name, ty, Err::<(), Error>(e), |v: Val| ())
}

/// A face of a font, with the lines of text that have been shaped in it.
#[derive(Debug)]
pub struct FontFace {
    pub family: String,
    pub style: String,
    pub runs: Vec<(String, Vec<ShapedGlyph>)>,
}

/// A glyph as the shaping collaborator places it, in font units.
#[derive(Clone, Copy, Debug, PartialEq, Eq, Structural)]
pub struct ShapedGlyph {
    pub codepoint: u32,
    pub x_offset: i32,
    pub y_offset: i32,
    pub x_advance: i32,
    pub y_advance: i32,
}

/// A decoded vector image and its intrinsic size.
#[derive(Debug)]
pub struct Image {
    pub path: String,
    pub width: i64,
    pub height: i64,
}

/// The external resources that builtins read: fonts, with the text shaped
/// in them, and decoded images.
#[derive(Debug)]
pub struct FontMap {
    pub faces: Vec<FontFace>,
    pub images: Vec<Image>,
}

/// The index of the first face of the family and style.
pub open spec fn face_index(faces: Seq<FontFace>, family: Seq<char>, style: Seq<char>) -> Option<int>
    decreases faces.len(),
{
    if faces.len() == 0 {
        None
    } else if faces[0].family@ == family && faces[0].style@ == style {
        Some(0)
    } else {
        match face_index(faces.subrange(1, faces.len() as int), family, style) {
            Some(i) => Some(i + 1),
            None => None,
        }
    }
}

/// The shaped run of the first entry for `line` in `runs`.
pub open spec fn run_of(runs: Seq<(String, Vec<ShapedGlyph>)>, line: Seq<char>) -> Option<
    Seq<ShapedGlyph>,
>
    decreases runs.len(),
{
    if runs.len() == 0 {
        None
    } else if runs[0].0@ == line {
        Some(runs[0].1@)
    } else {
        run_of(runs.subrange(1, runs.len() as int), line)
    }
}

/// The first image loaded from `path`.
pub open spec fn image_of(images: Seq<Image>, path: Seq<char>) -> Option<(i64, i64)>
    decreases images.len(),
{
    if images.len() == 0 {
        None
    } else if images[0].path@ == path {
        Some((images[0].width, images[0].height))
    } else {
        image_of(images.subrange(1, images.len() as int), path)
    }
}

impl FontMap {
    /// The face of a font family and style, if it is known.
    pub fn get(&self, family: &str, style: &str) -> (r: Option<usize>)
        ensures
            match face_index(self.faces@, family@, style@) {
                Some(i) => r == Some(i as usize),
                None => r is None,
            },
            r matches Some(i) ==> i < self.faces@.len() && face_index(self.faces@, family@, style@)
                == Some(i as int),
    {
        let mut i: usize = 0;
        assert(self.faces@.subrange(0, self.faces@.len() as int) =~= self.faces@);
        while i < self.faces.len()
            invariant
                i <= self.faces@.len(),
                face_index(self.faces@, family@, style@) == (match face_index(
                    self.faces@.subrange(i as int, self.faces@.len() as int),
                    family@,
                    style@,
                ) {
                    Some(j) => Some(j + i),
                    None => None,
                }),
            decreases self.faces.len() - i,
        {
            let ghost rest = self.faces@.subrange(i as int, self.faces@.len() as int);
            assert(rest.subrange(1, rest.len() as int) =~= self.faces@.subrange(
                i + 1,
                self.faces@.len() as int,
            ));
            if same_text(self.faces[i].family.as_str(), family) && same_text(
                self.faces[i].style.as_str(),
                style,
            ) {
                assert(rest[0] == self.faces@[i as int]);
                return Some(i);
            }
            i += 1;
        }
        None
    }

    /// The run that `line` was shaped into in the face at `face`.
    pub fn shaped(&self, face: usize, line: &str) -> (r: Option<&Vec<ShapedGlyph>>)
        requires
            face < self.faces@.len(),
        ensures
            match r {
                Some(v) => run_of(self.faces@[face as int].runs@, line@) == Some(v@),
                None => run_of(self.faces@[face as int].runs@, line@) is None,
            },
    {
        let runs = &self.faces[face].runs;
        let mut i: usize = 0;
        assert(runs@.subrange(0, runs@.len() as int) =~= runs@);
        while i < runs.len()
            invariant
                face < self.faces@.len(),
                *runs == self.faces@[face as int].runs,
                i <= runs@.len(),
                run_of(runs@, line@) == run_of(runs@.subrange(i as int, runs@.len() as int), line@),
            decreases runs.len() - i,
        {
            let ghost rest = runs@.subrange(i as int, runs@.len() as int);
            assert(rest.subrange(1, rest.len() as int) =~= runs@.subrange(
                i + 1,
                runs@.len() as int,
            ));
            if same_text(runs[i].0.as_str(), line) {
                assert(rest[0] == runs@[i as int]);
                return Some(&runs[i].1);
            }
            i += 1;
        }
        None
    }

    /// The size of the image loaded from `path`, if there is one.
    pub fn image_size(&self, path: &str) -> (r: Option<(i64, i64)>)
        ensures
            r == image_of(self.images@, path@),
    {
        let mut i: usize = 0;
        assert(self.images@.subrange(0, self.images@.len() as int) =~= self.images@);
        while i < self.images.len()
            invariant
                i <= self.images@.len(),
                image_of(self.images@, path@) == image_of(
                    self.images@.subrange(i as int, self.images@.len() as int),
                    path@,
                ),
            decreases self.images.len() - i,
        {
            let ghost rest = self.images@.subrange(i as int, self.images@.len() as int);
            assert(rest.subrange(1, rest.len() as int) =~= self.images@.subrange(
                i + 1,
                self.images@.len() as int,
            ));
            if same_text(self.images[i].path.as_str(), path) {
                return Some((self.images[i].width, self.images[i].height));
            }
            i += 1;
        }
        None
    }
}

/// Union of boxes is associative.
pub proof fn lemma_union_associative(a: BoundingBox, b: BoundingBox, c: BoundingBox)
    requires
        a.wf(),
        b.wf(),
        c.wf(),
    ensures
        union_box(union_box(a, b), c) == union_box(a, union_box(b, c)),
{
}

/// Union of boxes is commutative.
pub proof fn lemma_union_commutative(a: BoundingBox, b: BoundingBox)
    requires
        a.wf(),
        b.wf(),
    ensures
        union_box(a, b) == union_box(b, a),
{
}

/// The empty box is the identity of union, on either side.
pub proof fn lemma_union_identity(a: BoundingBox)
    requires
        a.wf(),
    ensures
        union_box(a, empty_box()) == a,
        union_box(empty_box(), a) == a,
{
}

} // verus!
