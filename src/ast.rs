use vstd::prelude::*;

use crate::builtins::{decimal, to_decimal};
use crate::elements::{hex_byte, Color};

verus! {

/// The unit suffix of a number literal.
#[derive(Clone, Copy, Debug, PartialEq, Eq, Structural)]
pub enum Unit {
    W,
    H,
    Em,
    Pt,
}

/// A dotted identifier path, such as `a.b.c`; it is never empty.
#[derive(Debug)]
pub struct Idents(pub Vec<String>);

/// The operator of a binary term.
#[derive(Clone, Copy, Debug, PartialEq, Eq, Structural)]
pub enum BinOp {
    Add,
    Sub,
    Mul,
    Div,
    Exp,
}

impl Unit {
    /// The suffix of the unit as it is written.
    pub open spec fn text(self) -> Seq<char> {
        match self {
            Unit::W => seq!['w'],
            Unit::H => seq!['h'],
            Unit::Em => seq!['e', 'm'],
            Unit::Pt => seq!['p', 't'],
        }
    }

    pub fn as_str(&self) -> (r: &'static str)
        ensures
            r@ == self.text(),
    {
        proof {
            reveal_strlit("w");
            reveal_strlit("h");
            reveal_strlit("em");
            reveal_strlit("pt");
        }
        match self {
            Unit::W => "w",
            Unit::H => "h",
            Unit::Em => {
                assert("em"@ =~= seq!['e', 'm']);
                "em"
            },
            Unit::Pt => {
                assert("pt"@ =~= seq!['p', 't']);
                "pt"
            },
        }
    }
}

impl BinOp {
    /// The operator as it is written.
    pub open spec fn text(self) -> Seq<char> {
        match self {
            BinOp::Add => seq!['+'],
            BinOp::Sub => seq!['-'],
            BinOp::Mul => seq!['*'],
            BinOp::Div => seq!['/'],
            BinOp::Exp => seq!['^'],
        }
    }

    pub fn as_str(&self) -> (r: &'static str)
        ensures
            r@ == self.text(),
    {
        proof {
            reveal_strlit("+");
            reveal_strlit("-");
            reveal_strlit("*");
            reveal_strlit("/");
            reveal_strlit("^");
        }
        match self {
            BinOp::Add => "+",
            BinOp::Sub => "-",
            BinOp::Mul => "*",
            BinOp::Div => "/",
            BinOp::Exp => "^",
        }
    }
}

/// Path segments joined by dots.
pub open spec fn dotted(parts: Seq<Seq<char>>) -> Seq<char>
    decreases parts.len(),
{
    if parts.len() <= 1 {
        if parts.len() == 1 {
            parts[0]
        } else {
            Seq::empty()
        }
    } else {
        dotted(parts.drop_last()) + seq!['.'] + parts.last()
    }
}

/// The texts of strings.
pub open spec fn string_views(parts: Seq<String>) -> Seq<Seq<char>> {
    parts.map_values(|s: String| s@)
}

impl Idents {
    /// The path as it is written, such as `a.b.c`.
    pub fn to_string(&self) -> (r: String)
        requires
            self.0@.len() > 0,
        ensures
            r@ == dotted(string_views(self.0@)),
    {
        let mut out = self.0[0].clone();
        let mut i: usize = 1;
        proof {
            assert(string_views(self.0@).take(1) =~= seq![self.0@[0]@]);
        }
        while i < self.0.len()
            invariant
                1 <= i <= self.0@.len(),
                out@ == dotted(string_views(self.0@).take(i as int)),
            decreases self.0.len() - i,
        {
            let ghost before = string_views(self.0@).take(i as int);
            proof {
                reveal_strlit(".");
                assert("."@ =~= seq!['.']);
            }
            out.append(".");
            out.append(self.0[i].as_str());
            assert(string_views(self.0@).take(i + 1).drop_last() =~= before);
            assert(out@ =~= dotted(before) + seq!['.'] + self.0@[i as int]@);
            i += 1;
        }
        assert(string_views(self.0@).take(i as int) =~= string_views(self.0@));
        out
    }
}

/// A number literal: a whole number with an optional unit.
#[derive(Debug)]
pub struct Num(pub i64, pub Option<Unit>);

/// A coordinate of two terms.
#[derive(Debug)]
pub struct Coord(pub Term, pub Term);

/// A binary operation on two terms.
#[derive(Debug)]
pub struct BinTerm(pub Term, pub BinOp, pub Term);

/// A term of the language, as the parser produces it. Terms own their
/// sub-terms.
#[derive(Debug)]
pub enum Term {
    String(String),
    Number(Num),
    Color(Color),
    Idents(Idents),
    Coord(Box<Coord>),
    BinOp(Box<BinTerm>),
}

/// How a number literal is written: its digits, then its unit.
pub open spec fn num_text(n: Num) -> Seq<char> {
    decimal(n.0 as int) + match n.1 {
        Some(u) => u.text(),
        None => Seq::empty(),
    }
}

/// How a term is written: a coordinate as `(x, y)`, a binary operation as
/// `(a op b)`, a color as `#rrggbb`, a path as `a.b.c`.
pub open spec fn term_text(t: Term) -> Seq<char>
    decreases t,
{
    match t {
        Term::String(s) => s@,
        Term::Number(n) => num_text(n),
        Term::Color(c) => seq!['#'] + hex_byte(c.r) + hex_byte(c.g) + hex_byte(c.b),
        Term::Idents(i) => dotted(string_views(i.0@)),
        Term::Coord(c) => seq!['('] + term_text(c.0) + seq![',', ' '] + term_text(c.1) + seq![')'],
        Term::BinOp(b) => seq!['('] + term_text(b.0) + seq![' '] + b.1.text() + seq![' '] + term_text(
            b.2,
        ) + seq![')'],
    }
}

/// Every path in the term has at least one segment.
pub open spec fn term_wf(t: Term) -> bool
    decreases t,
{
    match t {
        Term::Idents(i) => i.0@.len() > 0,
        Term::Coord(c) => term_wf(c.0) && term_wf(c.1),
        Term::BinOp(b) => term_wf(b.0) && term_wf(b.2),
        _ => true,
    }
}

impl Num {
    /// The number as it is written, such as `12em`.
    pub fn to_string(&self) -> (r: String)
        ensures
            r@ == num_text(*self),
    {
        let mut s = to_decimal(self.0);
        match &self.1 {
            Some(u) => s.append(u.as_str()),
            None => {},
        }
        assert(s@ =~= num_text(*self));
        s
    }
}

impl Term {
    /// The term as it is written.
    pub fn to_string(&self) -> (r: String)
        requires
            term_wf(*self),
        ensures
            r@ == term_text(*self),
        decreases self,
    {
        proof {
            reveal_strlit("(");
            reveal_strlit(")");
            reveal_strlit(", ");
            reveal_strlit(" ");
        }
        match self {
            Term::String(s) => s.clone(),
            Term::Number(n) => n.to_string(),
            Term::Color(c) => c.to_hex(),
            Term::Idents(i) => i.to_string(),
            Term::Coord(c) => {
                let x = c.0.to_string();
                let y = c.1.to_string();
                let mut s = String::new();
                s.append("(");
                s.append(x.as_str());
                s.append(", ");
                s.append(y.as_str());
                s.append(")");
                assert(", "@ =~= seq![',', ' ']);
                assert(s@ =~= term_text(*self));
                s
            },
            Term::BinOp(b) => {
                let l = b.0.to_string();
                let r = b.2.to_string();
                let mut s = String::new();
                s.append("(");
                s.append(l.as_str());
                s.append(" ");
                s.append(b.1.as_str());
                s.append(" ");
                s.append(r.as_str());
                s.append(")");
                assert(s@ =~= term_text(*self));
                s
            },
        }
    }
}

} // verus!
