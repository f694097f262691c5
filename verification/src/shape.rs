//! Shape declarations: the caller's description of the structure it expects
//! the next decoded value to have.
//!
//! A shape carries no data, only structure. The layer that turns a host
//! language's own struct and enum definitions into shapes is outside this
//! crate; the engine only consumes the declarations.

use vstd::prelude::*;

verus! {

/// One case of a declared variant shape: its wire tag and the shapes of its
/// payload elements (none for a unit case).
#[derive(Debug, PartialEq, Eq)]
pub struct Case {
    pub tag: Vec<u8>,
    pub payload: Vec<Shape>,
}

/// The declared structure of one value to decode.
#[derive(Debug, PartialEq, Eq)]
pub enum Shape {
    /// One of the two closed boolean bulk-string literals.
    Bool,
    /// A bulk string of decimal digits, read as a 64-bit unsigned integer.
    Unsigned,
    /// A bulk string of digits with an optional leading `-`, read as a 64-bit
    /// signed integer.
    Signed,
    /// A bulk string holding the UTF-8 encoding of exactly one character.
    Char,
    /// A bulk string taken verbatim as bytes.
    Bytes,
    /// The null bulk string, and nothing else.
    Unit,
    /// Either the null bulk string (absence) or a value of the inner shape.
    Optional(Box<Shape>),
    /// An array header followed by that many elements of one shape.
    List(Box<Shape>),
    /// An array header followed by elements of these shapes, in order. The
    /// header may declare more elements than the tuple takes; the extras are
    /// left unconsumed for the caller.
    Tuple(Vec<Shape>),
    /// An array of the record's name followed by its fields, in declared
    /// order. The header count must equal the field count plus one.
    Record { name: Vec<u8>, fields: Vec<Shape> },
    /// An array of a case tag followed by that case's payload. The tag on the
    /// wire selects the first case with that tag.
    Variant { cases: Vec<Case> },
}

/// The mathematical counterpart of [`Case`].
pub struct SpecCase {
    pub tag: Seq<u8>,
    pub payload: Seq<SpecShape>,
}

/// The mathematical counterpart of [`Shape`].
pub enum SpecShape {
    Bool,
    Unsigned,
    Signed,
    Char,
    Bytes,
    Unit,
    Optional(Box<SpecShape>),
    List(Box<SpecShape>),
    Tuple(Seq<SpecShape>),
    Record { name: Seq<u8>, fields: Seq<SpecShape> },
    Variant { cases: Seq<SpecCase> },
}

/// The views of every shape in a sequence.
pub open spec fn shape_views_of(ss: Seq<Shape>) -> Seq<SpecShape>
    decreases ss,
{
    Seq::new(
        ss.len(),
        |i: int|
            (if 0 <= i < ss.len() {
                shape_view(ss[i])
            } else {
                SpecShape::Unit
            }),
    )
}

/// The views of every case in a sequence.
pub open spec fn case_views_of(cs: Seq<Case>) -> Seq<SpecCase>
    decreases cs,
{
    Seq::new(
        cs.len(),
        |i: int|
            (if 0 <= i < cs.len() {
                case_view(cs[i])
            } else {
                SpecCase { tag: Seq::empty(), payload: Seq::empty() }
            }),
    )
}

/// The mathematical shape a [`Case`] declares.
pub open spec fn case_view(c: Case) -> SpecCase
    decreases c,
{
    SpecCase { tag: c.tag@, payload: shape_views_of(c.payload@) }
}

/// The mathematical shape a [`Shape`] declares.
pub open spec fn shape_view(s: Shape) -> SpecShape
    decreases s,
{
    match s {
        Shape::Bool => SpecShape::Bool,
        Shape::Unsigned => SpecShape::Unsigned,
        Shape::Signed => SpecShape::Signed,
        Shape::Char => SpecShape::Char,
        Shape::Bytes => SpecShape::Bytes,
        Shape::Unit => SpecShape::Unit,
        Shape::Optional(inner) => SpecShape::Optional(Box::new(shape_view(*inner))),
        Shape::List(elem) => SpecShape::List(Box::new(shape_view(*elem))),
        Shape::Tuple(parts) => SpecShape::Tuple(shape_views_of(parts@)),
        Shape::Record { name, fields } => SpecShape::Record {
            name: name@,
            fields: shape_views_of(fields@),
        },
        Shape::Variant { cases } => SpecShape::Variant { cases: case_views_of(cases@) },
    }
}

impl View for Shape {
    type V = SpecShape;

    open spec fn view(&self) -> SpecShape {
        shape_view(*self)
    }
}

impl View for Case {
    type V = SpecCase;

    open spec fn view(&self) -> SpecCase {
        case_view(*self)
    }
}

} // verus!
