//! The shape of a type as a value, and what such a shape writes and reads.
//!
//! A record is written as its fields in the order of their declaration, a
//! tagged union as one byte that numbers the variant, from zero in the order
//! of declaration, followed by the fields of that variant. Nothing but the
//! shape is needed to write and read such a type, so the shape is a value
//! here, and so is what it describes.
use crate::codec::Binary;
use crate::endian::{le_bytes, le_value, lemma_pow256_values, pow256, twos, untwos};
use vstd::prelude::*;

verus! {

/// The width of a machine integer.
#[derive(Clone, Copy, Debug, PartialEq, Eq)]
pub enum Width {
    W1,
    W2,
    W4,
    W8,
    W16,
}

impl Width {
    /// The width in bytes.
    pub open spec fn bytes(self) -> nat {
        match self {
            Width::W1 => 1,
            Width::W2 => 2,
            Width::W4 => 4,
            Width::W8 => 8,
            Width::W16 => 16,
        }
    }

    /// The width in bytes.
    pub fn len(&self) -> (n: usize)
        ensures
            n == self.bytes(),
    {
        match self {
            Width::W1 => 1,
            Width::W2 => 2,
            Width::W4 => 4,
            Width::W8 => 8,
            Width::W16 => 16,
        }
    }

    /// The number of values that an integer of this width has, where 128
    /// bits hold that number: all widths but the widest.
    pub(crate) fn limit(&self) -> (r: Option<u128>)
        ensures
            r matches Some(l) ==> l == pow256(self.bytes()) && l <= 0x1_0000_0000_0000_0000,
            r is None <==> self.bytes() == 16,
    {
        proof {
            lemma_pow256_values();
        }
        match self {
            Width::W1 => Some(0x100),
            Width::W2 => Some(0x1_0000),
            Width::W4 => Some(0x1_0000_0000),
            Width::W8 => Some(0x1_0000_0000_0000_0000),
            Width::W16 => None,
        }
    }

    /// The two's complement of `x` in this width.
    pub(crate) fn to_twos(&self, x: i128) -> (u: u128)
        requires
            -(pow256(self.bytes()) as int) <= 2 * x < pow256(self.bytes()),
        ensures
            u == twos(x as int, self.bytes()),
    {
        proof {
            lemma_pow256_values();
        }
        if x >= 0 {
            x as u128
        } else {
            match self.limit() {
                Some(l) => (x + l as i128) as u128,
                None => (x - i128::MIN) as u128 + 0x8000_0000_0000_0000_0000_0000_0000_0000,
            }
        }
    }

    /// The signed number that the two's complement `u` of this width stands for.
    pub(crate) fn of_twos(&self, u: u128) -> (x: i128)
        requires
            u < pow256(self.bytes()),
        ensures
            x == untwos(u as nat, self.bytes()),
    {
        proof {
            lemma_pow256_values();
        }
        match self.limit() {
            Some(l) => {
                if 2 * u < l {
                    u as i128
                } else {
                    u as i128 - l as i128
                }
            },
            None => {
                if u < 0x8000_0000_0000_0000_0000_0000_0000_0000 {
                    u as i128
                } else {
                    (u - 0x8000_0000_0000_0000_0000_0000_0000_0000) as i128 + i128::MIN
                }
            },
        }
    }
}

/// The shape of a type, as far as its encoding depends on it.
#[derive(Debug, PartialEq, Eq)]
pub enum Shape {
    /// An unsigned integer of the given width. A float has the shape of the
    /// unsigned integer of its width, and is carried as its bit pattern.
    Unsigned(Width),
    /// A signed integer of the given width, in two's complement.
    Signed(Width),
    /// A boolean.
    Bool,
    /// A Unicode scalar value.
    Char,
    /// A string.
    Str,
    /// As many elements of one shape as the type says.
    Array(Box<Shape>, usize),
    /// A container of variable length: a count and that many elements.
    List(Box<Shape>),
    /// A record or a tuple: its fields in the order of declaration. A unit
    /// has no fields.
    Struct(Vec<Shape>),
    /// A tagged union: its variants in the order of declaration, each with
    /// its fields.
    Enum(Vec<Vec<Shape>>),
}

/// A value of some shape.
#[derive(Debug, PartialEq, Eq)]
pub enum Value {
    Unsigned(u128),
    Signed(i128),
    Bool(bool),
    Char(char),
    Str(String),
    /// The elements of an array or of a container.
    List(Vec<Value>),
    /// The fields of a record.
    Struct(Vec<Value>),
    /// The tag of a variant, and its fields.
    Enum(u8, Vec<Value>),
}

/// What a `Value` stands for.
pub enum Tree {
    Unsigned(u128),
    Signed(i128),
    Bool(bool),
    Char(char),
    Str(Seq<char>),
    List(Seq<Tree>),
    Struct(Seq<Tree>),
    Enum(u8, Seq<Tree>),
}

/// The models of the values of `vs`, in order.
pub open spec fn trees(vs: Seq<Value>) -> Seq<Tree>
    decreases vs, 0nat,
{
    if vs.len() == 0 {
        Seq::empty()
    } else {
        trees(vs.drop_last()).push(vs.last().model())
    }
}

impl Value {
    /// The model of a value.
    pub open spec fn model(self) -> Tree
        decreases self, 1nat,
    {
        match self {
            Value::Unsigned(x) => Tree::Unsigned(x),
            Value::Signed(x) => Tree::Signed(x),
            Value::Bool(b) => Tree::Bool(b),
            Value::Char(c) => Tree::Char(c),
            Value::Str(s) => Tree::Str(s@),
            Value::List(items) => Tree::List(trees(items@)),
            Value::Struct(items) => Tree::Struct(trees(items@)),
            Value::Enum(tag, items) => Tree::Enum(tag, trees(items@)),
        }
    }
}

/// Whether every one of `items` is of the shape `elem`.
pub open spec fn admits_items(elem: Shape, items: Seq<Tree>) -> bool
    decreases elem, 1nat, 0nat,
{
    forall|i: int| 0 <= i < items.len() ==> elem.admits(#[trigger] items[i])
}

/// Whether `items` are fields of the shapes `fields`, one for one.
pub open spec fn admits_fields(fields: Seq<Shape>, items: Seq<Tree>) -> bool
    decreases fields, 1nat, 0nat,
{
    &&& items.len() == fields.len()
    &&& forall|i: int| 0 <= i < fields.len() ==> (#[trigger] fields[i]).admits(items[i])
}

/// The encodings of `items`, all of the shape `elem`, one after the other.
pub open spec fn encode_items(elem: Shape, items: Seq<Tree>) -> Seq<u8>
    decreases elem, 1nat, items.len(),
{
    if items.len() == 0 {
        Seq::empty()
    } else {
        encode_items(elem, items.drop_last()) + elem.encode(items.last())
    }
}

/// The encodings of the fields `items` of the shapes `fields`, in the order
/// of declaration.
pub open spec fn encode_fields(fields: Seq<Shape>, items: Seq<Tree>) -> Seq<u8>
    decreases fields, 1nat, 0nat,
{
    if fields.len() == 0 || items.len() != fields.len() {
        Seq::empty()
    } else {
        encode_fields(fields.drop_last(), items.drop_last()) + fields.last().encode(items.last())
    }
}

/// The first `n` elements of the shape `elem` that `bs` holds one after the
/// other, with the number of bytes they occupy.
pub open spec fn decode_items(elem: Shape, bs: Seq<u8>, n: nat) -> Option<(Seq<Tree>, int)>
    decreases elem, 1nat, n,
{
    if n == 0 {
        Some((Seq::empty(), 0))
    } else {
        match decode_items(elem, bs, (n - 1) as nat) {
            Some((front, used)) => match elem.decode(bs.skip(used)) {
                Some((last, width)) => Some((front.push(last), used + width)),
                None => None,
            },
            None => None,
        }
    }
}

/// The fields of the shapes `fields` that `bs` holds one after the other,
/// with the number of bytes they occupy.
pub open spec fn decode_fields(fields: Seq<Shape>, bs: Seq<u8>) -> Option<(Seq<Tree>, int)>
    decreases fields, 1nat, 0nat,
{
    if fields.len() == 0 {
        Some((Seq::empty(), 0))
    } else {
        match decode_fields(fields.drop_last(), bs) {
            Some((front, used)) => match fields.last().decode(bs.skip(used)) {
                Some((last, width)) => Some((front.push(last), used + width)),
                None => None,
            },
            None => None,
        }
    }
}

/// The least number of bytes that fields of the shapes `fields` take.
pub open spec fn min_width_fields(fields: Seq<Shape>) -> nat
    decreases fields, 1nat, 0nat,
{
    if fields.len() == 0 {
        0
    } else {
        min_width_fields(fields.drop_last()) + fields.last().min_width()
    }
}

/// Whether no tagged union among `fields`, at any depth, has more variants
/// than a tag can number.
pub open spec fn wf_fields(fields: Seq<Shape>) -> bool
    decreases fields, 1nat, 0nat,
{
    forall|i: int| 0 <= i < fields.len() ==> (#[trigger] fields[i]).wf()
}

impl Shape {
    /// Whether every tagged union in the shape, at any depth, has at most
    /// 256 variants, so that a tag of one byte numbers each of them.
    pub open spec fn wf(self) -> bool
        decreases self, 0nat, 0nat,
    {
        match self {
            Shape::Array(elem, _) => elem.wf(),
            Shape::List(elem) => elem.wf(),
            Shape::Struct(fields) => wf_fields(fields@),
            Shape::Enum(variants) => {
                &&& variants@.len() <= 256
                &&& forall|t: int|
                    0 <= t < variants@.len() ==> wf_fields((#[trigger] variants@[t])@)
            },
            _ => true,
        }
    }

    /// Whether `t` is a value of this shape.
    pub open spec fn admits(self, t: Tree) -> bool
        decreases self, 0nat, 0nat,
    {
        match self {
            Shape::Unsigned(w) => t matches Tree::Unsigned(x) && x < pow256(w.bytes()),
            Shape::Signed(w) => t matches Tree::Signed(x) && -(pow256(w.bytes()) as int) <= 2 * x
                < pow256(w.bytes()),
            Shape::Bool => t is Bool,
            Shape::Char => t is Char,
            Shape::Str => t matches Tree::Str(s) && String::valid(s),
            Shape::Array(elem, n) => t matches Tree::List(items) && items.len() == n
                && admits_items(*elem, items),
            Shape::List(elem) => t matches Tree::List(items) && items.len() <= u64::MAX
                && admits_items(*elem, items),
            Shape::Struct(fields) => t matches Tree::Struct(items) && admits_fields(
                fields@,
                items,
            ),
            Shape::Enum(variants) => t matches Tree::Enum(tag, items) && tag < variants@.len()
                && admits_fields(variants@[tag as int]@, items),
        }
    }

    /// The canonical encoding of a value of this shape.
    pub open spec fn encode(self, t: Tree) -> Seq<u8>
        decreases self, 0nat, 0nat,
    {
        match self {
            Shape::Unsigned(w) => match t {
                Tree::Unsigned(x) => le_bytes(x as nat, w.bytes()),
                _ => Seq::empty(),
            },
            Shape::Signed(w) => match t {
                Tree::Signed(x) => le_bytes(twos(x as int, w.bytes()), w.bytes()),
                _ => Seq::empty(),
            },
            Shape::Bool => match t {
                Tree::Bool(b) => bool::encode(b),
                _ => Seq::empty(),
            },
            Shape::Char => match t {
                Tree::Char(c) => char::encode(c),
                _ => Seq::empty(),
            },
            Shape::Str => match t {
                Tree::Str(s) => String::encode(s),
                _ => Seq::empty(),
            },
            Shape::Array(elem, _) => match t {
                Tree::List(items) => encode_items(*elem, items),
                _ => Seq::empty(),
            },
            Shape::List(elem) => match t {
                Tree::List(items) => le_bytes(items.len(), 8) + encode_items(*elem, items),
                _ => Seq::empty(),
            },
            Shape::Struct(fields) => match t {
                Tree::Struct(items) => encode_fields(fields@, items),
                _ => Seq::empty(),
            },
            Shape::Enum(variants) => match t {
                Tree::Enum(tag, items) => if tag < variants@.len() {
                    seq![tag] + encode_fields(variants@[tag as int]@, items)
                } else {
                    Seq::empty()
                },
                _ => Seq::empty(),
            },
        }
    }

    /// The value of this shape that the front of `bs` holds, with the number
    /// of bytes it occupies; `None` where the input is truncated or
    /// malformed.
    pub open spec fn decode(self, bs: Seq<u8>) -> Option<(Tree, int)>
        decreases self, 0nat, 0nat,
    {
        match self {
            Shape::Unsigned(w) => if bs.len() >= w.bytes() {
                Some((Tree::Unsigned(le_value(bs.take(w.bytes() as int)) as u128), w.bytes() as int))
            } else {
                None
            },
            Shape::Signed(w) => if bs.len() >= w.bytes() {
                Some(
                    (
                        Tree::Signed(
                            untwos(le_value(bs.take(w.bytes() as int)), w.bytes()) as i128,
                        ),
                        w.bytes() as int,
                    ),
                )
            } else {
                None
            },
            Shape::Bool => match bool::decode(bs) {
                Some((b, used)) => Some((Tree::Bool(b), used)),
                None => None,
            },
            Shape::Char => match char::decode(bs) {
                Some((c, used)) => Some((Tree::Char(c), used)),
                None => None,
            },
            Shape::Str => match String::decode(bs) {
                Some((s, used)) => Some((Tree::Str(s), used)),
                None => None,
            },
            Shape::Array(elem, n) => match decode_items(*elem, bs, n as nat) {
                Some((items, used)) => Some((Tree::List(items), used)),
                None => None,
            },
            Shape::List(elem) => if bs.len() >= 8 {
                match decode_items(*elem, bs.skip(8), le_value(bs.take(8))) {
                    Some((items, used)) => Some((Tree::List(items), 8 + used)),
                    None => None,
                }
            } else {
                None
            },
            Shape::Struct(fields) => match decode_fields(fields@, bs) {
                Some((items, used)) => Some((Tree::Struct(items), used)),
                None => None,
            },
            Shape::Enum(variants) => if bs.len() >= 1 && bs[0] < variants@.len() {
                match decode_fields(variants@[bs[0] as int]@, bs.skip(1)) {
                    Some((items, used)) => Some((Tree::Enum(bs[0], items), 1 + used)),
                    None => None,
                }
            } else {
                None
            },
        }
    }

    /// A lower bound on the width of every encoding of this shape.
    pub open spec fn min_width(self) -> nat
        decreases self, 0nat, 0nat,
    {
        match self {
            Shape::Unsigned(w) => w.bytes(),
            Shape::Signed(w) => w.bytes(),
            Shape::Bool => 1,
            Shape::Char => 4,
            Shape::Str => 8,
            Shape::Array(elem, n) => n as nat * elem.min_width(),
            Shape::List(_) => 8,
            Shape::Struct(fields) => min_width_fields(fields@),
            Shape::Enum(_) => 1,
        }
    }
}

} // verus!
