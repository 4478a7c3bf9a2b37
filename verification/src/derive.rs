//! Codecs derived from the shape of a type: the functions that write and
//! read a value of a shape, and the derivation of a shape from a declaration.
use crate::codec::Binary;
use crate::endian::{lemma_le_value_bound, lemma_pow256_values, read_le, write_le};
use crate::shape::{
    admits_fields, admits_items, decode_fields, decode_items, encode_fields, encode_items, trees,
    wf_fields, Shape, Tree, Value,
};
use crate::shape_laws::{
    lemma_decode_fields_bounds, lemma_decode_fields_fails, lemma_decode_items_bounds,
    lemma_decode_items_fails, lemma_shape_decode_bounds, lemma_trees, lemma_trees_push,
};
use vstd::prelude::*;

verus! {

/// Reads `n` elements of the shape `elem` one after the other.
fn parse_items<'a>(elem: &Shape, bs: &'a [u8], n: u64) -> (r: Option<(Vec<Value>, &'a [u8])>)
    ensures
        r is Some <==> decode_items(*elem, bs@, n as nat) is Some,
        r matches Some((items, rest)) ==> (decode_items(*elem, bs@, n as nat) matches Some(
            (ts, used),
        ) && ts == trees(items@) && 0 <= used <= bs@.len() && rest@ == bs@.skip(used)),
    decreases elem, 1nat, 0nat,
{
    let mut items: Vec<Value> = Vec::new();
    let mut cur: &[u8] = bs;
    let mut i: u64 = 0;
    let ghost mut used: int = 0;
    proof {
        assert(bs@.skip(0) =~= bs@);
    }
    while i < n
        invariant
            i <= n,
            decode_items(*elem, bs@, i as nat) == Some((trees(items@), used)),
            0 <= used <= bs@.len(),
            cur@ == bs@.skip(used),
        decreases n - i,
    {
        proof {
            lemma_shape_decode_bounds(*elem, cur@);
        }
        match elem.parse(cur) {
            Some((v, next)) => {
                proof {
                    let width = elem.decode(cur@).unwrap().1;
                    assert(bs@.skip(used).skip(width) =~= bs@.skip(used + width));
                    lemma_trees_push(items@, v);
                    used = used + width;
                }
                items.push(v);
                cur = next;
            },
            None => {
                proof {
                    lemma_decode_items_fails(*elem, bs@, (i + 1) as nat, n as nat);
                }
                return None;
            },
        }
        i = i + 1;
    }
    Some((items, cur))
}

/// Reads the fields of the shapes `fields` one after the other.
fn parse_fields<'a>(fields: &Vec<Shape>, bs: &'a [u8]) -> (r: Option<(Vec<Value>, &'a [u8])>)
    ensures
        r is Some <==> decode_fields(fields@, bs@) is Some,
        r matches Some((items, rest)) ==> (decode_fields(fields@, bs@) matches Some((ts, used))
            && ts == trees(items@) && 0 <= used <= bs@.len() && rest@ == bs@.skip(used)),
    decreases fields, 1nat, 0nat,
{
    let mut items: Vec<Value> = Vec::new();
    let mut cur: &[u8] = bs;
    let mut i: usize = 0;
    let ghost mut used: int = 0;
    proof {
        assert(bs@.skip(0) =~= bs@);
        assert(fields@.take(0) =~= Seq::<Shape>::empty());
    }
    while i < fields.len()
        invariant
            i <= fields@.len(),
            decode_fields(fields@.take(i as int), bs@) == Some((trees(items@), used)),
            0 <= used <= bs@.len(),
            cur@ == bs@.skip(used),
        decreases fields@.len() - i,
    {
        proof {
            lemma_shape_decode_bounds(fields@[i as int], cur@);
            assert(fields@.take(i + 1).drop_last() =~= fields@.take(i as int));
            assert(fields@.take(i + 1).last() == fields@[i as int]);
        }
        match fields[i].parse(cur) {
            Some((v, next)) => {
                proof {
                    let width = fields@[i as int].decode(cur@).unwrap().1;
                    assert(bs@.skip(used).skip(width) =~= bs@.skip(used + width));
                    lemma_trees_push(items@, v);
                    used = used + width;
                }
                items.push(v);
                cur = next;
            },
            None => {
                proof {
                    lemma_decode_fields_fails(fields@, bs@, i + 1);
                }
                return None;
            },
        }
        i = i + 1;
    }
    proof {
        assert(fields@.take(i as int) =~= fields@);
    }
    Some((items, cur))
}

/// Appends the encodings of `items`, all of the shape `elem`.
fn unparse_items(elem: &Shape, items: &Vec<Value>, bs: &mut Vec<u8>)
    requires
        admits_items(*elem, trees(items@)),
    ensures
        final(bs)@ == old(bs)@ + encode_items(*elem, trees(items@)),
    decreases elem, 1nat, 0nat,
{
    let mut i: usize = 0;
    proof {
        lemma_trees(items@);
        assert(trees(items@).take(0) =~= Seq::<Tree>::empty());
    }
    while i < items.len()
        invariant
            i <= items@.len(),
            admits_items(*elem, trees(items@)),
            trees(items@).len() == items@.len(),
            forall|j: int| 0 <= j < items@.len() ==> #[trigger] trees(items@)[j] == items@[j].model(),
            bs@ == old(bs)@ + encode_items(*elem, trees(items@).take(i as int)),
        decreases items@.len() - i,
    {
        proof {
            assert(trees(items@).take(i + 1).drop_last() =~= trees(items@).take(i as int));
            assert(trees(items@).take(i + 1).last() == trees(items@)[i as int]);
        }
        elem.unparse(&items[i], bs);
        i = i + 1;
    }
    proof {
        assert(trees(items@).take(i as int) =~= trees(items@));
    }
}

/// Appends the encodings of the fields `items` of the shapes `fields`.
fn unparse_fields(fields: &Vec<Shape>, items: &Vec<Value>, bs: &mut Vec<u8>)
    requires
        admits_fields(fields@, trees(items@)),
    ensures
        final(bs)@ == old(bs)@ + encode_fields(fields@, trees(items@)),
    decreases fields, 1nat, 0nat,
{
    let mut i: usize = 0;
    proof {
        lemma_trees(items@);
        assert(fields@.take(0) =~= Seq::<Shape>::empty());
    }
    while i < fields.len()
        invariant
            i <= fields@.len(),
            admits_fields(fields@, trees(items@)),
            trees(items@).len() == items@.len(),
            forall|j: int| 0 <= j < items@.len() ==> #[trigger] trees(items@)[j] == items@[j].model(),
            bs@ == old(bs)@ + encode_fields(
                fields@.take(i as int),
                trees(items@).take(i as int),
            ),
        decreases fields@.len() - i,
    {
        proof {
            assert(fields@.take(i + 1).drop_last() =~= fields@.take(i as int));
            assert(fields@.take(i + 1).last() == fields@[i as int]);
            assert(trees(items@).take(i + 1).drop_last() =~= trees(items@).take(i as int));
            assert(trees(items@).take(i + 1).last() == trees(items@)[i as int]);
        }
        fields[i].unparse(&items[i], bs);
        i = i + 1;
    }
    proof {
        assert(fields@.take(i as int) =~= fields@);
        assert(trees(items@).take(i as int) =~= trees(items@));
    }
}

/// Whether every one of `items` is of the shape `elem`.
fn conforms_items(elem: &Shape, items: &Vec<Value>) -> (ok: bool)
    ensures
        ok == admits_items(*elem, trees(items@)),
    decreases elem, 1nat, 0nat,
{
    let mut i: usize = 0;
    proof {
        lemma_trees(items@);
    }
    while i < items.len()
        invariant
            i <= items@.len(),
            trees(items@).len() == items@.len(),
            forall|j: int| 0 <= j < items@.len() ==> #[trigger] trees(items@)[j] == items@[j].model(),
            forall|j: int| 0 <= j < i ==> elem.admits(#[trigger] trees(items@)[j]),
        decreases items@.len() - i,
    {
        if !elem.conforms(&items[i]) {
            proof {
                assert(!elem.admits(trees(items@)[i as int]));
            }
            return false;
        }
        i = i + 1;
    }
    true
}

/// Whether `items` are fields of the shapes `fields`, one for one.
fn conforms_fields(fields: &Vec<Shape>, items: &Vec<Value>) -> (ok: bool)
    ensures
        ok == admits_fields(fields@, trees(items@)),
    decreases fields, 1nat, 0nat,
{
    proof {
        lemma_trees(items@);
    }
    if items.len() != fields.len() {
        return false;
    }
    let mut i: usize = 0;
    while i < fields.len()
        invariant
            i <= fields@.len(),
            items@.len() == fields@.len(),
            trees(items@).len() == items@.len(),
            forall|j: int| 0 <= j < items@.len() ==> #[trigger] trees(items@)[j] == items@[j].model(),
            forall|j: int| 0 <= j < i ==> (#[trigger] fields@[j]).admits(trees(items@)[j]),
        decreases fields@.len() - i,
    {
        if !fields[i].conforms(&items[i]) {
            proof {
                assert(!fields@[i as int].admits(trees(items@)[i as int]));
            }
            return false;
        }
        i = i + 1;
    }
    true
}

impl Shape {
    /// Whether `v` is a value of this shape.
    pub fn conforms(&self, v: &Value) -> (ok: bool)
        ensures
            ok == self.admits(v.model()),
        decreases self, 0nat, 0nat,
    {
        match self {
            Shape::Unsigned(w) => match v {
                Value::Unsigned(x) => match w.limit() {
                    Some(l) => *x < l,
                    None => {
                        proof {
                            lemma_pow256_values();
                        }
                        true
                    },
                },
                _ => false,
            },
            Shape::Signed(w) => match v {
                Value::Signed(x) => match w.limit() {
                    Some(l) => {
                        let half: i128 = (l / 2) as i128;
                        proof {
                            lemma_pow256_values();
                        }
                        -half <= *x && *x < half
                    },
                    None => {
                        proof {
                            lemma_pow256_values();
                        }
                        true
                    },
                },
                _ => false,
            },
            Shape::Bool => match v {
                Value::Bool(_) => true,
                _ => false,
            },
            Shape::Char => match v {
                Value::Char(_) => true,
                _ => false,
            },
            Shape::Str => match v {
                Value::Str(s) => {
                    // The bytes of a string in memory are never too many to be counted.
                    let bytes: &[u8] = s.as_str().as_bytes();
                    proof {
                        assert(bytes@.len() == bytes.len());
                    }
                    true
                },
                _ => false,
            },
            Shape::Array(elem, n) => match v {
                Value::List(items) => {
                    proof {
                        lemma_trees(items@);
                    }
                    items.len() == *n && conforms_items(elem, items)
                },
                _ => false,
            },
            Shape::List(elem) => match v {
                Value::List(items) => {
                    proof {
                        lemma_trees(items@);
                        assert(items@.len() == items.len());
                    }
                    conforms_items(elem, items)
                },
                _ => false,
            },
            Shape::Struct(fields) => match v {
                Value::Struct(items) => conforms_fields(fields, items),
                _ => false,
            },
            Shape::Enum(variants) => match v {
                Value::Enum(tag, items) => {
                    let t: usize = *tag as usize;
                    t < variants.len() && conforms_fields(&variants[t], items)
                },
                _ => false,
            },
        }
    }

    /// Reads a value of this shape off the front of `bs`.
    pub fn parse<'a>(&self, bs: &'a [u8]) -> (r: Option<(Value, &'a [u8])>)
        ensures
            r is Some <==> self.decode(bs@) is Some,
            r matches Some((v, rest)) ==> (self.decode(bs@) matches Some((t, used)) && t
                == v.model() && 0 <= used <= bs@.len() && rest@ == bs@.skip(used)),
        decreases self, 0nat, 0nat,
    {
        proof {
            lemma_shape_decode_bounds(*self, bs@);
        }
        match self {
            Shape::Unsigned(w) => {
                let n: usize = w.len();
                if bs.len() >= n {
                    let (head, rest) = bs.split_at(n);
                    Some((Value::Unsigned(read_le(head)), rest))
                } else {
                    None
                }
            },
            Shape::Signed(w) => {
                let n: usize = w.len();
                if bs.len() >= n {
                    let (head, rest) = bs.split_at(n);
                    let u: u128 = read_le(head);
                    proof {
                        lemma_le_value_bound(head@);
                    }
                    Some((Value::Signed(w.of_twos(u)), rest))
                } else {
                    None
                }
            },
            Shape::Bool => match bool::parse(bs) {
                Some((b, rest)) => Some((Value::Bool(b), rest)),
                None => None,
            },
            Shape::Char => match char::parse(bs) {
                Some((c, rest)) => Some((Value::Char(c), rest)),
                None => None,
            },
            Shape::Str => match String::parse(bs) {
                Some((s, rest)) => Some((Value::Str(s), rest)),
                None => None,
            },
            Shape::Array(elem, n) => match parse_items(elem, bs, *n as u64) {
                Some((items, rest)) => Some((Value::List(items), rest)),
                None => None,
            },
            Shape::List(elem) => match u64::parse(bs) {
                Some((n, rest)) => {
                    proof {
                        lemma_pow256_values();
                        lemma_le_value_bound(bs@.take(8));
                        lemma_decode_items_bounds(**elem, bs@.skip(8), n as nat);
                    }
                    match parse_items(elem, rest, n) {
                        Some((items, rest)) => {
                            proof {
                                let used = decode_items(**elem, bs@.skip(8), n as nat).unwrap().1;
                                assert(bs@.skip(8).skip(used) =~= bs@.skip(8 + used));
                            }
                            Some((Value::List(items), rest))
                        },
                        None => None,
                    }
                },
                None => None,
            },
            Shape::Struct(fields) => match parse_fields(fields, bs) {
                Some((items, rest)) => Some((Value::Struct(items), rest)),
                None => None,
            },
            Shape::Enum(variants) => match u8::parse(bs) {
                Some((tag, rest)) => {
                    let t: usize = tag as usize;
                    if t < variants.len() {
                        proof {
                            lemma_decode_fields_bounds(variants@[t as int]@, bs@.skip(1));
                        }
                        match parse_fields(&variants[t], rest) {
                            Some((items, rest)) => {
                                proof {
                                    let used = decode_fields(
                                        variants@[t as int]@,
                                        bs@.skip(1),
                                    ).unwrap().1;
                                    assert(bs@.skip(1).skip(used) =~= bs@.skip(1 + used));
                                }
                                Some((Value::Enum(tag, items), rest))
                            },
                            None => None,
                        }
                    } else {
                        None
                    }
                },
                None => None,
            },
        }
    }

    /// Appends the encoding of `v`, a value of this shape.
    pub fn unparse(&self, v: &Value, bs: &mut Vec<u8>)
        requires
            self.admits(v.model()),
        ensures
            final(bs)@ == old(bs)@ + self.encode(v.model()),
        decreases self, 0nat, 0nat,
    {
        match self {
            Shape::Unsigned(w) => match v {
                Value::Unsigned(x) => write_le(*x, w.len(), bs),
                _ => {},
            },
            Shape::Signed(w) => match v {
                Value::Signed(x) => write_le(w.to_twos(*x), w.len(), bs),
                _ => {},
            },
            Shape::Bool => match v {
                Value::Bool(b) => b.unparse(bs),
                _ => {},
            },
            Shape::Char => match v {
                Value::Char(c) => c.unparse(bs),
                _ => {},
            },
            Shape::Str => match v {
                Value::Str(s) => s.unparse(bs),
                _ => {},
            },
            Shape::Array(elem, _) => match v {
                Value::List(items) => unparse_items(elem, items, bs),
                _ => {},
            },
            Shape::List(elem) => match v {
                Value::List(items) => {
                    proof {
                        lemma_trees(items@);
                    }
                    let n: u64 = items.len() as u64;
                    n.unparse(bs);
                    unparse_items(elem, items, bs);
                    proof {
                        assert(bs@ =~= old(bs)@ + self.encode(v.model()));
                    }
                },
                _ => {},
            },
            Shape::Struct(fields) => match v {
                Value::Struct(items) => unparse_fields(fields, items, bs),
                _ => {},
            },
            Shape::Enum(variants) => match v {
                Value::Enum(tag, items) => {
                    bs.push(*tag);
                    unparse_fields(&variants[*tag as usize], items, bs);
                    proof {
                        assert(bs@ =~= old(bs)@ + self.encode(v.model()));
                    }
                },
                _ => {},
            },
        }
    }
}

/// Whether no tagged union among `fields`, at any depth, has more than 256
/// variants.
fn check_fields(fields: &Vec<Shape>) -> (ok: bool)
    ensures
        ok == wf_fields(fields@),
    decreases fields, 1nat, 0nat,
{
    let mut i: usize = 0;
    while i < fields.len()
        invariant
            i <= fields@.len(),
            forall|j: int| 0 <= j < i ==> (#[trigger] fields@[j]).wf(),
        decreases fields@.len() - i,
    {
        if !fields[i].check() {
            return false;
        }
        i = i + 1;
    }
    true
}

/// Whether no tagged union among the fields of `variants`, at any depth, has
/// more than 256 variants.
fn check_variants(variants: &Vec<Vec<Shape>>) -> (ok: bool)
    ensures
        ok == forall|t: int| 0 <= t < variants@.len() ==> wf_fields((#[trigger] variants@[t])@),
    decreases variants, 2nat, 0nat,
{
    let mut t: usize = 0;
    while t < variants.len()
        invariant
            t <= variants@.len(),
            forall|j: int| 0 <= j < t ==> wf_fields((#[trigger] variants@[j])@),
        decreases variants@.len() - t,
    {
        if !check_fields(&variants[t]) {
            return false;
        }
        t = t + 1;
    }
    true
}

impl Shape {
    /// Whether every tagged union in the shape, at any depth, has at most
    /// 256 variants.
    pub fn check(&self) -> (ok: bool)
        ensures
            ok == self.wf(),
        decreases self, 0nat, 0nat,
    {
        match self {
            Shape::Array(elem, _) => elem.check(),
            Shape::List(elem) => elem.check(),
            Shape::Struct(fields) => check_fields(fields),
            Shape::Enum(variants) => variants.len() <= 256 && check_variants(variants),
            _ => true,
        }
    }

    /// Encodes `v`, if it is a value of this shape.
    pub fn to_bytes(&self, v: &Value) -> (r: Option<Vec<u8>>)
        ensures
            r is Some <==> self.admits(v.model()),
            r matches Some(bs) ==> bs@ == self.encode(v.model()),
    {
        if self.conforms(v) {
            let mut bs: Vec<u8> = Vec::new();
            self.unparse(v, &mut bs);
            Some(bs)
        } else {
            None
        }
    }

    /// Reads a value of this shape from the whole of `bs`: an input with
    /// bytes left over is rejected.
    pub fn from_bytes(&self, bs: &[u8]) -> (r: Option<Value>)
        ensures
            r is Some <==> (self.decode(bs@) matches Some((_, used)) && used == bs@.len()),
            r matches Some(v) ==> (self.decode(bs@) matches Some((t, _)) && t == v.model()),
    {
        match self.parse(bs) {
            Some((v, rest)) => {
                if rest.len() == 0 {
                    Some(v)
                } else {
                    None
                }
            },
            None => None,
        }
    }
}

/// The declaration that a codec is asked for: its kind, and the shapes of
/// its fields in the order of declaration. Names play no part on the wire.
#[derive(Debug, PartialEq, Eq)]
pub enum Data {
    /// A record, a tuple struct or, with no fields, a unit struct.
    Struct(Vec<Shape>),
    /// A tagged union: each variant with its fields, a unit variant with none.
    Enum(Vec<Vec<Shape>>),
    /// An untagged union, for which there is no codec.
    Union,
}

/// Why a declaration has no codec.
#[derive(Clone, Copy, Debug, PartialEq, Eq)]
pub enum DeriveError {
    /// A tagged union with more than 256 variants: a tag is one byte.
    TooManyVariants,
    /// The declaration is neither a record nor a tagged union.
    NotStructOrEnum,
}

/// Derives the codec of a declaration from its shape.
///
/// A record gets the shape of its fields, a tagged union that of its
/// variants, whose tags are their places in the declaration. A declaration
/// in which a tagged union, at any depth, has more than 256 variants is
/// refused, and so is a union.
pub fn derive_binary(input: Data) -> (r: Result<Shape, DeriveError>)
    ensures
        match input {
            Data::Struct(fields) => r == if wf_fields(fields@) {
                Ok::<Shape, DeriveError>(Shape::Struct(fields))
            } else {
                Err(DeriveError::TooManyVariants)
            },
            Data::Enum(variants) => r == if Shape::Enum(variants).wf() {
                Ok::<Shape, DeriveError>(Shape::Enum(variants))
            } else {
                Err(DeriveError::TooManyVariants)
            },
            Data::Union => r == Err::<Shape, DeriveError>(DeriveError::NotStructOrEnum),
        },
{
    match input {
        Data::Struct(fields) => {
            let shape = Shape::Struct(fields);
            if shape.check() {
                Ok(shape)
            } else {
                Err(DeriveError::TooManyVariants)
            }
        },
        Data::Enum(variants) => {
            let shape = Shape::Enum(variants);
            if shape.check() {
                Ok(shape)
            } else {
                Err(DeriveError::TooManyVariants)
            }
        },
        Data::Union => Err(DeriveError::NotStructOrEnum),
    }
}

} // verus!
