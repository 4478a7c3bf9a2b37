//! What holds of the codec of every shape.
use crate::codec::{Binary, RoundTrip};
use crate::endian::{
    le_bytes, le_value, lemma_le_bytes_len, lemma_le_prefix, lemma_le_value_bound,
    lemma_pow256_monotonic, lemma_pow256_values, lemma_twos_round_trip, twos,
};
use crate::shape::{
    admits_fields, admits_items, decode_fields, decode_items, encode_fields, encode_items,
    min_width_fields, trees, Shape, Tree, Value,
};
use vstd::prelude::*;

verus! {

/// A run of elements that decodes holds `n` values of the shape in a prefix
/// of the input, and each of them takes at least the minimum width.
pub proof fn lemma_decode_items_bounds(elem: Shape, bs: Seq<u8>, n: nat)
    ensures
        decode_items(elem, bs, n) matches Some((items, used)) ==> {
            &&& items.len() == n
            &&& admits_items(elem, items)
            &&& n * elem.min_width() <= used
            &&& used <= bs.len()
        },
    decreases elem, 1nat, n,
{
    if n > 0 {
        lemma_decode_items_bounds(elem, bs, (n - 1) as nat);
        if let Some((front, used)) = decode_items(elem, bs, (n - 1) as nat) {
            lemma_shape_decode_bounds(elem, bs.skip(used));
            assert((n - 1) * elem.min_width() + elem.min_width() == n * elem.min_width())
                by (nonlinear_arith);
        }
    }
}

/// Fields that decode are values of their shapes, held in a prefix of the
/// input that is at least as long as their minimum widths together.
pub proof fn lemma_decode_fields_bounds(fields: Seq<Shape>, bs: Seq<u8>)
    ensures
        decode_fields(fields, bs) matches Some((items, used)) ==> {
            &&& admits_fields(fields, items)
            &&& min_width_fields(fields) <= used
            &&& used <= bs.len()
        },
    decreases fields, 1nat, 0nat,
{
    if fields.len() > 0 {
        lemma_decode_fields_bounds(fields.drop_last(), bs);
        if let Some((front, used)) = decode_fields(fields.drop_last(), bs) {
            lemma_shape_decode_bounds(fields.last(), bs.skip(used));
            if let Some((last, width)) = fields.last().decode(bs.skip(used)) {
                let items = front.push(last);
                assert forall|i: int| 0 <= i < fields.len() implies (#[trigger] fields[i]).admits(
                    items[i],
                ) by {
                    if i < fields.len() - 1 {
                        assert(fields.drop_last()[i].admits(front[i]));
                    }
                }
            }
        }
    }
}

/// A successful decode yields a value of the shape and consumes a prefix of
/// the input that is at least `min_width` bytes long.
pub proof fn lemma_shape_decode_bounds(shape: Shape, bs: Seq<u8>)
    ensures
        shape.decode(bs) matches Some((t, used)) ==> {
            &&& shape.admits(t)
            &&& shape.min_width() <= used
            &&& used <= bs.len()
        },
    decreases shape, 0nat, 0nat,
{
    lemma_pow256_values();
    match shape {
        Shape::Unsigned(w) => {
            if bs.len() >= w.bytes() {
                lemma_le_value_bound(bs.take(w.bytes() as int));
                lemma_pow256_monotonic(w.bytes(), 16);
            }
        },
        Shape::Signed(w) => {
            if bs.len() >= w.bytes() {
                lemma_le_value_bound(bs.take(w.bytes() as int));
                lemma_pow256_monotonic(w.bytes(), 16);
            }
        },
        Shape::Bool => {
            assert(bool::min_width() == 1);
            bool::lemma_decode_bounds(bs);
        },
        Shape::Char => {
            assert(char::min_width() == 4);
            char::lemma_decode_bounds(bs);
        },
        Shape::Str => {
            assert(String::min_width() == 8);
            String::lemma_decode_bounds(bs);
        },
        Shape::Array(elem, n) => {
            lemma_decode_items_bounds(*elem, bs, n as nat);
        },
        Shape::List(elem) => {
            if bs.len() >= 8 {
                lemma_le_value_bound(bs.take(8));
                lemma_decode_items_bounds(*elem, bs.skip(8), le_value(bs.take(8)));
            }
        },
        Shape::Struct(fields) => {
            lemma_decode_fields_bounds(fields@, bs);
        },
        Shape::Enum(variants) => {
            if bs.len() >= 1 && bs[0] < variants@.len() {
                lemma_decode_fields_bounds(variants@[bs[0] as int]@, bs.skip(1));
            }
        },
    }
}

/// A run of elements reads no byte beyond those it consumes.
pub proof fn lemma_decode_items_prefix(elem: Shape, bs: Seq<u8>, other: Seq<u8>, n: nat)
    requires
        decode_items(elem, bs, n) matches Some((_, used)) && used <= other.len() && other.take(
            used,
        ) == bs.take(used),
    ensures
        decode_items(elem, other, n) == decode_items(elem, bs, n),
    decreases elem, 1nat, n,
{
    if n > 0 {
        let (front, before) = decode_items(elem, bs, (n - 1) as nat).unwrap();
        let (last, width) = elem.decode(bs.skip(before)).unwrap();
        let used = before + width;
        lemma_decode_items_bounds(elem, bs, (n - 1) as nat);
        lemma_shape_decode_bounds(elem, bs.skip(before));
        assert(other.take(before) =~= other.take(used).take(before));
        assert(bs.take(before) =~= bs.take(used).take(before));
        lemma_decode_items_prefix(elem, bs, other, (n - 1) as nat);
        assert(other.skip(before).take(width) =~= other.take(used).skip(before));
        assert(bs.skip(before).take(width) =~= bs.take(used).skip(before));
        lemma_shape_decode_prefix(elem, bs.skip(before), other.skip(before));
    }
}

/// Fields read no byte beyond those they consume.
pub proof fn lemma_decode_fields_prefix(fields: Seq<Shape>, bs: Seq<u8>, other: Seq<u8>)
    requires
        decode_fields(fields, bs) matches Some((_, used)) && used <= other.len() && other.take(
            used,
        ) == bs.take(used),
    ensures
        decode_fields(fields, other) == decode_fields(fields, bs),
    decreases fields, 1nat, 0nat,
{
    if fields.len() > 0 {
        let (front, before) = decode_fields(fields.drop_last(), bs).unwrap();
        let (last, width) = fields.last().decode(bs.skip(before)).unwrap();
        let used = before + width;
        lemma_decode_fields_bounds(fields.drop_last(), bs);
        lemma_shape_decode_bounds(fields.last(), bs.skip(before));
        assert(other.take(before) =~= other.take(used).take(before));
        assert(bs.take(before) =~= bs.take(used).take(before));
        lemma_decode_fields_prefix(fields.drop_last(), bs, other);
        assert(other.skip(before).take(width) =~= other.take(used).skip(before));
        assert(bs.skip(before).take(width) =~= bs.take(used).skip(before));
        lemma_shape_decode_prefix(fields.last(), bs.skip(before), other.skip(before));
    }
}

/// Decoding reads no byte beyond those it consumes: an input that begins
/// with the same bytes holds the same value in as many bytes.
pub proof fn lemma_shape_decode_prefix(shape: Shape, bs: Seq<u8>, other: Seq<u8>)
    requires
        shape.decode(bs) matches Some((_, used)) && used <= other.len() && other.take(used)
            == bs.take(used),
    ensures
        shape.decode(other) == shape.decode(bs),
    decreases shape, 0nat, 0nat,
{
    match shape {
        Shape::Unsigned(w) => {},
        Shape::Signed(w) => {},
        Shape::Bool => {
            bool::lemma_decode_prefix(bs, other);
        },
        Shape::Char => {
            char::lemma_decode_prefix(bs, other);
        },
        Shape::Str => {
            String::lemma_decode_prefix(bs, other);
        },
        Shape::Array(elem, n) => {
            lemma_decode_items_prefix(*elem, bs, other, n as nat);
        },
        Shape::List(elem) => {
            let n = le_value(bs.take(8));
            let used = decode_items(*elem, bs.skip(8), n).unwrap().1;
            lemma_decode_items_bounds(*elem, bs.skip(8), n);
            assert(other.take(8) =~= other.take(8 + used).take(8));
            assert(bs.take(8) =~= bs.take(8 + used).take(8));
            assert(other.skip(8).take(used) =~= other.take(8 + used).skip(8));
            assert(bs.skip(8).take(used) =~= bs.take(8 + used).skip(8));
            lemma_decode_items_prefix(*elem, bs.skip(8), other.skip(8), n);
        },
        Shape::Struct(fields) => {
            lemma_decode_fields_prefix(fields@, bs, other);
        },
        Shape::Enum(variants) => {
            let tag = bs[0];
            let used = decode_fields(variants@[tag as int]@, bs.skip(1)).unwrap().1;
            lemma_decode_fields_bounds(variants@[tag as int]@, bs.skip(1));
            assert(other.take(1 + used)[0] == bs.take(1 + used)[0]);
            assert(other.skip(1).take(used) =~= other.take(1 + used).skip(1));
            assert(bs.skip(1).take(used) =~= bs.take(1 + used).skip(1));
            lemma_decode_fields_prefix(variants@[tag as int]@, bs.skip(1), other.skip(1));
        },
    }
}

/// Once an element fails to decode, every longer run fails too.
pub proof fn lemma_decode_items_fails(elem: Shape, bs: Seq<u8>, i: nat, n: nat)
    requires
        i <= n,
        decode_items(elem, bs, i) is None,
    ensures
        decode_items(elem, bs, n) is None,
    decreases n,
{
    if i < n {
        lemma_decode_items_fails(elem, bs, i, (n - 1) as nat);
    }
}

/// Once a field fails to decode, the fields as a whole fail too.
pub proof fn lemma_decode_fields_fails(fields: Seq<Shape>, bs: Seq<u8>, i: int)
    requires
        0 <= i <= fields.len(),
        decode_fields(fields.take(i), bs) is None,
    ensures
        decode_fields(fields, bs) is None,
    decreases fields.len(),
{
    if i < fields.len() {
        assert(fields.drop_last().take(i) =~= fields.take(i));
        lemma_decode_fields_fails(fields.drop_last(), bs, i);
    } else {
        assert(fields.take(i) =~= fields);
    }
}

/// A run of encodings of one shape decodes to the values it was made of,
/// and leaves what followed it.
pub proof fn lemma_round_trip_items(elem: Shape, items: Seq<Tree>, rest: Seq<u8>)
    requires
        admits_items(elem, items),
    ensures
        decode_items(elem, encode_items(elem, items) + rest, items.len()) == Some(
            (items, encode_items(elem, items).len() as int),
        ),
    decreases elem, 1nat, items.len(),
{
    if items.len() > 0 {
        let front = items.drop_last();
        let tail = elem.encode(items.last()) + rest;
        let input = encode_items(elem, items) + rest;
        assert(admits_items(elem, front)) by {
            assert forall|i: int| 0 <= i < front.len() implies elem.admits(#[trigger] front[i]) by {
                assert(front[i] == items[i]);
            }
        }
        lemma_round_trip_items(elem, front, tail);
        assert(input =~= encode_items(elem, front) + tail);
        assert(input.skip(encode_items(elem, front).len() as int) =~= tail);
        lemma_shape_round_trip(elem, items.last(), rest);
        assert(front.push(items.last()) =~= items);
    }
}

/// The encodings of the fields of a record decode to those fields, and
/// leave what followed them.
pub proof fn lemma_round_trip_fields(fields: Seq<Shape>, items: Seq<Tree>, rest: Seq<u8>)
    requires
        admits_fields(fields, items),
    ensures
        decode_fields(fields, encode_fields(fields, items) + rest) == Some(
            (items, encode_fields(fields, items).len() as int),
        ),
    decreases fields, 1nat, 0nat,
{
    if fields.len() > 0 {
        let front_fields = fields.drop_last();
        let front = items.drop_last();
        let tail = fields.last().encode(items.last()) + rest;
        let input = encode_fields(fields, items) + rest;
        assert(admits_fields(front_fields, front)) by {
            assert forall|i: int| 0 <= i < front_fields.len() implies (
            #[trigger] front_fields[i]).admits(front[i]) by {
                assert(fields[i].admits(items[i]));
            }
        }
        lemma_round_trip_fields(front_fields, front, tail);
        assert(input =~= encode_fields(front_fields, front) + tail);
        assert(input.skip(encode_fields(front_fields, front).len() as int) =~= tail);
        assert(fields.last() == fields[fields.len() - 1]);
        assert(fields[fields.len() - 1].admits(items[fields.len() - 1]));
        lemma_shape_round_trip(fields.last(), items.last(), rest);
        assert(front.push(items.last()) =~= items);
    } else {
        assert(items =~= Seq::<Tree>::empty());
    }
}

/// Round trip: the encoding of a value of a shape decodes to that value, and
/// leaves what followed it.
pub proof fn lemma_shape_round_trip(shape: Shape, t: Tree, rest: Seq<u8>)
    requires
        shape.admits(t),
    ensures
        shape.decode(shape.encode(t) + rest) == Some((t, shape.encode(t).len() as int)),
    decreases shape, 0nat, 0nat,
{
    lemma_pow256_values();
    let input = shape.encode(t) + rest;
    match shape {
        Shape::Unsigned(w) => {
            let x = t->Unsigned_0;
            lemma_le_prefix(x as nat, w.bytes(), rest);
        },
        Shape::Signed(w) => {
            let x = t->Signed_0;
            lemma_twos_round_trip(x as int, w.bytes());
            lemma_le_prefix(twos(x as int, w.bytes()), w.bytes(), rest);
        },
        Shape::Bool => {
            bool::lemma_round_trip(t->Bool_0, rest);
        },
        Shape::Char => {
            char::lemma_round_trip(t->Char_0, rest);
        },
        Shape::Str => {
            String::lemma_round_trip(t->Str_0, rest);
        },
        Shape::Array(elem, n) => {
            lemma_round_trip_items(*elem, t->List_0, rest);
        },
        Shape::List(elem) => {
            let items = t->List_0;
            lemma_le_bytes_len(items.len(), 8);
            lemma_le_prefix(items.len(), 8, encode_items(*elem, items) + rest);
            assert(input =~= le_bytes(items.len(), 8) + (encode_items(*elem, items) + rest));
            lemma_round_trip_items(*elem, items, rest);
        },
        Shape::Struct(fields) => {
            lemma_round_trip_fields(fields@, t->Struct_0, rest);
        },
        Shape::Enum(variants) => {
            let tag = t->Enum_0;
            let items = t->Enum_1;
            let body = encode_fields(variants@[tag as int]@, items);
            assert(input =~= seq![tag] + (body + rest));
            assert(input.skip(1) =~= body + rest);
            lemma_round_trip_fields(variants@[tag as int]@, items, rest);
        },
    }
}

/// Tag boundary: an empty input, or a first byte that numbers no variant,
/// fails to decode as a tagged union; a first byte that numbers a variant
/// is followed by the fields of that variant.
pub proof fn lemma_tag_boundary(variants: Vec<Vec<Shape>>, bs: Seq<u8>)
    ensures
        bs.len() == 0 ==> Shape::Enum(variants).decode(bs) is None,
        bs.len() > 0 && bs[0] >= variants@.len() ==> Shape::Enum(variants).decode(bs) is None,
        bs.len() > 0 && bs[0] < variants@.len() ==> Shape::Enum(variants).decode(bs) == (
        match decode_fields(variants@[bs[0] as int]@, bs.skip(1)) {
            Some((items, used)) => Some((Tree::Enum(bs[0], items), 1 + used)),
            None => None,
        }),
{
}

/// The models of the values of `vs` stand where the values stand.
pub proof fn lemma_trees(vs: Seq<Value>)
    ensures
        trees(vs).len() == vs.len(),
        forall|i: int| 0 <= i < vs.len() ==> #[trigger] trees(vs)[i] == vs[i].model(),
    decreases vs.len(),
{
    if vs.len() > 0 {
        lemma_trees(vs.drop_last());
    }
}

/// The models of a run of values that grew by one.
pub proof fn lemma_trees_push(vs: Seq<Value>, v: Value)
    ensures
        trees(vs.push(v)) == trees(vs).push(v.model()),
{
    assert(vs.push(v).drop_last() =~= vs);
}

/// The value of a shape that the whole of `bs` holds: what `from_bytes`
/// reads. An input with bytes left over holds none.
pub open spec fn shape_decode_exact(shape: Shape, bs: Seq<u8>) -> Option<Tree> {
    match shape.decode(bs) {
        Some((t, used)) => if used == bs.len() {
            Some(t)
        } else {
            None
        },
        None => None,
    }
}

/// Round trip: decoding the whole encoding of a value of a shape gives that
/// value.
pub proof fn lemma_shape_decode_of_encode(shape: Shape, t: Tree)
    requires
        shape.admits(t),
    ensures
        shape_decode_exact(shape, shape.encode(t)) == Some(t),
{
    lemma_shape_round_trip(shape, t, Seq::empty());
    assert(shape.encode(t) + Seq::<u8>::empty() =~= shape.encode(t));
}

/// Truncation: an input shorter than the minimum width of a shape fails to
/// decode.
pub proof fn lemma_shape_truncated_fails(shape: Shape, bs: Seq<u8>)
    requires
        bs.len() < shape.min_width(),
    ensures
        shape.decode(bs) is None,
        shape_decode_exact(shape, bs) is None,
{
    lemma_shape_decode_bounds(shape, bs);
}

/// Truncation at any place: no proper prefix of the encoding of a value of
/// a shape decodes.
pub proof fn lemma_shape_proper_prefix_fails(shape: Shape, t: Tree, len: int)
    requires
        shape.admits(t),
        0 <= len < shape.encode(t).len(),
    ensures
        shape.decode(shape.encode(t).take(len)) is None,
{
    let whole = shape.encode(t);
    let cut = whole.take(len);
    lemma_shape_decode_of_encode(shape, t);
    if let Some((_, used)) = shape.decode(cut) {
        lemma_shape_decode_bounds(shape, cut);
        assert(whole.take(used) =~= cut.take(used));
        lemma_shape_decode_prefix(shape, cut, whole);
    }
}

/// Truncation of what is read as a whole: no proper prefix of an input
/// that is read as a whole decodes.
pub proof fn lemma_shape_cut_input_fails(shape: Shape, bs: Seq<u8>, len: int)
    requires
        shape_decode_exact(shape, bs) is Some,
        0 <= len < bs.len(),
    ensures
        shape.decode(bs.take(len)) is None,
{
    let cut = bs.take(len);
    if let Some((_, used)) = shape.decode(cut) {
        lemma_shape_decode_bounds(shape, cut);
        assert(bs.take(used) =~= cut.take(used));
        lemma_shape_decode_prefix(shape, cut, bs);
    }
}

/// Trailing bytes after what is read as a whole: an input that is read as a
/// whole is no longer read as a whole once anything follows it.
pub proof fn lemma_shape_longer_input_rejected(shape: Shape, bs: Seq<u8>, extra: Seq<u8>)
    requires
        shape_decode_exact(shape, bs) is Some,
        extra.len() > 0,
    ensures
        shape.decode(bs + extra) == shape.decode(bs),
        shape_decode_exact(shape, bs + extra) is None,
{
    assert((bs + extra).take(bs.len() as int) =~= bs.take(bs.len() as int));
    lemma_shape_decode_prefix(shape, bs, bs + extra);
}

/// Trailing bytes: the encoding of a value of a shape that is followed by
/// anything at all is not read as a whole.
pub proof fn lemma_shape_trailing_bytes_rejected(shape: Shape, t: Tree, extra: Seq<u8>)
    requires
        shape.admits(t),
        extra.len() > 0,
    ensures
        shape.decode(shape.encode(t) + extra) == Some((t, shape.encode(t).len() as int)),
        shape_decode_exact(shape, shape.encode(t) + extra) is None,
{
    lemma_shape_round_trip(shape, t, extra);
}

} // verus!
