//! The dynamically-typed payload model shipped across the boundary as text.
//!
//! A `Value` is one of a closed set of variants; its mathematical model is
//! `ValueView`, over which the wire text is given by `spec_encode`. The
//! executable encoder and decoder in `codec` are proved against that
//! statement. A 64-bit floating-point payload is carried as its decimal
//! text, so that the codec's treatment of it can be stated and checked
//! without floating-point arithmetic; converting between that text and a
//! machine float is the native formatter's and parser's job and stays
//! outside the library.

use vstd::prelude::*;

use crate::encoding::spec_b64;
use crate::numtext::{int_text, nat_text, valid_float_text};
use vstd::utf8::encode_utf8;

verus! {

/// A dynamically-typed value: the payload model of the interchange codec.
#[derive(Debug, PartialEq)]
pub enum Value {
    Null,
    /// A 64-bit signed integer.
    Int(i64),
    /// A 64-bit floating-point number, carried as its decimal text; the
    /// text must be acceptable to the native floating-point parser.
    Float(String),
    Bool(bool),
    /// Text; encoded as the base64 of its UTF-8 bytes.
    String(String),
    /// An opaque binary blob.
    Buffer(Vec<u8>),
    /// An ordered sequence of values.
    Array(Vec<Value>),
    /// A mapping from names to values; names are unique, and their order is
    /// not significant.
    Struct(Vec<(String, Value)>),
}

/// The mathematical model of a `Value`: the same tree over sequences.
#[verifier::ext_equal]
pub enum ValueView {
    Null,
    Int(i64),
    Float(Seq<char>),
    Bool(bool),
    String(Seq<char>),
    Buffer(Seq<u8>),
    Array(Seq<ValueView>),
    Struct(Seq<(Seq<char>, ValueView)>),
}

/// The model of a value.
pub open spec fn view_of(v: Value) -> ValueView
    decreases v,
{
    match v {
        Value::Null => ValueView::Null,
        Value::Int(i) => ValueView::Int(i),
        Value::Float(t) => ValueView::Float(t@),
        Value::Bool(b) => ValueView::Bool(b),
        Value::String(s) => ValueView::String(s@),
        Value::Buffer(bytes) => ValueView::Buffer(bytes@),
        Value::Array(items) => ValueView::Array(views_of_items(items@)),
        Value::Struct(pairs) => ValueView::Struct(views_of_pairs(pairs@)),
    }
}

pub open spec fn views_of_items(items: Seq<Value>) -> Seq<ValueView>
    decreases items,
{
    if items.len() == 0 {
        Seq::<ValueView>::empty()
    } else {
        seq![view_of(items.first())] + views_of_items(items.drop_first())
    }
}

pub open spec fn views_of_pairs(pairs: Seq<(String, Value)>) -> Seq<(Seq<char>, ValueView)>
    decreases pairs,
{
    if pairs.len() == 0 {
        Seq::<(Seq<char>, ValueView)>::empty()
    } else {
        seq![(pairs.first().0@, view_of(pairs.first().1))] + views_of_pairs(pairs.drop_first())
    }
}

impl View for Value {
    type V = ValueView;

    open spec fn view(&self) -> ValueView {
        view_of(*self)
    }
}

/// The item views are the views of the items, in place.
pub proof fn lemma_views_of_items(items: Seq<Value>)
    ensures
        views_of_items(items).len() == items.len(),
        forall|i: int|
            0 <= i < items.len() ==> #[trigger] views_of_items(items)[i] == view_of(items[i]),
    decreases items,
{
    if items.len() > 0 {
        lemma_views_of_items(items.drop_first());
        assert(forall|i: int|
            1 <= i < items.len() ==> #[trigger] items.drop_first()[i - 1] == items[i]);
    }
}

/// The pair views are the views of the pairs, in place.
pub proof fn lemma_views_of_pairs(pairs: Seq<(String, Value)>)
    ensures
        views_of_pairs(pairs).len() == pairs.len(),
        forall|i: int|
            0 <= i < pairs.len() ==> #[trigger] views_of_pairs(pairs)[i] == ((
            pairs[i].0@,
            view_of(pairs[i].1),
            )),
    decreases pairs,
{
    if pairs.len() > 0 {
        lemma_views_of_pairs(pairs.drop_first());
        assert(forall|i: int|
            1 <= i < pairs.len() ==> #[trigger] pairs.drop_first()[i - 1] == pairs[i]);
    }
}

/// Well-formedness of a value: float text is parseable and struct keys are
/// unique, throughout the tree.
pub open spec fn vari_wf(w: ValueView) -> bool
    decreases w,
{
    match w {
        ValueView::Float(t) => valid_float_text(t),
        ValueView::Array(items) => items_wf(items),
        ValueView::Struct(pairs) => keys_unique(pairs) && pairs_wf(pairs),
        _ => true,
    }
}

/// Every element of the sequence is well-formed.
pub open spec fn items_wf(items: Seq<ValueView>) -> bool
    decreases items,
{
    items.len() == 0 || (vari_wf(items.first()) && items_wf(items.drop_first()))
}

/// Every entry's value is well-formed.
pub open spec fn pairs_wf(pairs: Seq<(Seq<char>, ValueView)>) -> bool
    decreases pairs,
{
    pairs.len() == 0 || (vari_wf(pairs.first().1) && pairs_wf(pairs.drop_first()))
}

/// No two entries share a name.
pub open spec fn keys_unique(pairs: Seq<(Seq<char>, ValueView)>) -> bool {
    forall|i: int, j: int|
        0 <= i < j < pairs.len() ==> (#[trigger] pairs[i]).0 != (#[trigger] pairs[j]).0
}

/// `items_wf` says exactly that each element is well-formed.
pub proof fn lemma_items_wf(items: Seq<ValueView>)
    ensures
        items_wf(items) <==> (forall|i: int| 0 <= i < items.len() ==> vari_wf(#[trigger] items[i])),
    decreases items.len(),
{
    if items.len() > 0 {
        lemma_items_wf(items.drop_first());
        assert(forall|i: int|
            0 <= i < items.len() - 1 ==> #[trigger] items.drop_first()[i] == items[i + 1]);
        if items_wf(items) {
            assert forall|i: int| 0 <= i < items.len() implies vari_wf(#[trigger] items[i]) by {
                if i > 0 {
                    assert(vari_wf(items.drop_first()[i - 1]));
                }
            }
        }
        if forall|i: int| 0 <= i < items.len() ==> vari_wf(#[trigger] items[i]) {
            assert forall|i: int|
                0 <= i < items.drop_first().len() implies vari_wf(
                #[trigger] items.drop_first()[i],
            ) by {
                assert(items.drop_first()[i] == items[i + 1]);
                assert(vari_wf(items[i + 1]));
            }
            assert(vari_wf(items.first()));
            assert(items_wf(items));
        }
    }
}

/// `pairs_wf` says exactly that each entry's value is well-formed.
pub proof fn lemma_pairs_wf(pairs: Seq<(Seq<char>, ValueView)>)
    ensures
        pairs_wf(pairs) <==> (forall|i: int|
            0 <= i < pairs.len() ==> vari_wf((#[trigger] pairs[i]).1)),
    decreases pairs.len(),
{
    if pairs.len() > 0 {
        lemma_pairs_wf(pairs.drop_first());
        assert(forall|i: int|
            0 <= i < pairs.len() - 1 ==> #[trigger] pairs.drop_first()[i] == pairs[i + 1]);
        if pairs_wf(pairs) {
            assert forall|i: int| 0 <= i < pairs.len() implies vari_wf((#[trigger] pairs[i]).1) by {
                if i > 0 {
                    assert(vari_wf(pairs.drop_first()[i - 1].1));
                }
            }
        }
        if forall|i: int| 0 <= i < pairs.len() ==> vari_wf((#[trigger] pairs[i]).1) {
            assert forall|i: int|
                0 <= i < pairs.drop_first().len() implies vari_wf(
                (#[trigger] pairs.drop_first()[i]).1,
            ) by {
                assert(pairs.drop_first()[i] == pairs[i + 1]);
                assert(vari_wf(pairs[i + 1].1));
            }
            assert(vari_wf(pairs.first().1));
            assert(pairs_wf(pairs));
        }
    }
}

/// The wire text of a value: a one-character tag, then colon-separated
/// fields. Free-form fields are base64-escaped, so no field can contain the
/// delimiter; child records of arrays and structs are encoded recursively
/// and then base64-escaped as well.
pub open spec fn spec_encode(w: ValueView) -> Seq<char>
    decreases w,
{
    match w {
        ValueView::Null => seq!['!'],
        ValueView::Int(i) => seq!['0', ':'] + int_text(i as int),
        ValueView::Float(t) => seq!['1', ':'] + t,
        ValueView::Bool(b) => seq!['2', ':'] + (if b {
            seq!['1']
        } else {
            seq!['0']
        }),
        ValueView::String(s) => seq!['3', ':'] + spec_b64(encode_utf8(s)),
        ValueView::Buffer(bytes) => seq!['4', ':'] + spec_b64(bytes),
        ValueView::Array(items) => seq!['5', ':'] + nat_text(items.len()) + encode_items(items),
        ValueView::Struct(pairs) => seq!['6', ':'] + nat_text(pairs.len()) + encode_pairs(pairs),
    }
}

/// The tail of an array record: one `:`-prefixed base64 field for each
/// element's own record.
pub open spec fn encode_items(items: Seq<ValueView>) -> Seq<char>
    decreases items,
{
    if items.len() == 0 {
        Seq::<char>::empty()
    } else {
        seq![':'] + spec_b64(encode_utf8(spec_encode(items.first()))) + encode_items(
            items.drop_first(),
        )
    }
}

/// The tail of a struct record: for each entry a `:`-prefixed base64 name
/// field and a `:`-prefixed base64 field for the value's record.
pub open spec fn encode_pairs(pairs: Seq<(Seq<char>, ValueView)>) -> Seq<char>
    decreases pairs,
{
    if pairs.len() == 0 {
        Seq::<char>::empty()
    } else {
        seq![':'] + spec_b64(encode_utf8(pairs.first().0)) + seq![':'] + spec_b64(
            encode_utf8(spec_encode(pairs.first().1)),
        ) + encode_pairs(pairs.drop_first())
    }
}


/// The elements of a well-formed array are well-formed.
pub proof fn lemma_array_wf(items: Seq<ValueView>)
    requires
        vari_wf(ValueView::Array(items)),
    ensures
        forall|i: int| 0 <= i < items.len() ==> vari_wf(#[trigger] items[i]),
{
    lemma_items_wf(items);
}

/// The entries of a well-formed struct have unique names and well-formed
/// values.
pub proof fn lemma_struct_wf(pairs: Seq<(Seq<char>, ValueView)>)
    requires
        vari_wf(ValueView::Struct(pairs)),
    ensures
        forall|i: int| 0 <= i < pairs.len() ==> vari_wf((#[trigger] pairs[i]).1),
        keys_unique(pairs),
{
    lemma_pairs_wf(pairs);
}


/// Appending a value appends its view.
pub proof fn lemma_views_of_items_push(items: Seq<Value>, v: Value)
    ensures
        views_of_items(items.push(v)) == views_of_items(items).push(view_of(v)),
{
    lemma_views_of_items(items);
    lemma_views_of_items(items.push(v));
    assert forall|i: int|
        0 <= i < items.len() + 1 implies #[trigger] views_of_items(items.push(v))[i]
        == views_of_items(items).push(view_of(v))[i] by {
        if i < items.len() {
            assert(items.push(v)[i] == items[i]);
        } else {
            assert(items.push(v)[i] == v);
        }
    }
    assert(views_of_items(items.push(v)) =~= views_of_items(items).push(view_of(v)));
}

/// Appending an entry appends its view.
pub proof fn lemma_views_of_pairs_push(pairs: Seq<(String, Value)>, name: String, v: Value)
    ensures
        views_of_pairs(pairs.push((name, v))) == views_of_pairs(pairs).push((name@, view_of(v))),
{
    lemma_views_of_pairs(pairs);
    lemma_views_of_pairs(pairs.push((name, v)));
    assert forall|i: int|
        0 <= i < pairs.len() + 1 implies #[trigger] views_of_pairs(pairs.push((name, v)))[i]
        == views_of_pairs(pairs).push((name@, view_of(v)))[i] by {
        if i < pairs.len() {
            assert(pairs.push((name, v))[i] == pairs[i]);
        } else {
            assert(pairs.push((name, v))[i] == (name, v));
        }
    }
    assert(views_of_pairs(pairs.push((name, v))) =~= views_of_pairs(pairs).push((
        name@,
        view_of(v),
    )));
}


/// Removing an entry removes its view.
pub proof fn lemma_views_of_pairs_remove(pairs: Seq<(String, Value)>, i: int)
    requires
        0 <= i < pairs.len(),
    ensures
        views_of_pairs(pairs.remove(i)) == views_of_pairs(pairs).remove(i),
{
    lemma_views_of_pairs(pairs);
    lemma_views_of_pairs(pairs.remove(i));
    assert forall|j: int|
        0 <= j < pairs.len() - 1 implies #[trigger] views_of_pairs(pairs.remove(i))[j]
        == views_of_pairs(pairs).remove(i)[j] by {
        if j < i {
            assert(pairs.remove(i)[j] == pairs[j]);
        } else {
            assert(pairs.remove(i)[j] == pairs[j + 1]);
        }
    }
    assert(views_of_pairs(pairs.remove(i)) =~= views_of_pairs(pairs).remove(i));
}


/// Appending a well-formed element keeps the sequence well-formed.
pub proof fn lemma_items_wf_push(items: Seq<ValueView>, w: ValueView)
    requires
        items_wf(items),
        vari_wf(w),
    ensures
        items_wf(items.push(w)),
{
    lemma_items_wf(items);
    lemma_items_wf(items.push(w));
    assert forall|i: int| 0 <= i < items.len() + 1 implies vari_wf(#[trigger] items.push(w)[i]) by {
        if i < items.len() {
            assert(items.push(w)[i] == items[i]);
        } else {
            assert(items.push(w)[i] == w);
        }
    }
}

} // verus!
