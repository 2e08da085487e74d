//! The value-interchange codec: executable encoding and decoding of
//! `Value` records, proved against `spec_encode`.
//!
//! A record is tokenized by splitting on the `:` delimiter; `split_fields`
//! states that tokenization, and the decoder's contract is given in terms
//! of it.

use vstd::prelude::*;

use crate::encoding::{
    b64_decode,
    b64_encode,
    from_utf8_lossy,
    lemma_b64_chars,
    lemma_b64_geq,
    spec_b64,
    string_from_chars,
    utf8_lossy,
};
use crate::numtext::{
    all_digits,
    digits_val,
    find_first,
    i64_text_ok,
    i64_text_val,
    is_digit,
    lemma_int_text_chars,
    lemma_int_text_parse,
    lemma_nat_text_parse,
    u64_text_ok,
    u64_text_val,
    i64_to_string,
    int_text,
    is_float_text,
    lemma_find_first_unique,
    lemma_nat_text_val,
    nat_text,
    parse_i64,
    parse_u64,
    u64_to_string,
    valid_float_text,
};
use crate::value::{
    encode_items,
    encode_pairs,
    items_wf,
    keys_unique,
    lemma_array_wf,
    lemma_items_wf,
    lemma_pairs_wf,
    lemma_struct_wf,
    lemma_views_of_items,
    lemma_views_of_items_push,
    lemma_views_of_pairs,
    lemma_views_of_pairs_push,
    lemma_views_of_pairs_remove,
    pairs_wf,
    spec_encode,
    vari_wf,
    view_of,
    views_of_items,
    views_of_pairs,
    Value,
    ValueView,
};
use vstd::utf8::{decode_utf8, encode_utf8, valid_utf8};

verus! {

/// The `:`-separated fields of a record; a record always has at least one
/// field, and an empty record has exactly one empty field.
pub open spec fn split_fields(s: Seq<char>) -> Seq<Seq<char>>
    decreases s.len(),
{
    let k = find_first(s, ':');
    if k == s.len() {
        seq![s]
    } else {
        proof {
            crate::numtext::lemma_find_first(s, ':');
        }
        seq![s.take(k)] + split_fields(s.skip(k + 1))
    }
}

/// Text without the delimiter is a single field.
pub proof fn lemma_split_single(s: Seq<char>)
    requires
        forall|i: int| 0 <= i < s.len() ==> s[i] != ':',
    ensures
        split_fields(s) == seq![s],
{
    lemma_find_first_unique(s, ':', s.len() as int);
}

/// Splitting after a delimiter-free head: the head is the first field, and
/// the rest splits on its own.
pub proof fn lemma_split_prepend(a: Seq<char>, b: Seq<char>)
    requires
        forall|i: int| 0 <= i < a.len() ==> a[i] != ':',
    ensures
        split_fields(a + seq![':'] + b) == seq![a] + split_fields(b),
{
    let s = a + seq![':'] + b;
    assert forall|i: int| 0 <= i < a.len() implies s[i] != ':' by {
        assert(s[i] == a[i]);
    }
    assert(s[a.len() as int] == ':');
    lemma_find_first_unique(s, ':', a.len() as int);
    assert(s.take(a.len() as int) =~= a);
    assert(s.skip(a.len() as int + 1) =~= b);
}

/// Every field fits in what remains of the record after the fields and
/// delimiters before it.
pub proof fn lemma_split_field_len(s: Seq<char>, j: int)
    requires
        0 <= j < split_fields(s).len(),
    ensures
        split_fields(s)[j].len() + j <= s.len(),
    decreases s.len(),
{
    let k = find_first(s, ':');
    crate::numtext::lemma_find_first(s, ':');
    if k == s.len() {
    } else {
        if j == 0 {
        } else {
            lemma_split_field_len(s.skip(k + 1), j - 1);
        }
    }
}

/// Copies a range of characters out of a record.
fn subvec(cs: &Vec<char>, from: usize, to: usize) -> (r: Vec<char>)
    requires
        from <= to <= cs@.len(),
    ensures
        r@ == cs@.subrange(from as int, to as int),
{
    let mut out: Vec<char> = Vec::new();
    let mut i: usize = from;
    while i < to
        invariant
            from <= i <= to <= cs@.len(),
            out@ == cs@.subrange(from as int, i as int),
        decreases to - i,
    {
        out.push(cs[i]);
        proof {
            assert(cs@.subrange(from as int, i + 1) =~= cs@.subrange(from as int, i as int).push(
                cs@[i as int],
            ));
        }
        i = i + 1;
    }
    out
}

/// The characters of a string, in order.
pub fn to_chars(s: &str) -> (r: Vec<char>)
    ensures
        r@ == s@,
{
    let n = s.unicode_len();
    let mut out: Vec<char> = Vec::new();
    let mut i: usize = 0;
    while i < n
        invariant
            i <= n,
            n == s@.len(),
            out@ == s@.take(i as int),
        decreases n - i,
    {
        let c = s.get_char(i);
        out.push(c);
        proof {
            assert(s@.take(i + 1) =~= s@.take(i as int).push(s@[i as int]));
        }
        i = i + 1;
    }
    proof {
        assert(s@.take(n as int) =~= s@);
    }
    out
}

/// The views of a list of fields.
pub open spec fn field_views(fs: Seq<Vec<char>>) -> Seq<Seq<char>> {
    fs.map_values(|f: Vec<char>| f@)
}

/// Splits a record into its `:`-separated fields.
fn split(cs: &Vec<char>) -> (r: Vec<Vec<char>>)
    ensures
        field_views(r@) == split_fields(cs@),
        r@.len() >= 1,
{
    let mut out: Vec<Vec<char>> = Vec::new();
    let mut p: usize = 0;
    let mut done = false;
    proof {
        assert(cs@.skip(0) =~= cs@);
        assert(field_views(out@) + split_fields(cs@) =~= split_fields(cs@));
    }
    while !done
        invariant
            p <= cs@.len(),
            !done ==> field_views(out@) + split_fields(cs@.skip(p as int)) == split_fields(cs@),
            done ==> field_views(out@) == split_fields(cs@),
            done ==> out@.len() >= 1,
        decreases (cs@.len() - p) * 2 + (if done {
            0int
        } else {
            1int
        }),
    {
        let ghost suffix = cs@.skip(p as int);
        let mut q: usize = p;
        while q < cs.len() && cs[q] != ':'
            invariant
                p <= q <= cs@.len(),
                suffix == cs@.skip(p as int),
                forall|j: int| 0 <= j < q - p ==> suffix[j] != ':',
            decreases cs@.len() - q,
        {
            assert(suffix[q - p] == cs@[q as int]);
            q = q + 1;
        }
        let piece = subvec(cs, p, q);
        proof {
            lemma_find_first_unique(suffix, ':', q - p);
            assert(piece@ =~= suffix.take(q - p));
        }
        out.push(piece);
        proof {
            assert(field_views(out@) =~= field_views(out@.drop_last()).push(piece@));
        }
        if q < cs.len() {
            proof {
                assert(suffix.skip(q - p + 1) =~= cs@.skip(q + 1));
                assert(field_views(out@) + split_fields(cs@.skip(q + 1)) =~= field_views(
                    out@.drop_last(),
                ) + split_fields(suffix));
            }
            p = q + 1;
        } else {
            proof {
                assert(suffix.take(q - p) =~= suffix);
                assert(split_fields(suffix) =~= seq![suffix]);
                assert(field_views(out@) =~= field_views(out@.drop_last()) + split_fields(suffix));
            }
            done = true;
        }
    }
    out
}


/// Extending the encoded tail of an array by one element appends that
/// element's field.
pub proof fn lemma_encode_items_snoc(items: Seq<ValueView>, j: int)
    requires
        0 <= j < items.len(),
    ensures
        encode_items(items.take(j + 1)) == encode_items(items.take(j)) + seq![':'] + spec_b64(
            encode_utf8(spec_encode(items[j])),
        ),
    decreases j,
{
    if j == 0 {
        assert(items.take(0) =~= Seq::<ValueView>::empty());
        assert(items.take(1).first() == items[0]);
        assert(items.take(1).drop_first() =~= Seq::<ValueView>::empty());
        assert(encode_items(items.take(1)) =~= encode_items(items.take(0)) + seq![':'] + spec_b64(
            encode_utf8(spec_encode(items[0])),
        ));
    } else {
        lemma_encode_items_snoc(items.drop_first(), j - 1);
        assert(items.take(j + 1).first() == items[0]);
        assert(items.take(j).first() == items[0]);
        assert(items.take(j + 1).drop_first() =~= items.drop_first().take(j));
        assert(items.take(j).drop_first() =~= items.drop_first().take(j - 1));
        assert(items.drop_first()[j - 1] == items[j]);
        assert(encode_items(items.take(j + 1)) =~= encode_items(items.take(j)) + seq![':']
            + spec_b64(encode_utf8(spec_encode(items[j]))));
    }
}

/// Extending the encoded tail of a struct by one entry appends that entry's
/// name field and value field.
pub proof fn lemma_encode_pairs_snoc(pairs: Seq<(Seq<char>, ValueView)>, j: int)
    requires
        0 <= j < pairs.len(),
    ensures
        encode_pairs(pairs.take(j + 1)) == encode_pairs(pairs.take(j)) + seq![':'] + spec_b64(
            encode_utf8(pairs[j].0),
        ) + seq![':'] + spec_b64(encode_utf8(spec_encode(pairs[j].1))),
    decreases j,
{
    if j == 0 {
        assert(pairs.take(0) =~= Seq::<(Seq<char>, ValueView)>::empty());
        assert(pairs.take(1).first() == pairs[0]);
        assert(pairs.take(1).drop_first() =~= Seq::<(Seq<char>, ValueView)>::empty());
        assert(encode_pairs(pairs.take(1)) =~= encode_pairs(pairs.take(0)) + seq![':'] + spec_b64(
            encode_utf8(pairs[0].0),
        ) + seq![':'] + spec_b64(encode_utf8(spec_encode(pairs[0].1))));
    } else {
        lemma_encode_pairs_snoc(pairs.drop_first(), j - 1);
        assert(pairs.take(j + 1).first() == pairs[0]);
        assert(pairs.take(j).first() == pairs[0]);
        assert(pairs.take(j + 1).drop_first() =~= pairs.drop_first().take(j));
        assert(pairs.take(j).drop_first() =~= pairs.drop_first().take(j - 1));
        assert(pairs.drop_first()[j - 1] == pairs[j]);
        assert(encode_pairs(pairs.take(j + 1)) =~= encode_pairs(pairs.take(j)) + seq![':']
            + spec_b64(encode_utf8(pairs[j].0)) + seq![':'] + spec_b64(
            encode_utf8(spec_encode(pairs[j].1)),
        ));
    }
}

/// Encodes a value as its wire record.
pub fn encode_vari(v: &Value) -> (r: String)
    requires
        vari_wf(v@),
    ensures
        r@ == spec_encode(v@),
    decreases *v,
{
    match v {
        Value::Null => {
            proof {
                reveal_strlit("!");
            }
            let r = "!".to_owned();
            proof {
                assert(r@ =~= spec_encode(v@));
            }
            r
        },
        Value::Int(i) => {
            proof {
                reveal_strlit("0:");
            }
            let mut s = "0:".to_owned();
            let t = i64_to_string(*i);
            s.append(t.as_str());
            proof {
                assert(s@ =~= spec_encode(v@));
            }
            s
        },
        Value::Float(t) => {
            proof {
                reveal_strlit("1:");
            }
            let mut s = "1:".to_owned();
            s.append(t.as_str());
            proof {
                assert(s@ =~= spec_encode(v@));
            }
            s
        },
        Value::Bool(b) => {
            proof {
                reveal_strlit("2:1");
                reveal_strlit("2:0");
            }
            let r = if *b {
                "2:1".to_owned()
            } else {
                "2:0".to_owned()
            };
            proof {
                assert(r@ =~= spec_encode(v@));
            }
            r
        },
        Value::String(st) => {
            proof {
                reveal_strlit("3:");
            }
            let mut s = "3:".to_owned();
            let f = b64_encode(st.as_str().as_bytes());
            s.append(f.as_str());
            proof {
                assert(s@ =~= spec_encode(v@));
            }
            s
        },
        Value::Buffer(bytes) => {
            proof {
                reveal_strlit("4:");
            }
            let mut s = "4:".to_owned();
            let f = b64_encode(bytes.as_slice());
            s.append(f.as_str());
            proof {
                assert(s@ =~= spec_encode(v@));
            }
            s
        },
        Value::Array(items) => {
            proof {
                assert(decreases_to!(*v => v->Array_0));
                assert(v->Array_0 == *items);
            }
            let r = encode_array(items);
            proof {
                assert(v@ == ValueView::Array(views_of_items(items@)));
            }
            r
        },
        Value::Struct(pairs) => {
            proof {
                assert(decreases_to!(*v => v->Struct_0));
                assert(v->Struct_0 == *pairs);
            }
            let r = encode_struct(pairs);
            proof {
                assert(v@ == ValueView::Struct(views_of_pairs(pairs@)));
            }
            r
        },
    }
}

/// Encodes the record of an array value.
pub(crate) fn encode_array(items: &Vec<Value>) -> (r: String)
    requires
        vari_wf(ValueView::Array(views_of_items(items@))),
    ensures
        r@ == spec_encode(ValueView::Array(views_of_items(items@))),
    decreases *items,
{
    let ghost ws = views_of_items(items@);
    proof {
        reveal_strlit("5:");
        lemma_views_of_items(items@);
        crate::value::lemma_array_wf(ws);
    }
    let mut s = "5:".to_owned();
    let count = u64_to_string(items.len() as u64);
    s.append(count.as_str());
    proof {
        assert(encode_items(ws.take(0)) =~= Seq::<char>::empty());
        assert(s@ =~= seq!['5', ':'] + nat_text(ws.len() as nat) + encode_items(ws.take(0)));
    }
    let mut j: usize = 0;
    while j < items.len()
        invariant
            j <= items@.len(),
            ws == views_of_items(items@),
            ws.len() == items@.len(),
            forall|i: int| 0 <= i < items@.len() ==> #[trigger] ws[i] == view_of(items@[i]),
            forall|i: int| 0 <= i < ws.len() ==> vari_wf(#[trigger] ws[i]),
            s@ == seq!['5', ':'] + nat_text(ws.len() as nat) + encode_items(ws.take(j as int)),
        decreases items@.len() - j,
    {
        proof {
            reveal_strlit(":");
            assert(vari_wf(ws[j as int]));
            assert(decreases_to!(*items => items@[j as int]));
        }
        s.append(":");
        let child = encode_vari(&items[j]);
        let f = b64_encode(child.as_str().as_bytes());
        s.append(f.as_str());
        proof {
            lemma_encode_items_snoc(ws, j as int);
            assert(s@ =~= seq!['5', ':'] + nat_text(ws.len() as nat) + encode_items(
                ws.take(j + 1),
            ));
        }
        j = j + 1;
    }
    proof {
        assert(ws.take(ws.len() as int) =~= ws);
    }
    s
}

/// Encodes the record of a struct value.
fn encode_struct(pairs: &Vec<(String, Value)>) -> (r: String)
    requires
        vari_wf(ValueView::Struct(views_of_pairs(pairs@))),
    ensures
        r@ == spec_encode(ValueView::Struct(views_of_pairs(pairs@))),
    decreases *pairs,
{
    let ghost ws = views_of_pairs(pairs@);
    proof {
        reveal_strlit("6:");
        lemma_views_of_pairs(pairs@);
        crate::value::lemma_struct_wf(ws);
    }
    let mut s = "6:".to_owned();
    let count = u64_to_string(pairs.len() as u64);
    s.append(count.as_str());
    proof {
        assert(encode_pairs(ws.take(0)) =~= Seq::<char>::empty());
        assert(s@ =~= seq!['6', ':'] + nat_text(ws.len() as nat) + encode_pairs(ws.take(0)));
    }
    let mut j: usize = 0;
    while j < pairs.len()
        invariant
            j <= pairs@.len(),
            ws == views_of_pairs(pairs@),
            ws.len() == pairs@.len(),
            forall|i: int| 0 <= i < pairs@.len() ==> #[trigger] ws[i] == ((
            pairs@[i].0@,
            view_of(pairs@[i].1),
            )),
            forall|i: int| 0 <= i < ws.len() ==> vari_wf((#[trigger] ws[i]).1),
            s@ == seq!['6', ':'] + nat_text(ws.len() as nat) + encode_pairs(ws.take(j as int)),
        decreases pairs@.len() - j,
    {
        proof {
            reveal_strlit(":");
            assert(vari_wf(ws[j as int].1));
            assert(decreases_to!(*pairs => pairs@[j as int]));
            assert(decreases_to!(pairs@[j as int] => pairs@[j as int].1));
        }
        s.append(":");
        let name_field = b64_encode(pairs[j].0.as_str().as_bytes());
        s.append(name_field.as_str());
        s.append(":");
        let child = encode_vari(&pairs[j].1);
        let f = b64_encode(child.as_str().as_bytes());
        s.append(f.as_str());
        proof {
            lemma_encode_pairs_snoc(ws, j as int);
            assert(ws[j as int].0 == pairs@[j as int].0@);
            assert(ws[j as int].1 == view_of(pairs@[j as int].1));
            assert(s@ =~= seq!['6', ':'] + nat_text(ws.len() as nat) + encode_pairs(
                ws.take(j + 1),
            ));
        }
        j = j + 1;
    }
    proof {
        assert(ws.take(ws.len() as int) =~= ws);
    }
    s
}


/// The first fields a record can begin with and be understood.
pub open spec fn recognized_tag(f: Seq<char>) -> bool {
    f == seq!['!'] || f == seq!['0'] || f == seq!['1'] || f == seq!['2'] || f == seq!['3'] || f
        == seq!['4'] || f == seq!['5'] || f == seq!['6']
}

/// The child fields of an array record, in order.
pub open spec fn item_fields(items: Seq<ValueView>) -> Seq<Seq<char>> {
    items.map_values(|it: ValueView| spec_b64(encode_utf8(spec_encode(it))))
}

/// The fields of a struct record's tail: a name field and a child field for
/// each entry, in order.
pub open spec fn pair_fields(pairs: Seq<(Seq<char>, ValueView)>) -> Seq<Seq<char>>
    decreases pairs,
{
    if pairs.len() == 0 {
        Seq::<Seq<char>>::empty()
    } else {
        seq![
            spec_b64(encode_utf8(pairs.first().0)),
            spec_b64(encode_utf8(spec_encode(pairs.first().1))),
        ] + pair_fields(pairs.drop_first())
    }
}

/// Where each entry's fields sit in a struct record's tail.
pub proof fn lemma_pair_fields(pairs: Seq<(Seq<char>, ValueView)>)
    ensures
        pair_fields(pairs).len() == 2 * pairs.len(),
        forall|k: int|
            0 <= k < pairs.len() ==> #[trigger] pair_fields(pairs)[2 * k] == spec_b64(
                encode_utf8(pairs[k].0),
            ) && pair_fields(pairs)[2 * k + 1] == spec_b64(encode_utf8(spec_encode(pairs[k].1))),
    decreases pairs,
{
    if pairs.len() > 0 {
        lemma_pair_fields(pairs.drop_first());
        assert forall|k: int|
            0 <= k < pairs.len() implies #[trigger] pair_fields(pairs)[2 * k] == spec_b64(
                encode_utf8(pairs[k].0),
            ) && pair_fields(pairs)[2 * k + 1] == spec_b64(
                encode_utf8(spec_encode(pairs[k].1)),
            ) by {
            if k > 0 {
                assert(pairs.drop_first()[k - 1] == pairs[k]);
                assert(pair_fields(pairs)[2 * k] == pair_fields(pairs.drop_first())[2 * (k - 1)]);
                assert(pair_fields(pairs)[2 * k + 1] == pair_fields(pairs.drop_first())[2 * (k - 1)
                    + 1]);
            }
        }
    }
}

/// A record has at most one more field than it has characters.
pub proof fn lemma_split_count(s: Seq<char>)
    ensures
        split_fields(s).len() <= s.len() + 1,
    decreases s.len(),
{
    let k = find_first(s, ':');
    crate::numtext::lemma_find_first(s, ':');
    if k != s.len() {
        lemma_split_count(s.skip(k + 1));
    }
}

/// A delimiter-free piece followed by an array tail splits into the piece
/// and the child fields.
pub proof fn lemma_split_piece_items(piece: Seq<char>, items: Seq<ValueView>)
    requires
        forall|i: int| 0 <= i < piece.len() ==> piece[i] != ':',
    ensures
        split_fields(piece + encode_items(items)) == seq![piece] + item_fields(items),
    decreases items.len(),
{
    if items.len() == 0 {
        assert(piece + encode_items(items) =~= piece);
        lemma_split_single(piece);
        assert(seq![piece] + item_fields(items) =~= seq![piece]);
    } else {
        let f0 = spec_b64(encode_utf8(spec_encode(items.first())));
        let rest = items.drop_first();
        lemma_b64_chars(encode_utf8(spec_encode(items.first())));
        assert(piece + encode_items(items) =~= piece + seq![':'] + (f0 + encode_items(rest)));
        lemma_split_prepend(piece, f0 + encode_items(rest));
        lemma_split_piece_items(f0, rest);
        assert forall|k: int|
            0 <= k < items.len() implies #[trigger] item_fields(items)[k] == (seq![f0]
                + item_fields(rest))[k] by {
            if k > 0 {
                assert(rest[k - 1] == items[k]);
            }
        }
        assert(item_fields(items) =~= seq![f0] + item_fields(rest));
        assert(split_fields(piece + encode_items(items)) =~= seq![piece] + item_fields(items));
    }
}

/// A delimiter-free piece followed by a struct tail splits into the piece
/// and the entry fields.
pub proof fn lemma_split_piece_pairs(piece: Seq<char>, pairs: Seq<(Seq<char>, ValueView)>)
    requires
        forall|i: int| 0 <= i < piece.len() ==> piece[i] != ':',
    ensures
        split_fields(piece + encode_pairs(pairs)) == seq![piece] + pair_fields(pairs),
    decreases pairs.len(),
{
    if pairs.len() == 0 {
        assert(piece + encode_pairs(pairs) =~= piece);
        lemma_split_single(piece);
        assert(seq![piece] + pair_fields(pairs) =~= seq![piece]);
    } else {
        let nf = spec_b64(encode_utf8(pairs.first().0));
        let cf = spec_b64(encode_utf8(spec_encode(pairs.first().1)));
        let rest = pairs.drop_first();
        lemma_b64_chars(encode_utf8(pairs.first().0));
        lemma_b64_chars(encode_utf8(spec_encode(pairs.first().1)));
        assert(piece + encode_pairs(pairs) =~= piece + seq![':'] + (nf + seq![':'] + (cf
            + encode_pairs(rest))));
        lemma_split_prepend(piece, nf + seq![':'] + (cf + encode_pairs(rest)));
        lemma_split_prepend(nf, cf + encode_pairs(rest));
        lemma_split_piece_pairs(cf, rest);
        assert(pair_fields(pairs) =~= seq![nf, cf] + pair_fields(rest));
        assert(split_fields(piece + encode_pairs(pairs)) =~= seq![piece] + pair_fields(pairs));
    }
}

/// The fields of each kind of record.
pub proof fn lemma_encode_fields(w: ValueView)
    requires
        vari_wf(w),
    ensures
        w is Null ==> split_fields(spec_encode(w)) == seq![seq!['!']],
        w matches ValueView::Int(i) ==> split_fields(spec_encode(w)) == seq![
            seq!['0'],
            int_text(i as int),
        ],
        w matches ValueView::Float(t) ==> split_fields(spec_encode(w)) == seq![seq!['1'], t],
        w matches ValueView::Bool(b) ==> split_fields(spec_encode(w)) == seq![seq!['2']] + seq![
            (if b {
                seq!['1']
            } else {
                seq!['0']
            }),
        ],
        w matches ValueView::String(s) ==> split_fields(spec_encode(w)) == seq![
            seq!['3'],
            spec_b64(encode_utf8(s)),
        ],
        w matches ValueView::Buffer(bs) ==> split_fields(spec_encode(w)) == seq![
            seq!['4'],
            spec_b64(bs),
        ],
        w matches ValueView::Array(items) ==> split_fields(spec_encode(w)) == seq![
            seq!['5'],
            nat_text(items.len()),
        ] + item_fields(items),
        w matches ValueView::Struct(pairs) ==> split_fields(spec_encode(w)) == seq![
            seq!['6'],
            nat_text(pairs.len()),
        ] + pair_fields(pairs),
{
    match w {
        ValueView::Null => {
            assert(':' as u32 == 58 && '!' as u32 == 33);
            lemma_split_single(seq!['!']);
        },
        ValueView::Int(i) => {
            crate::numtext::lemma_int_text_chars(i as int);
            assert(spec_encode(w) =~= seq!['0'] + seq![':'] + int_text(i as int));
            lemma_split_prepend(seq!['0'], int_text(i as int));
            lemma_split_single(int_text(i as int));
            assert(split_fields(spec_encode(w)) =~= seq![seq!['0'], int_text(i as int)]);
        },
        ValueView::Float(t) => {
            crate::numtext::lemma_float_text_chars(t);
            assert(spec_encode(w) =~= seq!['1'] + seq![':'] + t);
            lemma_split_prepend(seq!['1'], t);
            lemma_split_single(t);
            assert(split_fields(spec_encode(w)) =~= seq![seq!['1'], t]);
        },
        ValueView::Bool(b) => {
            let payload = if b {
                seq!['1']
            } else {
                seq!['0']
            };
            assert('0' as u32 == 48 && '1' as u32 == 49);
            assert(spec_encode(w) =~= seq!['2'] + seq![':'] + payload);
            lemma_split_prepend(seq!['2'], payload);
            lemma_split_single(payload);
            assert(split_fields(spec_encode(w)) =~= seq![seq!['2']] + seq![payload]);
        },
        ValueView::String(str_chars) => {
            lemma_b64_chars(encode_utf8(str_chars));
            assert(spec_encode(w) =~= seq!['3'] + seq![':'] + spec_b64(encode_utf8(str_chars)));
            lemma_split_prepend(seq!['3'], spec_b64(encode_utf8(str_chars)));
            lemma_split_single(spec_b64(encode_utf8(str_chars)));
            assert(split_fields(spec_encode(w)) =~= seq![
                seq!['3'],
                spec_b64(encode_utf8(str_chars)),
            ]);
        },
        ValueView::Buffer(bs) => {
            lemma_b64_chars(bs);
            assert(spec_encode(w) =~= seq!['4'] + seq![':'] + spec_b64(bs));
            lemma_split_prepend(seq!['4'], spec_b64(bs));
            lemma_split_single(spec_b64(bs));
            assert(split_fields(spec_encode(w)) =~= seq![seq!['4'], spec_b64(bs)]);
        },
        ValueView::Array(items) => {
            lemma_nat_text_val(items.len());
            assert(spec_encode(w) =~= seq!['5'] + seq![':'] + (nat_text(items.len())
                + encode_items(items)));
            lemma_split_prepend(seq!['5'], nat_text(items.len()) + encode_items(items));
            assert forall|i: int|
                0 <= i < nat_text(items.len()).len() implies nat_text(items.len())[i] != ':' by {
                assert(is_digit(nat_text(items.len())[i]));
                assert(':' as u32 == 58);
            }
            lemma_split_piece_items(nat_text(items.len()), items);
            assert(split_fields(spec_encode(w)) =~= seq![seq!['5'], nat_text(items.len())]
                + item_fields(items));
        },
        ValueView::Struct(pairs) => {
            lemma_nat_text_val(pairs.len());
            assert(spec_encode(w) =~= seq!['6'] + seq![':'] + (nat_text(pairs.len())
                + encode_pairs(pairs)));
            lemma_split_prepend(seq!['6'], nat_text(pairs.len()) + encode_pairs(pairs));
            assert forall|i: int|
                0 <= i < nat_text(pairs.len()).len() implies nat_text(pairs.len())[i] != ':' by {
                assert(is_digit(nat_text(pairs.len())[i]));
                assert(':' as u32 == 58);
            }
            lemma_split_piece_pairs(nat_text(pairs.len()), pairs);
            assert(split_fields(spec_encode(w)) =~= seq![seq!['6'], nat_text(pairs.len())]
                + pair_fields(pairs));
        },
    }
}


/// The index of the first entry named `name`, if any.
fn find_key(pairs: &Vec<(String, Value)>, name: &String) -> (r: Option<usize>)
    ensures
        r matches Some(i) ==> i < pairs@.len() && pairs@[i as int].0@ == name@ && (forall|j: int|
            0 <= j < i ==> (#[trigger] pairs@[j]).0@ != name@),
        r is None ==> forall|j: int|
            0 <= j < pairs@.len() ==> (#[trigger] pairs@[j]).0@ != name@,
{
    let mut i: usize = 0;
    while i < pairs.len()
        invariant
            i <= pairs@.len(),
            forall|j: int| 0 <= j < i ==> (#[trigger] pairs@[j]).0@ != name@,
        decreases pairs@.len() - i,
    {
        if pairs[i].0 == *name {
            return Some(i);
        }
        i = i + 1;
    }
    None
}

/// Binds `name` to `val`: replaces the entry with that name, or appends a
/// new one. Name uniqueness and well-formedness of the entries are
/// preserved; a new name is appended.
fn upsert(pairs: &mut Vec<(String, Value)>, name: String, val: Value)
    ensures
        (forall|j: int| 0 <= j < old(pairs)@.len() ==> (#[trigger] old(pairs)@[j]).0@ != name@)
            ==> final(pairs)@ == old(pairs)@.push((name, val)),
        keys_unique(views_of_pairs(old(pairs)@)) ==> keys_unique(views_of_pairs(final(pairs)@)),
        (pairs_wf(views_of_pairs(old(pairs)@)) && vari_wf(val@)) ==> pairs_wf(
            views_of_pairs(final(pairs)@),
        ),
{
    let ghost orig = pairs@;
    let ghost ovs = views_of_pairs(orig);
    proof {
        lemma_views_of_pairs(orig);
        lemma_pairs_wf(ovs);
    }
    match find_key(pairs, &name) {
        None => {
            pairs.push((name, val));
            proof {
                lemma_views_of_pairs_push(orig, name, val);
                let nvs = views_of_pairs(pairs@);
                lemma_pairs_wf(nvs);
                if keys_unique(ovs) {
                    assert forall|a: int, b: int|
                        0 <= a < b < nvs.len() implies (#[trigger] nvs[a]).0 != (
                    #[trigger] nvs[b]).0 by {
                        if b < ovs.len() {
                        } else {
                            assert(nvs[b] == (name@, view_of(val)));
                            assert(nvs[a] == ovs[a]);
                            assert(ovs[a].0 == orig[a].0@);
                        }
                    }
                }
                if pairs_wf(ovs) && vari_wf(val@) {
                    assert forall|a: int| 0 <= a < nvs.len() implies vari_wf(
                        (#[trigger] nvs[a]).1,
                    ) by {
                        if a < ovs.len() {
                            assert(nvs[a] == ovs[a]);
                        } else {
                            assert(nvs[a] == (name@, view_of(val)));
                        }
                    }
                }
            }
        },
        Some(i) => {
            pairs.remove(i);
            let ghost mid = pairs@;
            pairs.push((name, val));
            proof {
                lemma_views_of_pairs_remove(orig, i as int);
                lemma_views_of_pairs_push(mid, name, val);
                lemma_views_of_pairs(mid);
                let mvs = views_of_pairs(mid);
                let nvs = views_of_pairs(pairs@);
                lemma_pairs_wf(nvs);
                assert(mvs == ovs.remove(i as int));
                if keys_unique(ovs) {
                    assert forall|a: int, b: int|
                        0 <= a < b < nvs.len() implies (#[trigger] nvs[a]).0 != (
                    #[trigger] nvs[b]).0 by {
                        if b < mvs.len() {
                            assert(nvs[a] == mvs[a] && nvs[b] == mvs[b]);
                            if a < i && b < i {
                                assert(mvs[a] == ovs[a] && mvs[b] == ovs[b]);
                            } else if a < i {
                                assert(mvs[a] == ovs[a] && mvs[b] == ovs[b + 1]);
                            } else {
                                assert(mvs[a] == ovs[a + 1] && mvs[b] == ovs[b + 1]);
                            }
                        } else {
                            assert(nvs[b] == (name@, view_of(val)));
                            assert(nvs[a] == mvs[a]);
                            assert(ovs[i as int].0 == name@);
                            if a < i {
                                assert(mvs[a] == ovs[a]);
                            } else {
                                assert(mvs[a] == ovs[a + 1]);
                            }
                        }
                    }
                }
                if pairs_wf(ovs) && vari_wf(val@) {
                    assert forall|a: int| 0 <= a < nvs.len() implies vari_wf(
                        (#[trigger] nvs[a]).1,
                    ) by {
                        if a < mvs.len() {
                            assert(nvs[a] == mvs[a]);
                            if a < i {
                                assert(mvs[a] == ovs[a]);
                            } else {
                                assert(mvs[a] == ovs[a + 1]);
                            }
                        } else {
                            assert(nvs[a] == (name@, view_of(val)));
                        }
                    }
                }
            }
        },
    }
}


/// The hypothesis that the child fields of `fs` carry the records of the
/// well-formed elements `ws`.
pub open spec fn child_match(fs: Seq<Seq<char>>, ws: Seq<ValueView>) -> bool {
    &&& 2 + ws.len() <= fs.len()
    &&& forall|k: int| 0 <= k < ws.len() ==> vari_wf(#[trigger] ws[k])
    &&& forall|k: int|
        0 <= k < ws.len() ==> fs[2 + k] == spec_b64(encode_utf8(spec_encode(#[trigger] ws[k])))
}

/// The hypothesis that the entry fields of `fs` carry the names and records
/// of the well-formed entries `ws`.
pub open spec fn entry_match(fs: Seq<Seq<char>>, ws: Seq<(Seq<char>, ValueView)>) -> bool {
    &&& 2 + 2 * ws.len() <= fs.len()
    &&& keys_unique(ws)
    &&& forall|k: int| 0 <= k < ws.len() ==> vari_wf((#[trigger] ws[k]).1)
    &&& forall|k: int|
        0 <= k < ws.len() ==> fs[2 + 2 * k] == spec_b64(encode_utf8((#[trigger] ws[k]).0))
    &&& forall|k: int|
        0 <= k < ws.len() ==> fs[2 + 2 * k + 1] == spec_b64(
            encode_utf8(spec_encode((#[trigger] ws[k]).1)),
        )
}

/// Decodes one base64-escaped child record field.
fn decode_one_child(fields: &Vec<Vec<char>>, idx: usize, Ghost(bound): Ghost<int>) -> (r: Option<
    Value,
>)
    requires
        idx < fields@.len(),
        fields@[idx as int]@.len() < bound,
    ensures
        r matches Some(v) ==> vari_wf(v@),
        forall|w: ValueView|
            vari_wf(w) && fields@[idx as int]@ == spec_b64(encode_utf8(spec_encode(w))) ==> (
            r matches Some(v) && v@ == w),
    decreases bound, 0int,
{
    let field = &fields[idx];
    let bytes_opt = b64_decode(field);
    if bytes_opt.is_none() {
        proof {
            assert forall|w: ValueView|
                vari_wf(w) && fields@[idx as int]@ == spec_b64(
                    encode_utf8(spec_encode(w)),
                ) implies false by {
                assert(field@ == spec_b64(encode_utf8(spec_encode(w))));
            }
        }
        return None;
    }
    let bytes = bytes_opt.unwrap();
    let child_str = from_utf8_lossy(bytes.as_slice());
    let child_cs = to_chars(child_str.as_str());
    proof {
        lemma_b64_geq(bytes@);
        assert(field@ == spec_b64(bytes@));
        assert(child_cs@.len() < bound);
    }
    let cv_opt = decode_value(&child_cs);
    proof {
        assert forall|w: ValueView|
            vari_wf(w) && fields@[idx as int]@ == spec_b64(
                encode_utf8(spec_encode(w)),
            ) implies (cv_opt matches Some(v) && v@ == w) by {
            assert(field@ == spec_b64(encode_utf8(spec_encode(w))));
            assert(bytes@ == encode_utf8(spec_encode(w)));
            vstd::utf8::encode_utf8_valid_utf8(spec_encode(w));
            vstd::utf8::encode_utf8_decode_utf8(spec_encode(w));
            assert(child_cs@ == spec_encode(w));
        }
    }
    cv_opt
}

/// Decodes one base64-escaped name field.
fn decode_name(fields: &Vec<Vec<char>>, idx: usize) -> (r: Option<String>)
    requires
        idx < fields@.len(),
    ensures
        forall|nm: Seq<char>|
            fields@[idx as int]@ == spec_b64(encode_utf8(nm)) ==> (r matches Some(v) && v@ == nm),
{
    let field = &fields[idx];
    let bytes_opt = b64_decode(field);
    if bytes_opt.is_none() {
        proof {
            assert forall|nm: Seq<char>|
                fields@[idx as int]@ == spec_b64(encode_utf8(nm)) implies false by {
                assert(field@ == spec_b64(encode_utf8(nm)));
            }
        }
        return None;
    }
    let bytes = bytes_opt.unwrap();
    let name = from_utf8_lossy(bytes.as_slice());
    proof {
        assert forall|nm: Seq<char>|
            fields@[idx as int]@ == spec_b64(encode_utf8(nm)) implies name@ == nm by {
            assert(field@ == spec_b64(encode_utf8(nm)));
            assert(bytes@ == encode_utf8(nm));
            vstd::utf8::encode_utf8_valid_utf8(nm);
            vstd::utf8::encode_utf8_decode_utf8(nm);
        }
    }
    Some(name)
}

/// One decoded child extends the recovered prefix.
proof fn lemma_children_step(
    fs: Seq<Seq<char>>,
    n: int,
    k: int,
    prev: Seq<ValueView>,
    cv: ValueView,
)
    requires
        0 <= k < n,
        forall|ws: Seq<ValueView>|
            ws.len() == n && child_match(fs, ws) ==> prev == ws.take(k),
        forall|w: ValueView|
            vari_wf(w) && fs[2 + k] == spec_b64(encode_utf8(spec_encode(w))) ==> cv == w,
    ensures
        forall|ws: Seq<ValueView>|
            ws.len() == n && child_match(fs, ws) ==> prev.push(cv) == ws.take(k + 1),
{
    assert forall|ws: Seq<ValueView>|
        ws.len() == n && child_match(fs, ws) implies prev.push(cv) == ws.take(k + 1) by {
        assert(fs[2 + k] == spec_b64(encode_utf8(spec_encode(ws[k]))));
        assert(vari_wf(ws[k]));
        assert(cv == ws[k]);
        assert(prev == ws.take(k));
        assert(ws.take(k + 1) =~= ws.take(k).push(ws[k]));
    }
}

/// What the record of an array value looks like, all in one place.
proof fn lemma_array_record(csv: Seq<char>, w: ValueView)
    requires
        vari_wf(w),
        w is Array,
        csv == spec_encode(w),
        csv.len() <= usize::MAX,
    ensures
        split_fields(csv).len() == 2 + w->Array_0.len(),
        split_fields(csv)[0] == seq!['5'],
        split_fields(csv)[1] == nat_text(w->Array_0.len()),
        w->Array_0.len() <= u64::MAX,
        u64_text_ok(nat_text(w->Array_0.len())),
        u64_text_val(nat_text(w->Array_0.len())) == w->Array_0.len(),
        child_match(split_fields(csv), w->Array_0),
{
    let items = w->Array_0;
    let fs = split_fields(csv);
    lemma_encode_fields(w);
    lemma_items_wf(items);
    lemma_count_parses(csv, items.len());
    assert forall|k: int|
        0 <= k < items.len() implies fs[2 + k] == spec_b64(
            encode_utf8(spec_encode(#[trigger] items[k])),
        ) by {
        assert(item_fields(items)[k] == spec_b64(encode_utf8(spec_encode(items[k]))));
        assert(fs[2 + k] == item_fields(items)[k]);
    }
}

/// What the record of a struct value looks like, all in one place.
proof fn lemma_struct_record(csv: Seq<char>, w: ValueView)
    requires
        vari_wf(w),
        w is Struct,
        csv == spec_encode(w),
        csv.len() <= usize::MAX,
    ensures
        split_fields(csv).len() == 2 + 2 * w->Struct_0.len(),
        split_fields(csv)[0] == seq!['6'],
        split_fields(csv)[1] == nat_text(w->Struct_0.len()),
        w->Struct_0.len() <= u64::MAX,
        u64_text_ok(nat_text(w->Struct_0.len())),
        u64_text_val(nat_text(w->Struct_0.len())) == w->Struct_0.len(),
        entry_match(split_fields(csv), w->Struct_0),
{
    let pairs = w->Struct_0;
    let fs = split_fields(csv);
    lemma_encode_fields(w);
    lemma_struct_wf(pairs);
    lemma_pairs_wf(pairs);
    lemma_pair_fields(pairs);
    assert(fs.len() == 2 + pair_fields(pairs).len());
    lemma_count_parses(csv, pairs.len());
    assert forall|k: int|
        0 <= k < pairs.len() implies fs[2 + 2 * k] == spec_b64(
            encode_utf8((#[trigger] pairs[k]).0),
        ) && fs[2 + 2 * k + 1] == spec_b64(encode_utf8(spec_encode(pairs[k].1))) by {
        assert(pair_fields(pairs)[2 * k] == spec_b64(encode_utf8(pairs[k].0)));
        assert(pair_fields(pairs)[2 * k + 1] == spec_b64(encode_utf8(spec_encode(pairs[k].1))));
        assert(fs[2 + 2 * k] == pair_fields(pairs)[2 * k]);
        assert(fs[2 + 2 * k + 1] == pair_fields(pairs)[2 * k + 1]);
    }
}

/// Decodes the child fields of an array record.
#[verifier::rlimit(100)]
fn decode_children(fields: &Vec<Vec<char>>, n: usize, Ghost(bound): Ghost<int>) -> (r: Option<
    Vec<Value>,
>)
    requires
        2 + n <= fields@.len(),
        forall|k: int| 0 <= k < n ==> (#[trigger] fields@[2 + k])@.len() < bound,
    ensures
        r matches Some(out) ==> out@.len() == n && items_wf(views_of_items(out@)),
        forall|ws: Seq<ValueView>|
            ws.len() == n && child_match(field_views(fields@), ws) ==> (r matches Some(out)
                && views_of_items(out@) == ws),
    decreases bound, 1int,
{
    let ghost fs = field_views(fields@);
    proof {
        assert(fields.len() == fields@.len());
        assert(field_views(fields@).len() == fields@.len());
        assert forall|i: int| 0 <= i < fields@.len() implies #[trigger] fs[i] == fields@[i]@ by {
            assert(field_views(fields@)[i] == fields@[i]@);
        }
    }
    let mut out: Vec<Value> = Vec::new();
    proof {
        assert forall|ws: Seq<ValueView>|
            ws.len() == n && child_match(fs, ws) implies views_of_items(out@) == ws.take(
            0,
        ) by {
            assert(views_of_items(out@) =~= ws.take(0));
        }
    }
    let mut k: usize = 0;
    while k < n
        invariant
            k <= n,
            2 + n <= fields@.len(),
            fields@.len() <= usize::MAX,
            forall|j: int| 0 <= j < n ==> (#[trigger] fields@[2 + j])@.len() < bound,
            fs == field_views(fields@),
            out@.len() == k,
            items_wf(views_of_items(out@)),
            forall|ws: Seq<ValueView>|
                ws.len() == n && child_match(fs, ws) ==> views_of_items(out@) == ws.take(k as int),
        decreases n - k,
    {
        proof {
            assert(fs[2 + k as int] == fields@[2 + k as int]@) by {
                assert(field_views(fields@)[2 + k as int] == fields@[2 + k as int]@);
            }
        }
        let cv_opt = decode_one_child(fields, 2 + k, Ghost(bound));
        if cv_opt.is_none() {
            proof {
                assert forall|ws: Seq<ValueView>|
                    ws.len() == n && child_match(fs, ws) implies false by {
                    assert(fs[2 + k as int] == spec_b64(encode_utf8(spec_encode(ws[k as int]))));
                    assert(vari_wf(ws[k as int]));
                }
            }
            return None;
        }
        let cv = cv_opt.unwrap();
        let ghost out_old = out@;
        out.push(cv);
        proof {
            lemma_views_of_items_push(out_old, cv);
            crate::value::lemma_items_wf_push(views_of_items(out_old), view_of(cv));
            lemma_children_step(fs, n as int, k as int, views_of_items(out_old), view_of(cv));
        }
        k = k + 1;
    }
    proof {
        assert forall|ws: Seq<ValueView>|
            ws.len() == n && child_match(fs, ws) implies views_of_items(out@) == ws by {
            assert(ws.take(n as int) =~= ws);
        }
    }
    Some(out)
}

/// Decodes the entry fields of a struct record.
#[verifier::rlimit(100)]
fn decode_entries(fields: &Vec<Vec<char>>, n: usize, Ghost(bound): Ghost<int>) -> (r: Option<
    Vec<(String, Value)>,
>)
    requires
        2 + 2 * n <= fields@.len(),
        forall|k: int| 0 <= k < n ==> (#[trigger] fields@[2 + 2 * k + 1])@.len() < bound,
    ensures
        r matches Some(out) ==> pairs_wf(views_of_pairs(out@)) && keys_unique(
            views_of_pairs(out@),
        ),
        forall|ws: Seq<(Seq<char>, ValueView)>|
            ws.len() == n && entry_match(field_views(fields@), ws) ==> (r matches Some(out)
                && views_of_pairs(out@) == ws),
    decreases bound, 1int,
{
    let ghost fs = field_views(fields@);
    proof {
        assert(fields.len() == fields@.len());
        assert(field_views(fields@).len() == fields@.len());
        assert forall|i: int| 0 <= i < fields@.len() implies #[trigger] fs[i] == fields@[i]@ by {
            assert(field_views(fields@)[i] == fields@[i]@);
        }
    }
    let mut out: Vec<(String, Value)> = Vec::new();
    proof {
        lemma_views_of_pairs(out@);
        lemma_pairs_wf(views_of_pairs(out@));
        assert forall|ws: Seq<(Seq<char>, ValueView)>|
            ws.len() == n && entry_match(fs, ws) implies views_of_pairs(out@) == ws.take(0) by {
            assert(views_of_pairs(out@) =~= ws.take(0));
        }
    }
    let mut k: usize = 0;
    while k < n
        invariant
            k <= n,
            2 + 2 * n <= fields@.len(),
            fields@.len() <= usize::MAX,
            forall|j: int| 0 <= j < n ==> (#[trigger] fields@[2 + 2 * j + 1])@.len() < bound,
            fs == field_views(fields@),
            pairs_wf(views_of_pairs(out@)),
            keys_unique(views_of_pairs(out@)),
            forall|ws: Seq<(Seq<char>, ValueView)>|
                ws.len() == n && entry_match(fs, ws) ==> views_of_pairs(out@) == ws.take(k as int),
        decreases n - k,
    {
        proof {
            assert(fs[2 + 2 * (k as int)] == fields@[2 + 2 * (k as int)]@) by {
                assert(field_views(fields@)[2 + 2 * (k as int)] == fields@[2 + 2 * (k as int)]@);
            }
            assert(fs[2 + 2 * (k as int) + 1] == fields@[2 + 2 * (k as int) + 1]@) by {
                assert(field_views(fields@)[2 + 2 * (k as int) + 1] == fields@[2 + 2 * (k as int)
                    + 1]@);
            }
        }
        let name_opt = decode_name(fields, 2 + 2 * k);
        if name_opt.is_none() {
            proof {
                assert forall|ws: Seq<(Seq<char>, ValueView)>|
                    ws.len() == n && entry_match(fs, ws) implies false by {
                    assert(fs[2 + 2 * (k as int)] == spec_b64(encode_utf8(ws[k as int].0)));
                }
            }
            return None;
        }
        let name_str = name_opt.unwrap();
        let cv_opt = decode_one_child(fields, 2 + 2 * k + 1, Ghost(bound));
        if cv_opt.is_none() {
            proof {
                assert forall|ws: Seq<(Seq<char>, ValueView)>|
                    ws.len() == n && entry_match(fs, ws) implies false by {
                    assert(fs[2 + 2 * (k as int) + 1] == spec_b64(
                        encode_utf8(spec_encode(ws[k as int].1)),
                    ));
                    assert(vari_wf(ws[k as int].1));
                }
            }
            return None;
        }
        let cv = cv_opt.unwrap();
        let ghost out_old = out@;
        upsert(&mut out, name_str, cv);
        proof {
            lemma_views_of_pairs(out_old);
            assert forall|ws: Seq<(Seq<char>, ValueView)>|
                ws.len() == n && entry_match(fs, ws) implies views_of_pairs(out@) == ws.take(
                k + 1,
            ) by {
                assert(views_of_pairs(out_old) == ws.take(k as int));
                assert(fs[2 + 2 * (k as int)] == spec_b64(encode_utf8(ws[k as int].0)));
                assert(name_str@ == ws[k as int].0);
                assert(fs[2 + 2 * (k as int) + 1] == spec_b64(
                    encode_utf8(spec_encode(ws[k as int].1)),
                ));
                assert(vari_wf(ws[k as int].1));
                assert(view_of(cv) == ws[k as int].1);
                assert forall|j: int|
                    0 <= j < out_old.len() implies (#[trigger] out_old[j]).0@ != name_str@ by {
                    assert(views_of_pairs(out_old)[j] == ((out_old[j].0@, view_of(out_old[j].1))));
                    assert(views_of_pairs(out_old)[j].0 == ws[j].0);
                    assert(ws[j].0 != ws[k as int].0);
                }
                assert(out@ == out_old.push((name_str, cv)));
                lemma_views_of_pairs_push(out_old, name_str, cv);
                assert(ws[k as int] == ((ws[k as int].0, ws[k as int].1)));
                assert(ws.take(k + 1) =~= ws.take(k as int).push(ws[k as int]));
            }
        }
        k = k + 1;
    }
    proof {
        assert forall|ws: Seq<(Seq<char>, ValueView)>|
            ws.len() == n && entry_match(fs, ws) implies views_of_pairs(out@) == ws by {
            assert(ws.take(n as int) =~= ws);
        }
    }
    Some(out)
}

/// The single characters each known tag field holds.
proof fn lemma_tag_chars()
    ensures
        seq!['!'].len() == 1 && seq!['!'][0] == '!',
        seq!['0'].len() == 1 && seq!['0'][0] == '0',
        seq!['1'].len() == 1 && seq!['1'][0] == '1',
        seq!['2'].len() == 1 && seq!['2'][0] == '2',
        seq!['3'].len() == 1 && seq!['3'][0] == '3',
        seq!['4'].len() == 1 && seq!['4'][0] == '4',
        seq!['5'].len() == 1 && seq!['5'][0] == '5',
        seq!['6'].len() == 1 && seq!['6'][0] == '6',
{
}

/// What decoding promises for each leading tag: a record whose first field
/// is not a known tag decodes to `Null`, and for scalar records the
/// outcome is given exactly by the first two fields.
#[verifier::opaque]
pub open spec fn decode_tag_post(s: Seq<char>, r: Option<Value>) -> bool {
    let fields = split_fields(s);
    &&& (!recognized_tag(fields[0]) ==> (r matches Some(v) && v@ == ValueView::Null))
    &&& (fields[0] == seq!['!'] ==> (r matches Some(v) && v@ == ValueView::Null))
    &&& (fields[0] == seq!['0'] ==> (if fields.len() >= 2 && i64_text_ok(fields[1]) {
        r matches Some(v) && v@ == ValueView::Int(i64_text_val(fields[1]) as i64)
    } else {
        r is None
    }))
    &&& (fields[0] == seq!['1'] ==> (if fields.len() >= 2 && valid_float_text(fields[1]) {
        r matches Some(v) && v@ == ValueView::Float(fields[1])
    } else {
        r is None
    }))
    &&& (fields[0] == seq!['2'] ==> (if fields.len() >= 2 && i64_text_ok(fields[1]) {
        r matches Some(v) && v@ == ValueView::Bool(i64_text_val(fields[1]) != 0)
    } else {
        r is None
    }))
    &&& (fields[0] == seq!['3'] ==> (if fields.len() >= 2 && crate::encoding::is_b64_text(
        fields[1],
    ) {
        r matches Some(v) && v@ == ValueView::String(
            utf8_lossy(crate::encoding::b64_bytes_of(fields[1])),
        )
    } else {
        r is None
    }))
    &&& (fields[0] == seq!['4'] ==> (if fields.len() >= 2 && crate::encoding::is_b64_text(
        fields[1],
    ) {
        r matches Some(v) && v@ == ValueView::Buffer(crate::encoding::b64_bytes_of(fields[1]))
    } else {
        r is None
    }))
}

/// Handles a record tagged as an integer.
#[verifier::rlimit(100)]
fn decode_tag_int(fields: &Vec<Vec<char>>, Ghost(csv): Ghost<Seq<char>>) -> (r: Option<Value>)
    requires
        field_views(fields@) == split_fields(csv),
        fields@.len() >= 1,
        split_fields(csv)[0] == seq!['0'],
    ensures
        r matches Some(v) ==> vari_wf(v@),
        forall|w: ValueView| vari_wf(w) && csv == spec_encode(w) ==> (r matches Some(v) && v@ == w),
        decode_tag_post(csv, r),
{
    let ghost fs = split_fields(csv);
    proof {
        lemma_tag_chars();
        reveal(decode_tag_post);
        assert(field_views(fields@).len() == fields@.len());
        assert forall|i: int| 0 <= i < fields@.len() implies #[trigger] fields@[i]@ == fs[i] by {
            assert(field_views(fields@)[i] == fields@[i]@);
        }
    }
    if fields.len() < 2 {
        proof {
            assert forall|w: ValueView| vari_wf(w) && csv == spec_encode(w) implies false by {
                lemma_encode_fields(w);
            }
        }
        return None;
    }
    match parse_i64(&fields[1]) {
        Some(x) => {
            let r = Some(Value::Int(x));
            proof {
                assert forall|w: ValueView|
                    vari_wf(w) && csv == spec_encode(w) implies (r matches Some(v) && v@ == w) by {
                    lemma_encode_fields(w);
                    assert(w matches ValueView::Int(i) && fs[1] == int_text(i as int));
                    lemma_int_text_parse(w->Int_0);
                }
            }
            r
        },
        None => {
            proof {
                assert forall|w: ValueView| vari_wf(w) && csv == spec_encode(w) implies false by {
                    lemma_encode_fields(w);
                    assert(w matches ValueView::Int(i) && fs[1] == int_text(i as int));
                    lemma_int_text_parse(w->Int_0);
                }
            }
            None
        },
    }
}

/// Handles a record tagged as a floating-point number.
#[verifier::rlimit(100)]
fn decode_tag_float(fields: &Vec<Vec<char>>, Ghost(csv): Ghost<Seq<char>>) -> (r: Option<Value>)
    requires
        field_views(fields@) == split_fields(csv),
        fields@.len() >= 1,
        split_fields(csv)[0] == seq!['1'],
    ensures
        r matches Some(v) ==> vari_wf(v@),
        forall|w: ValueView| vari_wf(w) && csv == spec_encode(w) ==> (r matches Some(v) && v@ == w),
        decode_tag_post(csv, r),
{
    let ghost fs = split_fields(csv);
    proof {
        lemma_tag_chars();
        reveal(decode_tag_post);
        assert(field_views(fields@).len() == fields@.len());
        assert forall|i: int| 0 <= i < fields@.len() implies #[trigger] fields@[i]@ == fs[i] by {
            assert(field_views(fields@)[i] == fields@[i]@);
        }
    }
    if fields.len() < 2 {
        proof {
            assert forall|w: ValueView| vari_wf(w) && csv == spec_encode(w) implies false by {
                lemma_encode_fields(w);
            }
        }
        return None;
    }
    if is_float_text(&fields[1]) {
        let text = string_from_chars(&fields[1]);
        let r = Some(Value::Float(text));
        proof {
            assert forall|w: ValueView|
                vari_wf(w) && csv == spec_encode(w) implies (r matches Some(v) && v@ == w) by {
                lemma_encode_fields(w);
                assert(w matches ValueView::Float(t) && fs[1] == t);
            }
        }
        r
    } else {
        proof {
            assert forall|w: ValueView| vari_wf(w) && csv == spec_encode(w) implies false by {
                lemma_encode_fields(w);
                assert(w matches ValueView::Float(t) && fs[1] == t);
            }
        }
        None
    }
}

/// Handles a record tagged as a boolean.
#[verifier::rlimit(100)]
fn decode_tag_bool(fields: &Vec<Vec<char>>, Ghost(csv): Ghost<Seq<char>>) -> (r: Option<Value>)
    requires
        field_views(fields@) == split_fields(csv),
        fields@.len() >= 1,
        split_fields(csv)[0] == seq!['2'],
    ensures
        r matches Some(v) ==> vari_wf(v@),
        forall|w: ValueView| vari_wf(w) && csv == spec_encode(w) ==> (r matches Some(v) && v@ == w),
        decode_tag_post(csv, r),
{
    let ghost fs = split_fields(csv);
    proof {
        lemma_tag_chars();
        reveal(decode_tag_post);
        assert(field_views(fields@).len() == fields@.len());
        assert forall|i: int| 0 <= i < fields@.len() implies #[trigger] fields@[i]@ == fs[i] by {
            assert(field_views(fields@)[i] == fields@[i]@);
        }
    }
    if fields.len() < 2 {
        proof {
            assert forall|w: ValueView| vari_wf(w) && csv == spec_encode(w) implies false by {
                lemma_encode_fields(w);
            }
        }
        return None;
    }
    match parse_i64(&fields[1]) {
        Some(x) => {
            let r = Some(Value::Bool(x != 0));
            proof {
                assert forall|w: ValueView|
                    vari_wf(w) && csv == spec_encode(w) implies (r matches Some(v) && v@ == w) by {
                    lemma_encode_fields(w);
                    assert(w matches ValueView::Bool(b));
                    lemma_bool_payload_parses(w->Bool_0);
                }
            }
            r
        },
        None => {
            proof {
                assert forall|w: ValueView| vari_wf(w) && csv == spec_encode(w) implies false by {
                    lemma_encode_fields(w);
                    assert(w matches ValueView::Bool(b));
                    lemma_bool_payload_parses(w->Bool_0);
                }
            }
            None
        },
    }
}

/// The boolean payload digits parse as zero and one.
proof fn lemma_bool_payload_parses(b: bool)
    ensures
        i64_text_ok(
            if b {
                seq!['1']
            } else {
                seq!['0']
            },
        ),
        i64_text_val(
            if b {
                seq!['1']
            } else {
                seq!['0']
            },
        ) == (if b {
            1int
        } else {
            0int
        }),
{
    let payload = if b {
        seq!['1']
    } else {
        seq!['0']
    };
    assert('0' as u32 == 48 && '1' as u32 == 49 && '+' as u32 == 43 && '-' as u32 == 45);
    assert(crate::numtext::int_body(payload) == payload);
    assert(crate::numtext::is_digit(payload[0]));
    assert(payload.drop_last() =~= Seq::<char>::empty());
    assert(digits_val(Seq::<char>::empty()) == 0);
    assert(digits_val(payload) == (if b {
        1int
    } else {
        0int
    }));
}

/// Handles a record tagged as text.
#[verifier::rlimit(100)]
fn decode_tag_string(fields: &Vec<Vec<char>>, Ghost(csv): Ghost<Seq<char>>) -> (r: Option<Value>)
    requires
        field_views(fields@) == split_fields(csv),
        fields@.len() >= 1,
        split_fields(csv)[0] == seq!['3'],
    ensures
        r matches Some(v) ==> vari_wf(v@),
        forall|w: ValueView| vari_wf(w) && csv == spec_encode(w) ==> (r matches Some(v) && v@ == w),
        decode_tag_post(csv, r),
{
    let ghost fs = split_fields(csv);
    proof {
        lemma_tag_chars();
        reveal(decode_tag_post);
        assert(field_views(fields@).len() == fields@.len());
        assert forall|i: int| 0 <= i < fields@.len() implies #[trigger] fields@[i]@ == fs[i] by {
            assert(field_views(fields@)[i] == fields@[i]@);
        }
    }
    if fields.len() < 2 {
        proof {
            assert forall|w: ValueView| vari_wf(w) && csv == spec_encode(w) implies false by {
                lemma_encode_fields(w);
            }
        }
        return None;
    }
    match b64_decode(&fields[1]) {
        Some(bytes) => {
            let text = from_utf8_lossy(bytes.as_slice());
            let r = Some(Value::String(text));
            proof {
                assert(fs[1] == spec_b64(bytes@));
                assert(crate::encoding::is_b64_text(fs[1]));
                let b0 = crate::encoding::b64_bytes_of(fs[1]);
                assert(fs[1] == spec_b64(b0));
                assert(b0 == bytes@);
                assert forall|w: ValueView|
                    vari_wf(w) && csv == spec_encode(w) implies (r matches Some(v) && v@ == w) by {
                    lemma_encode_fields(w);
                    assert(w matches ValueView::String(sc) && fs[1] == spec_b64(encode_utf8(sc)));
                    let sc = w->String_0;
                    assert(bytes@ == encode_utf8(sc));
                    vstd::utf8::encode_utf8_valid_utf8(sc);
                    vstd::utf8::encode_utf8_decode_utf8(sc);
                    assert(text@ == sc);
                }
            }
            r
        },
        None => {
            proof {
                if crate::encoding::is_b64_text(fs[1]) {
                    let b0 = crate::encoding::b64_bytes_of(fs[1]);
                    assert(fs[1] == spec_b64(b0));
                    assert(false);
                }
                assert forall|w: ValueView| vari_wf(w) && csv == spec_encode(w) implies false by {
                    lemma_encode_fields(w);
                    assert(w matches ValueView::String(sc) && fs[1] == spec_b64(encode_utf8(sc)));
                }
            }
            None
        },
    }
}

/// Handles a record tagged as a binary blob.
#[verifier::rlimit(100)]
fn decode_tag_buffer(fields: &Vec<Vec<char>>, Ghost(csv): Ghost<Seq<char>>) -> (r: Option<Value>)
    requires
        field_views(fields@) == split_fields(csv),
        fields@.len() >= 1,
        split_fields(csv)[0] == seq!['4'],
    ensures
        r matches Some(v) ==> vari_wf(v@),
        forall|w: ValueView| vari_wf(w) && csv == spec_encode(w) ==> (r matches Some(v) && v@ == w),
        decode_tag_post(csv, r),
{
    let ghost fs = split_fields(csv);
    proof {
        lemma_tag_chars();
        reveal(decode_tag_post);
        assert(field_views(fields@).len() == fields@.len());
        assert forall|i: int| 0 <= i < fields@.len() implies #[trigger] fields@[i]@ == fs[i] by {
            assert(field_views(fields@)[i] == fields@[i]@);
        }
    }
    if fields.len() < 2 {
        proof {
            assert forall|w: ValueView| vari_wf(w) && csv == spec_encode(w) implies false by {
                lemma_encode_fields(w);
            }
        }
        return None;
    }
    match b64_decode(&fields[1]) {
        Some(bytes) => {
            let r = Some(Value::Buffer(bytes));
            proof {
                assert(fs[1] == spec_b64(r.unwrap()->Buffer_0@));
                assert(crate::encoding::is_b64_text(fs[1]));
                let b0 = crate::encoding::b64_bytes_of(fs[1]);
                assert(fs[1] == spec_b64(b0));
                assert forall|w: ValueView|
                    vari_wf(w) && csv == spec_encode(w) implies (r matches Some(v) && v@ == w) by {
                    lemma_encode_fields(w);
                    assert(w matches ValueView::Buffer(bs) && fs[1] == spec_b64(bs));
                }
            }
            r
        },
        None => {
            proof {
                if crate::encoding::is_b64_text(fs[1]) {
                    let b0 = crate::encoding::b64_bytes_of(fs[1]);
                    assert(fs[1] == spec_b64(b0));
                    assert(false);
                }
                assert forall|w: ValueView| vari_wf(w) && csv == spec_encode(w) implies false by {
                    lemma_encode_fields(w);
                    assert(w matches ValueView::Buffer(bs) && fs[1] == spec_b64(bs));
                }
            }
            None
        },
    }
}

/// Counts in records fit the unsigned parser.
proof fn lemma_count_parses(s: Seq<char>, n: nat)
    requires
        split_fields(s).len() >= 2 + n,
        s.len() <= usize::MAX,
    ensures
        n <= u64::MAX,
        u64_text_ok(nat_text(n)),
        u64_text_val(nat_text(n)) == n,
{
    lemma_split_count(s);
    lemma_nat_text_parse(n as u64);
}

/// Decodes one record.
fn decode_value(cs: &Vec<char>) -> (r: Option<Value>)
    ensures
        r matches Some(v) ==> vari_wf(v@),
        forall|w: ValueView| vari_wf(w) && cs@ == spec_encode(w) ==> (r matches Some(v) && v@ == w),
        decode_tag_post(cs@, r),
    decreases cs@.len(), 3int,
{
    let fields = split(cs);
    let ghost fs = split_fields(cs@);
    proof {
        lemma_tag_chars();
        assert(field_views(fields@).len() == fields@.len());
        assert forall|i: int| 0 <= i < fields@.len() implies #[trigger] fields@[i]@ == fs[i] by {
            assert(field_views(fields@)[i] == fields@[i]@);
        }
    }
    let tag = &fields[0];
    let tag_len = tag.len();
    let t0: char = if tag_len == 1 {
        tag[0]
    } else {
        ' '
    };
    proof {
        if tag_len == 1 {
            assert(fs[0] =~= seq![t0]);
        }
    }
    if tag_len == 1 && t0 == '!' {
        let r = Some(Value::Null);
        proof {
            reveal(decode_tag_post);
            assert(fs[0] == seq!['!']);
            assert forall|w: ValueView|
                vari_wf(w) && cs@ == spec_encode(w) implies (r matches Some(v) && v@ == w) by {
                lemma_encode_fields(w);
                assert(w is Null);
            }
        }
        return r;
    }
    if tag_len == 1 && t0 == '0' {
        return decode_tag_int(&fields, Ghost(cs@));
    }
    if tag_len == 1 && t0 == '1' {
        return decode_tag_float(&fields, Ghost(cs@));
    }
    if tag_len == 1 && t0 == '2' {
        return decode_tag_bool(&fields, Ghost(cs@));
    }
    if tag_len == 1 && t0 == '3' {
        return decode_tag_string(&fields, Ghost(cs@));
    }
    if tag_len == 1 && t0 == '4' {
        return decode_tag_buffer(&fields, Ghost(cs@));
    }
    if tag_len == 1 && t0 == '5' {
        return decode_tag_array(cs, &fields);
    }
    if tag_len == 1 && t0 == '6' {
        return decode_tag_struct(cs, &fields);
    }
    // an unrecognized or missing tag decodes to Null, as a deliberate
    // leniency of the format
    let r = Some(Value::Null);
    proof {
        reveal(decode_tag_post);
        assert(!recognized_tag(fs[0])) by {
            if tag_len == 1 {
                assert(fs[0] =~= seq![t0]);
            }
        }
        assert forall|w: ValueView|
            vari_wf(w) && cs@ == spec_encode(w) implies (r matches Some(v) && v@ == w) by {
            lemma_encode_fields(w);
        }
    }
    r
}

/// Handles a record tagged as an array.
#[verifier::rlimit(100)]
fn decode_tag_array(cs: &Vec<char>, fields: &Vec<Vec<char>>) -> (r: Option<Value>)
    requires
        field_views(fields@) == split_fields(cs@),
        fields@.len() >= 1,
        split_fields(cs@)[0] == seq!['5'],
    ensures
        r matches Some(v) ==> vari_wf(v@),
        forall|w: ValueView| vari_wf(w) && cs@ == spec_encode(w) ==> (r matches Some(v) && v@ == w),
        decode_tag_post(cs@, r),
    decreases cs@.len(), 2int,
{
    let ghost fs = split_fields(cs@);
    proof {
        lemma_tag_chars();
        reveal(decode_tag_post);
        assert(field_views(fields@).len() == fields@.len());
        assert forall|i: int| 0 <= i < fields@.len() implies #[trigger] fields@[i]@ == fs[i] by {
            assert(field_views(fields@)[i] == fields@[i]@);
        }
        assert(cs.len() == cs@.len());
    }
    if fields.len() < 2 {
        proof {
            assert forall|w: ValueView| vari_wf(w) && cs@ == spec_encode(w) implies false by {
                lemma_encode_fields(w);
            }
        }
        return None;
    }
    let cnt_opt = parse_u64(&fields[1]);
    if cnt_opt.is_none() {
        proof {
            assert forall|w: ValueView| vari_wf(w) && cs@ == spec_encode(w) implies false by {
                lemma_encode_fields(w);
                assert(w is Array);
                lemma_array_record(cs@, w);
            }
        }
        return None;
    }
    let cnt = cnt_opt.unwrap();
    if cnt > (fields.len() - 2) as u64 {
        proof {
            assert forall|w: ValueView| vari_wf(w) && cs@ == spec_encode(w) implies false by {
                lemma_encode_fields(w);
                assert(w is Array);
                lemma_array_record(cs@, w);
                assert(cnt == w->Array_0.len());
            }
        }
        return None;
    }
    let n_us = cnt as usize;
    proof {
        assert forall|k: int|
            0 <= k < n_us implies (#[trigger] fields@[2 + k])@.len() < cs@.len() as int by {
            lemma_split_field_len(cs@, 2 + k);
        }
    }
    match decode_children(fields, n_us, Ghost(cs@.len() as int)) {
        Some(kids) => {
            let r = Some(Value::Array(kids));
            proof {
                lemma_items_wf(views_of_items(r.unwrap()->Array_0@));
                assert forall|w: ValueView|
                    vari_wf(w) && cs@ == spec_encode(w) implies (r matches Some(v) && v@ == w) by {
                    lemma_encode_fields(w);
                    assert(w is Array);
                    lemma_array_record(cs@, w);
                    assert(cnt == w->Array_0.len());
                }
            }
            r
        },
        None => {
            proof {
                assert forall|w: ValueView| vari_wf(w) && cs@ == spec_encode(w) implies false by {
                    lemma_encode_fields(w);
                    assert(w is Array);
                    lemma_array_record(cs@, w);
                    assert(cnt == w->Array_0.len());
                }
            }
            None
        },
    }
}

/// Handles a record tagged as a struct.
#[verifier::rlimit(100)]
fn decode_tag_struct(cs: &Vec<char>, fields: &Vec<Vec<char>>) -> (r: Option<Value>)
    requires
        field_views(fields@) == split_fields(cs@),
        fields@.len() >= 1,
        split_fields(cs@)[0] == seq!['6'],
    ensures
        r matches Some(v) ==> vari_wf(v@),
        forall|w: ValueView| vari_wf(w) && cs@ == spec_encode(w) ==> (r matches Some(v) && v@ == w),
        decode_tag_post(cs@, r),
    decreases cs@.len(), 2int,
{
    let ghost fs = split_fields(cs@);
    proof {
        lemma_tag_chars();
        reveal(decode_tag_post);
        assert(field_views(fields@).len() == fields@.len());
        assert forall|i: int| 0 <= i < fields@.len() implies #[trigger] fields@[i]@ == fs[i] by {
            assert(field_views(fields@)[i] == fields@[i]@);
        }
        assert(cs.len() == cs@.len());
    }
    if fields.len() < 2 {
        proof {
            assert forall|w: ValueView| vari_wf(w) && cs@ == spec_encode(w) implies false by {
                lemma_encode_fields(w);
            }
        }
        return None;
    }
    let cnt_opt = parse_u64(&fields[1]);
    if cnt_opt.is_none() {
        proof {
            assert forall|w: ValueView| vari_wf(w) && cs@ == spec_encode(w) implies false by {
                lemma_encode_fields(w);
                assert(w is Struct);
                lemma_struct_record(cs@, w);
            }
        }
        return None;
    }
    let cnt = cnt_opt.unwrap();
    if cnt > ((fields.len() - 2) / 2) as u64 {
        proof {
            assert forall|w: ValueView| vari_wf(w) && cs@ == spec_encode(w) implies false by {
                lemma_encode_fields(w);
                assert(w is Struct);
                lemma_struct_record(cs@, w);
                assert(cnt == w->Struct_0.len());
            }
        }
        return None;
    }
    let n_us = cnt as usize;
    proof {
        assert forall|k: int|
            0 <= k < n_us implies (#[trigger] fields@[2 + 2 * k + 1])@.len() < cs@.len() as int by {
            lemma_split_field_len(cs@, 2 + 2 * k + 1);
        }
    }
    match decode_entries(fields, n_us, Ghost(cs@.len() as int)) {
        Some(entries) => {
            let r = Some(Value::Struct(entries));
            proof {
                lemma_pairs_wf(views_of_pairs(r.unwrap()->Struct_0@));
                assert forall|w: ValueView|
                    vari_wf(w) && cs@ == spec_encode(w) implies (r matches Some(v) && v@ == w) by {
                    lemma_encode_fields(w);
                    assert(w is Struct);
                    lemma_struct_record(cs@, w);
                    assert(cnt == w->Struct_0.len());
                }
            }
            r
        },
        None => {
            proof {
                assert forall|w: ValueView| vari_wf(w) && cs@ == spec_encode(w) implies false by {
                    lemma_encode_fields(w);
                    assert(w is Struct);
                    lemma_struct_record(cs@, w);
                    assert(cnt == w->Struct_0.len());
                }
            }
            None
        },
    }
}

/// Decodes a wire record into a value; text that is not a well-formed
/// record yields nothing, and an unrecognized leading tag yields `Null`.
///
/// Decoding inverts encoding: for every well-formed value, the record
/// `spec_encode` gives decodes to exactly that value, which is the
/// codec's round-trip law. The one lossy edge is a crafted text record
/// whose base64 field holds invalid UTF-8: it decodes to the lossy
/// replacement of those bytes, as `decode_tag_post` states.
pub fn decode_vari(s: &str) -> (r: Option<Value>)
    ensures
        r matches Some(v) ==> vari_wf(v@),
        forall|w: ValueView| vari_wf(w) && s@ == spec_encode(w) ==> (r matches Some(v) && v@ == w),
        decode_tag_post(s@, r),
{
    let cs = to_chars(s);
    decode_value(&cs)
}


/// The `;`-separated records of a list; like `split_fields`, but on the
/// list delimiter.
pub open spec fn split_records(s: Seq<char>) -> Seq<Seq<char>>
    decreases s.len(),
{
    let k = find_first(s, ';');
    if k == s.len() {
        seq![s]
    } else {
        proof {
            crate::numtext::lemma_find_first(s, ';');
        }
        seq![s.take(k)] + split_records(s.skip(k + 1))
    }
}

/// Text without the list delimiter is a single record.
pub proof fn lemma_split_records_single(s: Seq<char>)
    requires
        forall|i: int| 0 <= i < s.len() ==> s[i] != ';',
    ensures
        split_records(s) == seq![s],
{
    lemma_find_first_unique(s, ';', s.len() as int);
}

/// Splitting after a delimiter-free head: the head is the first record,
/// and the rest splits on its own.
pub proof fn lemma_split_records_prepend(a: Seq<char>, b: Seq<char>)
    requires
        forall|i: int| 0 <= i < a.len() ==> a[i] != ';',
    ensures
        split_records(a + seq![';'] + b) == seq![a] + split_records(b),
{
    let s = a + seq![';'] + b;
    assert forall|i: int| 0 <= i < a.len() implies s[i] != ';' by {
        assert(s[i] == a[i]);
    }
    assert(s[a.len() as int] == ';');
    lemma_find_first_unique(s, ';', a.len() as int);
    assert(s.take(a.len() as int) =~= a);
    assert(s.skip(a.len() as int + 1) =~= b);
}

/// Every record fits in what remains of the list after the records and
/// delimiters before it.
pub proof fn lemma_split_records_len(s: Seq<char>, j: int)
    requires
        0 <= j < split_records(s).len(),
    ensures
        split_records(s)[j].len() + j <= s.len(),
    decreases s.len(),
{
    let k = find_first(s, ';');
    crate::numtext::lemma_find_first(s, ';');
    if k == s.len() {
    } else {
        if j == 0 {
        } else {
            lemma_split_records_len(s.skip(k + 1), j - 1);
        }
    }
}

/// A list has at most one more record than it has characters.
pub proof fn lemma_split_records_count(s: Seq<char>)
    ensures
        split_records(s).len() <= s.len() + 1,
    decreases s.len(),
{
    let k = find_first(s, ';');
    crate::numtext::lemma_find_first(s, ';');
    if k != s.len() {
        lemma_split_records_count(s.skip(k + 1));
    }
}

/// A record never contains the list delimiter or a terminator, so a list
/// of records can be framed by the delimiter alone.
pub proof fn lemma_encode_no_semi(w: ValueView)
    requires
        vari_wf(w),
    ensures
        forall|i: int|
            0 <= i < spec_encode(w).len() ==> #[trigger] spec_encode(w)[i] != ';' && spec_encode(
                w,
            )[i] as u32 != 0,
    decreases w,
{
    match w {
        ValueView::Null => {
            assert(';' as u32 == 59);
            assert(spec_encode(w) =~= seq!['!']);
        },
        ValueView::Int(i) => {
            lemma_no_semi_int(i);
        },
        ValueView::Float(t) => {
            lemma_no_semi_float(t);
        },
        ValueView::Bool(b) => {
            lemma_no_semi_bool(b);
        },
        ValueView::String(sc) => {
            lemma_no_semi_string(sc);
        },
        ValueView::Buffer(bs) => {
            lemma_no_semi_buffer(bs);
        },
        ValueView::Array(items) => {
            lemma_items_wf(items);
            lemma_no_semi_array(items);
        },
        ValueView::Struct(pairs) => {
            lemma_pairs_wf(pairs);
            lemma_no_semi_struct(pairs);
        },
    }
}

proof fn lemma_no_semi_int(i: i64)
    ensures
        forall|k: int|
            0 <= k < spec_encode(ValueView::Int(i)).len() ==> #[trigger] spec_encode(
                ValueView::Int(i),
            )[k] != ';' && spec_encode(ValueView::Int(i))[k] as u32 != 0,
{
    let s = spec_encode(ValueView::Int(i));
    assert(';' as u32 == 59 && ':' as u32 == 58);
    crate::numtext::lemma_int_text_chars(i as int);
    assert forall|k: int|
        0 <= k < s.len() implies #[trigger] s[k] != ';' && s[k] as u32 != 0 by {
        if k >= 2 {
            assert(s[k] == int_text(i as int)[k - 2]);
        }
    }
}

proof fn lemma_no_semi_float(t: Seq<char>)
    requires
        valid_float_text(t),
    ensures
        forall|k: int|
            0 <= k < spec_encode(ValueView::Float(t)).len() ==> #[trigger] spec_encode(
                ValueView::Float(t),
            )[k] != ';' && spec_encode(ValueView::Float(t))[k] as u32 != 0,
{
    let s = spec_encode(ValueView::Float(t));
    assert(';' as u32 == 59 && ':' as u32 == 58);
    crate::numtext::lemma_float_text_chars(t);
    assert forall|k: int|
        0 <= k < s.len() implies #[trigger] s[k] != ';' && s[k] as u32 != 0 by {
        if k >= 2 {
            assert(s[k] == t[k - 2]);
        }
    }
}

proof fn lemma_no_semi_bool(b: bool)
    ensures
        forall|k: int|
            0 <= k < spec_encode(ValueView::Bool(b)).len() ==> #[trigger] spec_encode(
                ValueView::Bool(b),
            )[k] != ';' && spec_encode(ValueView::Bool(b))[k] as u32 != 0,
{
    let s = spec_encode(ValueView::Bool(b));
    assert(';' as u32 == 59 && ':' as u32 == 58);
    let payload = if b {
        seq!['1']
    } else {
        seq!['0']
    };
    assert(s =~= seq!['2', ':'] + payload);
    assert forall|k: int|
        0 <= k < s.len() implies #[trigger] s[k] != ';' && s[k] as u32 != 0 by {
        if k >= 2 {
            assert(s[k] == payload[k - 2]);
        }
    }
}

proof fn lemma_no_semi_string(sc: Seq<char>)
    ensures
        forall|k: int|
            0 <= k < spec_encode(ValueView::String(sc)).len() ==> #[trigger] spec_encode(
                ValueView::String(sc),
            )[k] != ';' && spec_encode(ValueView::String(sc))[k] as u32 != 0,
{
    let s = spec_encode(ValueView::String(sc));
    assert(';' as u32 == 59 && ':' as u32 == 58);
    lemma_b64_chars(encode_utf8(sc));
    assert forall|k: int|
        0 <= k < s.len() implies #[trigger] s[k] != ';' && s[k] as u32 != 0 by {
        if k >= 2 {
            assert(s[k] == spec_b64(encode_utf8(sc))[k - 2]);
        }
    }
}

proof fn lemma_no_semi_buffer(bs: Seq<u8>)
    ensures
        forall|k: int|
            0 <= k < spec_encode(ValueView::Buffer(bs)).len() ==> #[trigger] spec_encode(
                ValueView::Buffer(bs),
            )[k] != ';' && spec_encode(ValueView::Buffer(bs))[k] as u32 != 0,
{
    let s = spec_encode(ValueView::Buffer(bs));
    assert(';' as u32 == 59 && ':' as u32 == 58);
    lemma_b64_chars(bs);
    assert forall|k: int|
        0 <= k < s.len() implies #[trigger] s[k] != ';' && s[k] as u32 != 0 by {
        if k >= 2 {
            assert(s[k] == spec_b64(bs)[k - 2]);
        }
    }
}

proof fn lemma_no_semi_array(items: Seq<ValueView>)
    requires
        forall|i: int| 0 <= i < items.len() ==> vari_wf(#[trigger] items[i]),
    ensures
        forall|k: int|
            0 <= k < spec_encode(ValueView::Array(items)).len() ==> #[trigger] spec_encode(
                ValueView::Array(items),
            )[k] != ';' && spec_encode(ValueView::Array(items))[k] as u32 != 0,
    decreases items,
{
    let s = spec_encode(ValueView::Array(items));
    assert(';' as u32 == 59 && ':' as u32 == 58);
    lemma_nat_text_val(items.len());
    lemma_items_no_semi(items);
    assert forall|k: int|
        0 <= k < s.len() implies #[trigger] s[k] != ';' && s[k] as u32 != 0 by {
        let n = nat_text(items.len());
        if k < 2 {
        } else if k < 2 + n.len() {
            assert(s[k] == n[k - 2]);
            assert(crate::numtext::is_digit(n[k - 2]));
        } else {
            assert(s[k] == encode_items(items)[k - 2 - n.len()]);
        }
    }
}

proof fn lemma_no_semi_struct(pairs: Seq<(Seq<char>, ValueView)>)
    requires
        forall|i: int| 0 <= i < pairs.len() ==> vari_wf((#[trigger] pairs[i]).1),
    ensures
        forall|k: int|
            0 <= k < spec_encode(ValueView::Struct(pairs)).len() ==> #[trigger] spec_encode(
                ValueView::Struct(pairs),
            )[k] != ';' && spec_encode(ValueView::Struct(pairs))[k] as u32 != 0,
    decreases pairs,
{
    let s = spec_encode(ValueView::Struct(pairs));
    assert(';' as u32 == 59 && ':' as u32 == 58);
    lemma_nat_text_val(pairs.len());
    lemma_pairs_no_semi(pairs);
    assert forall|k: int|
        0 <= k < s.len() implies #[trigger] s[k] != ';' && s[k] as u32 != 0 by {
        let n = nat_text(pairs.len());
        if k < 2 {
        } else if k < 2 + n.len() {
            assert(s[k] == n[k - 2]);
            assert(crate::numtext::is_digit(n[k - 2]));
        } else {
            assert(s[k] == encode_pairs(pairs)[k - 2 - n.len()]);
        }
    }
}

/// The tail of an array record never contains the list delimiter or a
/// terminator.
proof fn lemma_items_no_semi(items: Seq<ValueView>)
    requires
        forall|i: int| 0 <= i < items.len() ==> vari_wf(#[trigger] items[i]),
    ensures
        forall|i: int|
            0 <= i < encode_items(items).len() ==> #[trigger] encode_items(items)[i] != ';'
                && encode_items(items)[i] as u32 != 0,
    decreases items,
{
    assert(';' as u32 == 59 && ':' as u32 == 58);
    if items.len() > 0 {
        let f0 = spec_b64(encode_utf8(spec_encode(items.first())));
        lemma_b64_chars(encode_utf8(spec_encode(items.first())));
        lemma_items_no_semi(items.drop_first());
        let s = encode_items(items);
        assert forall|i: int|
            0 <= i < s.len() implies #[trigger] s[i] != ';' && s[i] as u32 != 0 by {
            if i == 0 {
                assert(s[i] == ':');
            } else if i < 1 + f0.len() {
                assert(s[i] == f0[i - 1]);
            } else {
                assert(s[i] == encode_items(items.drop_first())[i - 1 - f0.len()]);
            }
        }
    }
}

/// The tail of a struct record never contains the list delimiter or a
/// terminator.
proof fn lemma_pairs_no_semi(pairs: Seq<(Seq<char>, ValueView)>)
    requires
        forall|i: int| 0 <= i < pairs.len() ==> vari_wf((#[trigger] pairs[i]).1),
    ensures
        forall|i: int|
            0 <= i < encode_pairs(pairs).len() ==> #[trigger] encode_pairs(pairs)[i] != ';'
                && encode_pairs(pairs)[i] as u32 != 0,
    decreases pairs,
{
    assert(';' as u32 == 59 && ':' as u32 == 58);
    if pairs.len() > 0 {
        let nf = spec_b64(encode_utf8(pairs.first().0));
        let cf = spec_b64(encode_utf8(spec_encode(pairs.first().1)));
        lemma_b64_chars(encode_utf8(pairs.first().0));
        lemma_b64_chars(encode_utf8(spec_encode(pairs.first().1)));
        lemma_pairs_no_semi(pairs.drop_first());
        let s = encode_pairs(pairs);
        assert forall|i: int|
            0 <= i < s.len() implies #[trigger] s[i] != ';' && s[i] as u32 != 0 by {
            if i == 0 {
                assert(s[i] == ':');
            } else if i < 1 + nf.len() {
                assert(s[i] == nf[i - 1]);
            } else if i == 1 + nf.len() {
                assert(s[i] == ':');
            } else if i < 2 + nf.len() + cf.len() {
                assert(s[i] == cf[i - 2 - nf.len()]);
            } else {
                assert(s[i] == encode_pairs(pairs.drop_first())[i - 2 - nf.len() - cf.len()]);
            }
        }
    }
}

/// The records of a list's values, in order.
pub open spec fn record_texts(ws: Seq<ValueView>) -> Seq<Seq<char>> {
    ws.map_values(|w: ValueView| spec_encode(w))
}

/// The wire text of a list of values: the count, then each value's record,
/// each preceded by the list delimiter.
pub open spec fn spec_encode_list(ws: Seq<ValueView>) -> Seq<char> {
    nat_text(ws.len()) + encode_list_tail(ws)
}

pub open spec fn encode_list_tail(ws: Seq<ValueView>) -> Seq<char>
    decreases ws,
{
    if ws.len() == 0 {
        Seq::<char>::empty()
    } else {
        seq![';'] + spec_encode(ws.first()) + encode_list_tail(ws.drop_first())
    }
}

/// Extending a list's tail by one value appends that value's record.
proof fn lemma_encode_list_snoc(ws: Seq<ValueView>, j: int)
    requires
        0 <= j < ws.len(),
    ensures
        encode_list_tail(ws.take(j + 1)) == encode_list_tail(ws.take(j)) + seq![';'] + spec_encode(
            ws[j],
        ),
    decreases j,
{
    if j == 0 {
        assert(ws.take(0) =~= Seq::<ValueView>::empty());
        assert(ws.take(1).first() == ws[0]);
        assert(ws.take(1).drop_first() =~= Seq::<ValueView>::empty());
        assert(encode_list_tail(ws.take(1)) =~= encode_list_tail(ws.take(0)) + seq![';']
            + spec_encode(ws[0]));
    } else {
        lemma_encode_list_snoc(ws.drop_first(), j - 1);
        assert(ws.take(j + 1).first() == ws[0]);
        assert(ws.take(j).first() == ws[0]);
        assert(ws.take(j + 1).drop_first() =~= ws.drop_first().take(j));
        assert(ws.take(j).drop_first() =~= ws.drop_first().take(j - 1));
        assert(ws.drop_first()[j - 1] == ws[j]);
        assert(encode_list_tail(ws.take(j + 1)) =~= encode_list_tail(ws.take(j)) + seq![';']
            + spec_encode(ws[j]));
    }
}

/// A delimiter-free piece followed by a list tail splits into the piece
/// and the records.
proof fn lemma_split_piece_list(piece: Seq<char>, ws: Seq<ValueView>)
    requires
        forall|i: int| 0 <= i < piece.len() ==> piece[i] != ';',
        forall|i: int| 0 <= i < ws.len() ==> vari_wf(#[trigger] ws[i]),
    ensures
        split_records(piece + encode_list_tail(ws)) == seq![piece] + ws.map_values(
            |w: ValueView| spec_encode(w),
        ),
    decreases ws.len(),
{
    if ws.len() == 0 {
        assert(piece + encode_list_tail(ws) =~= piece);
        lemma_split_records_single(piece);
        assert(seq![piece] + record_texts(ws) =~= seq![piece]);
    } else {
        let f0 = spec_encode(ws.first());
        let rest = ws.drop_first();
        lemma_encode_no_semi(ws.first());
        assert(piece + encode_list_tail(ws) =~= piece + seq![';'] + (f0 + encode_list_tail(rest)));
        lemma_split_records_prepend(piece, f0 + encode_list_tail(rest));
        lemma_split_piece_list(f0, rest);
        assert forall|k: int|
            0 <= k < ws.len() implies #[trigger] record_texts(ws)[k]
            == (seq![f0] + record_texts(rest))[k] by {
            if k > 0 {
                assert(rest[k - 1] == ws[k]);
            }
        }
        assert(record_texts(ws) =~= seq![f0] + record_texts(rest));
        assert(split_records(piece + encode_list_tail(ws)) =~= seq![piece] + ws.map_values(
            |w: ValueView| spec_encode(w),
        ));
    }
}

/// Encodes a list of values with the standard framing: the count, then the
/// records, each preceded by the list delimiter.
pub fn encode_value_list(values: &Vec<Value>) -> (r: String)
    requires
        items_wf(views_of_items(values@)),
    ensures
        r@ == spec_encode_list(views_of_items(values@)),
{
    let ghost ws = views_of_items(values@);
    proof {
        reveal_strlit(";");
        lemma_views_of_items(values@);
        lemma_items_wf(ws);
    }
    let mut s = u64_to_string(values.len() as u64);
    proof {
        assert(encode_list_tail(ws.take(0)) =~= Seq::<char>::empty());
        assert(s@ =~= nat_text(ws.len() as nat) + encode_list_tail(ws.take(0)));
    }
    let mut j: usize = 0;
    while j < values.len()
        invariant
            j <= values@.len(),
            ws == views_of_items(values@),
            ws.len() == values@.len(),
            forall|i: int| 0 <= i < values@.len() ==> #[trigger] ws[i] == view_of(values@[i]),
            forall|i: int| 0 <= i < ws.len() ==> vari_wf(#[trigger] ws[i]),
            s@ == nat_text(ws.len() as nat) + encode_list_tail(ws.take(j as int)),
        decreases values@.len() - j,
    {
        proof {
            reveal_strlit(";");
            assert(vari_wf(ws[j as int]));
        }
        s.append(";");
        let rec = encode_vari(&values[j]);
        s.append(rec.as_str());
        proof {
            lemma_encode_list_snoc(ws, j as int);
            assert(s@ =~= nat_text(ws.len() as nat) + encode_list_tail(ws.take(j + 1)));
        }
        j = j + 1;
    }
    proof {
        assert(ws.take(ws.len() as int) =~= ws);
    }
    s
}

/// What the text of a list looks like, all in one place.
proof fn lemma_list_shape(csv: Seq<char>, ws: Seq<ValueView>)
    requires
        items_wf(ws),
        csv == spec_encode_list(ws),
        csv.len() <= usize::MAX,
    ensures
        split_records(csv).len() == 1 + ws.len(),
        split_records(csv)[0] == nat_text(ws.len()),
        ws.len() <= u64::MAX,
        u64_text_ok(nat_text(ws.len())),
        u64_text_val(nat_text(ws.len())) == ws.len(),
        forall|k: int|
            0 <= k < ws.len() ==> split_records(csv)[1 + k] == spec_encode(#[trigger] ws[k]),
{
    lemma_items_wf(ws);
    lemma_nat_text_val(ws.len());
    assert forall|i: int|
        0 <= i < nat_text(ws.len()).len() implies nat_text(ws.len())[i] != ';' by {
        assert(crate::numtext::is_digit(nat_text(ws.len())[i]));
        assert(';' as u32 == 59);
    }
    lemma_split_piece_list(nat_text(ws.len()), ws);
    lemma_split_records_count(csv);
    lemma_nat_text_parse(ws.len() as u64);
    assert forall|k: int|
        0 <= k < ws.len() implies split_records(csv)[1 + k] == spec_encode(#[trigger] ws[k]) by {
        assert(record_texts(ws)[k] == spec_encode(ws[k]));
    }
}

/// Decodes a list of values with the standard framing; nothing when the
/// count is unreadable, promises more records than follow, or a record is
/// malformed.
#[verifier::rlimit(100)]
pub fn decode_value_list(s: &str) -> (r: Option<Vec<Value>>)
    ensures
        r matches Some(out) ==> items_wf(views_of_items(out@)),
        forall|ws: Seq<ValueView>|
            items_wf(ws) && s@ == spec_encode_list(ws) ==> (r matches Some(out)
                && views_of_items(out@) == ws),
{
    let cs = to_chars(s);
    let ghost rs = split_records(cs@);
    let recs = split_list(&cs);
    proof {
        assert(recs.len() == recs@.len());
        assert(cs.len() == cs@.len());
        assert(rs[0] == recs@[0]@) by {
            assert(field_views(recs@)[0] == recs@[0]@);
        }
    }
    let cnt_opt = parse_u64(&recs[0]);
    if cnt_opt.is_none() {
        proof {
            assert forall|ws: Seq<ValueView>|
                items_wf(ws) && s@ == spec_encode_list(ws) implies false by {
                lemma_list_shape(cs@, ws);
            }
        }
        return None;
    }
    let cnt = cnt_opt.unwrap();
    if cnt > (recs.len() - 1) as u64 {
        proof {
            assert forall|ws: Seq<ValueView>|
                items_wf(ws) && s@ == spec_encode_list(ws) implies false by {
                lemma_list_shape(cs@, ws);
            }
        }
        return None;
    }
    let n = cnt as usize;
    let mut out: Vec<Value> = Vec::new();
    proof {
        assert forall|ws: Seq<ValueView>|
            items_wf(ws) && s@ == spec_encode_list(ws) implies ws.len() == n && views_of_items(
            out@,
        ) == ws.take(0) by {
            lemma_list_shape(cs@, ws);
            assert(views_of_items(out@) =~= ws.take(0));
        }
    }
    let mut k: usize = 0;
    while k < n
        invariant
            k <= n,
            1 + n <= recs@.len(),
            rs == field_views(recs@),
            cs@ == s@,
            cs@.len() <= usize::MAX,
            rs == split_records(cs@),
            forall|ws: Seq<ValueView>|
                items_wf(ws) && s@ == #[trigger] spec_encode_list(ws) ==> ws.len() == n,
            out@.len() == k,
            items_wf(views_of_items(out@)),
            forall|ws: Seq<ValueView>|
                items_wf(ws) && s@ == #[trigger] spec_encode_list(ws) ==> views_of_items(out@)
                    == ws.take(k as int),
        decreases n - k,
    {
        proof {
            assert(rs[1 + k as int] == recs@[1 + k as int]@) by {
                assert(field_views(recs@)[1 + k as int] == recs@[1 + k as int]@);
            }
        }
        let rec_str = string_from_chars(&recs[1 + k]);
        let cv_opt = decode_vari(rec_str.as_str());
        if cv_opt.is_none() {
            proof {
                assert forall|ws: Seq<ValueView>|
                    items_wf(ws) && s@ == spec_encode_list(ws) implies false by {
                    lemma_list_shape(cs@, ws);
                    lemma_items_wf(ws);
                    assert(rec_str@ == spec_encode(ws[k as int]));
                    assert(vari_wf(ws[k as int]));
                }
            }
            return None;
        }
        let cv = cv_opt.unwrap();
        let ghost out_old = out@;
        out.push(cv);
        proof {
            lemma_views_of_items_push(out_old, cv);
            crate::value::lemma_items_wf_push(views_of_items(out_old), view_of(cv));
            assert forall|ws: Seq<ValueView>|
                items_wf(ws) && s@ == spec_encode_list(ws) implies views_of_items(out@)
                == ws.take(k + 1) by {
                lemma_list_shape(cs@, ws);
                lemma_items_wf(ws);
                assert(views_of_items(out_old) == ws.take(k as int));
                assert(rec_str@ == spec_encode(ws[k as int]));
                assert(vari_wf(ws[k as int]));
                assert(view_of(cv) == ws[k as int]);
                assert(ws.take(k + 1) =~= ws.take(k as int).push(ws[k as int]));
            }
        }
        k = k + 1;
    }
    proof {
        assert forall|ws: Seq<ValueView>|
            items_wf(ws) && s@ == spec_encode_list(ws) implies views_of_items(out@) == ws by {
            assert(ws.take(n as int) =~= ws);
        }
    }
    Some(out)
}

/// Splits a list into its `;`-separated records.
fn split_list(cs: &Vec<char>) -> (r: Vec<Vec<char>>)
    ensures
        field_views(r@) == split_records(cs@),
        r@.len() >= 1,
{
    let mut out: Vec<Vec<char>> = Vec::new();
    let mut p: usize = 0;
    let mut done = false;
    proof {
        assert(cs@.skip(0) =~= cs@);
        assert(field_views(out@) + split_records(cs@) =~= split_records(cs@));
    }
    while !done
        invariant
            p <= cs@.len(),
            !done ==> field_views(out@) + split_records(cs@.skip(p as int)) == split_records(cs@),
            done ==> field_views(out@) == split_records(cs@),
            done ==> out@.len() >= 1,
        decreases (cs@.len() - p) * 2 + (if done {
            0int
        } else {
            1int
        }),
    {
        let ghost suffix = cs@.skip(p as int);
        let mut q: usize = p;
        while q < cs.len() && cs[q] != ';'
            invariant
                p <= q <= cs@.len(),
                suffix == cs@.skip(p as int),
                forall|j: int| 0 <= j < q - p ==> suffix[j] != ';',
            decreases cs@.len() - q,
        {
            assert(suffix[q - p] == cs@[q as int]);
            q = q + 1;
        }
        let piece = subvec(cs, p, q);
        proof {
            lemma_find_first_unique(suffix, ';', q - p);
            assert(piece@ =~= suffix.take(q - p));
        }
        out.push(piece);
        proof {
            assert(field_views(out@) =~= field_views(out@.drop_last()).push(piece@));
        }
        if q < cs.len() {
            proof {
                assert(suffix.skip(q - p + 1) =~= cs@.skip(q + 1));
                assert(field_views(out@) + split_records(cs@.skip(q + 1)) =~= field_views(
                    out@.drop_last(),
                ) + split_records(suffix));
            }
            p = q + 1;
        } else {
            proof {
                assert(suffix.take(q - p) =~= suffix);
                assert(split_records(suffix) =~= seq![suffix]);
                assert(field_views(out@) =~= field_views(out@.drop_last()) + split_records(
                    suffix,
                ));
            }
            done = true;
        }
    }
    out
}

} // verus!
