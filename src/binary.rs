//! The binary form of documents.
//!
//! A document is `vint(n)` followed by its `n` pairs in order; a pair is
//! `vint(field) tag value`. A vint holds seven bits per byte, least
//! significant group first, and sets the high bit on its last byte only.
//! Numbers and dates are eight bytes, little endian; strings, facets and
//! byte strings are `vint(length)` and the bytes (UTF-8 for text);
//! pre-tokenized text is its text, `vint(count)`, and per token its offsets,
//! position and position length as vints followed by its text.
use crate::schema::{
    field_value_model, token_model, tokens_model, value_model, DateTime, Facet, Field, FieldValue,
    PreTokenizedString, Token, TokenModel, Value, ValueModel,
};
use vstd::prelude::*;
use vstd::utf8::*;

verus! {

pub open spec fn vint_bytes(v: u64) -> Seq<u8>
    decreases v,
{
    if v < 128 {
        seq![(v + 128) as u8]
    } else {
        seq![(v % 128) as u8] + vint_bytes(v / 128)
    }
}

pub open spec fn u64_bytes(v: u64) -> Seq<u8> {
    seq![
        v as u8,
        (v >> 8u64) as u8,
        (v >> 16u64) as u8,
        (v >> 24u64) as u8,
        (v >> 32u64) as u8,
        (v >> 40u64) as u8,
        (v >> 48u64) as u8,
        (v >> 56u64) as u8,
    ]
}

pub open spec fn blob_bytes(b: Seq<u8>) -> Seq<u8> {
    vint_bytes(b.len() as u64) + b
}

pub open spec fn str_bytes(s: Seq<char>) -> Seq<u8> {
    blob_bytes(encode_utf8(s))
}

pub open spec fn token_bytes(t: TokenModel) -> Seq<u8> {
    vint_bytes(t.offset_from) + vint_bytes(t.offset_to) + vint_bytes(t.position) + vint_bytes(
        t.position_length,
    ) + str_bytes(t.text)
}

pub open spec fn tokens_bytes(ts: Seq<TokenModel>) -> Seq<u8>
    decreases ts.len(),
{
    if ts.len() == 0 {
        Seq::empty()
    } else {
        tokens_bytes(ts.drop_last()) + token_bytes(ts.last())
    }
}

pub open spec fn value_tag(v: ValueModel) -> u8 {
    match v {
        ValueModel::Str(_) => 0,
        ValueModel::U64(_) => 1,
        ValueModel::I64(_) => 2,
        ValueModel::Facet(_) => 3,
        ValueModel::Bytes(_) => 4,
        ValueModel::Date(_) => 5,
        ValueModel::F64(_) => 6,
        ValueModel::PreTokStr(_, _) => 7,
    }
}

pub open spec fn value_body_bytes(v: ValueModel) -> Seq<u8> {
    match v {
        ValueModel::Str(s) => str_bytes(s),
        ValueModel::U64(x) => u64_bytes(x),
        ValueModel::I64(x) => u64_bytes(x as u64),
        ValueModel::Facet(s) => str_bytes(s),
        ValueModel::Bytes(b) => blob_bytes(b),
        ValueModel::Date(x) => u64_bytes(x as u64),
        ValueModel::F64(x) => u64_bytes(x),
        ValueModel::PreTokStr(s, ts) => str_bytes(s) + vint_bytes(ts.len() as u64) + tokens_bytes(ts),
    }
}

pub open spec fn value_bytes(v: ValueModel) -> Seq<u8> {
    seq![value_tag(v)] + value_body_bytes(v)
}

pub open spec fn field_value_bytes(fv: (crate::schema::Field, ValueModel)) -> Seq<u8> {
    vint_bytes(fv.0.0 as u64) + value_bytes(fv.1)
}

pub open spec fn field_values_bytes(s: Seq<(crate::schema::Field, ValueModel)>) -> Seq<u8>
    decreases s.len(),
{
    if s.len() == 0 {
        Seq::empty()
    } else {
        field_values_bytes(s.drop_last()) + field_value_bytes(s.last())
    }
}

/// The encoding of a document whose pairs have the contents `s`.
pub open spec fn document_bytes(s: Seq<(crate::schema::Field, ValueModel)>) -> Seq<u8> {
    vint_bytes(s.len() as u64) + field_values_bytes(s)
}

/// `b` holds `e` from `pos` on.
pub open spec fn holds_at(b: Seq<u8>, pos: int, e: Seq<u8>) -> bool {
    0 <= pos && pos + e.len() <= b.len() && b.subrange(pos, pos + e.len()) == e
}

pub proof fn lemma_holds_at_concat(b: Seq<u8>, pos: int, e1: Seq<u8>, e2: Seq<u8>)
    ensures
        holds_at(b, pos, e1 + e2) <==> holds_at(b, pos, e1) && holds_at(b, pos + e1.len(), e2),
{
    if holds_at(b, pos, e1 + e2) {
        assert(b.subrange(pos, pos + e1.len()) == (e1 + e2).subrange(0, e1.len() as int));
        assert((e1 + e2).subrange(0, e1.len() as int) == e1);
        assert(b.subrange(pos + e1.len(), pos + e1.len() + e2.len()) == (e1 + e2).subrange(
            e1.len() as int,
            (e1.len() + e2.len()) as int,
        ));
        assert((e1 + e2).subrange(e1.len() as int, (e1.len() + e2.len()) as int) == e2);
    }
    if holds_at(b, pos, e1) && holds_at(b, pos + e1.len(), e2) {
        assert(b.subrange(pos, pos + e1.len() + e2.len()) == e1 + e2);
    }
}

pub fn write_vint(out: &mut Vec<u8>, v: u64)
    ensures
        final(out)@ == old(out)@ + vint_bytes(v),
    decreases v,
{
    if v < 128 {
        out.push((v + 128) as u8);
    } else {
        out.push((v % 128) as u8);
        write_vint(out, v / 128);
        assert(final(out)@ == old(out)@ + vint_bytes(v));
    }
}

pub fn write_u64(out: &mut Vec<u8>, v: u64)
    ensures
        final(out)@ == old(out)@ + u64_bytes(v),
{
    out.push(v as u8);
    out.push((v >> 8u64) as u8);
    out.push((v >> 16u64) as u8);
    out.push((v >> 24u64) as u8);
    out.push((v >> 32u64) as u8);
    out.push((v >> 40u64) as u8);
    out.push((v >> 48u64) as u8);
    out.push((v >> 56u64) as u8);
    assert(out@ == old(out)@ + u64_bytes(v));
}

fn write_raw(out: &mut Vec<u8>, b: &[u8])
    ensures
        final(out)@ == old(out)@ + b@,
{
    let mut i: usize = 0;
    while i < b.len()
        invariant
            0 <= i <= b@.len(),
            out@ == old(out)@ + b@.subrange(0, i as int),
        decreases b@.len() - i,
    {
        out.push(b[i]);
        assert(b@.subrange(0, i + 1) == b@.subrange(0, i as int).push(b@[i as int]));
        i += 1;
    }
    assert(b@.subrange(0, b@.len() as int) == b@);
}

pub fn write_blob(out: &mut Vec<u8>, b: &[u8])
    ensures
        final(out)@ == old(out)@ + blob_bytes(b@),
{
    write_vint(out, b.len() as u64);
    write_raw(out, b);
    assert(out@ == old(out)@ + blob_bytes(b@));
}

pub fn write_str(out: &mut Vec<u8>, s: &str)
    ensures
        final(out)@ == old(out)@ + str_bytes(s@),
{
    let b = s.as_bytes();
    write_blob(out, b);
}

fn write_token(out: &mut Vec<u8>, t: &Token)
    ensures
        final(out)@ == old(out)@ + token_bytes(token_model(*t)),
{
    write_vint(out, t.offset_from);
    write_vint(out, t.offset_to);
    write_vint(out, t.position);
    write_vint(out, t.position_length);
    write_str(out, t.text.as_str());
    assert(out@ == old(out)@ + token_bytes(token_model(*t)));
}

fn write_tokens(out: &mut Vec<u8>, ts: &Vec<Token>)
    ensures
        final(out)@ == old(out)@ + vint_bytes(ts@.len() as u64) + tokens_bytes(tokens_model(ts@)),
{
    write_vint(out, ts.len() as u64);
    let ghost start = out@;
    let mut i: usize = 0;
    while i < ts.len()
        invariant
            0 <= i <= ts@.len(),
            out@ == start + tokens_bytes(tokens_model(ts@.subrange(0, i as int))),
        decreases ts@.len() - i,
    {
        write_token(out, &ts[i]);
        proof {
            let m = tokens_model(ts@.subrange(0, i + 1));
            assert(m.drop_last() == tokens_model(ts@.subrange(0, i as int)));
            assert(m.last() == token_model(ts@[i as int]));
        }
        i += 1;
    }
    assert(ts@.subrange(0, ts@.len() as int) == ts@);
}

pub fn write_value(out: &mut Vec<u8>, v: &Value)
    ensures
        final(out)@ == old(out)@ + value_bytes(value_model(*v)),
{
    match v {
        Value::Str(s) => {
            out.push(0);
            write_str(out, s.as_str());
        },
        Value::U64(x) => {
            out.push(1);
            write_u64(out, *x);
        },
        Value::I64(x) => {
            out.push(2);
            write_u64(out, *x as u64);
        },
        Value::Facet(f) => {
            out.push(3);
            write_str(out, f.encoded.as_str());
        },
        Value::Bytes(b) => {
            out.push(4);
            write_blob(out, b.as_slice());
        },
        Value::Date(d) => {
            out.push(5);
            write_u64(out, d.timestamp as u64);
        },
        Value::F64(x) => {
            out.push(6);
            write_u64(out, *x);
        },
        Value::PreTokStr(p) => {
            out.push(7);
            write_str(out, p.text.as_str());
            write_tokens(out, &p.tokens);
        },
    }
    assert(out@ == old(out)@ + value_bytes(value_model(*v)));
}

pub fn write_field_value(out: &mut Vec<u8>, fv: &FieldValue)
    ensures
        final(out)@ == old(out)@ + field_value_bytes(field_value_model(*fv)),
{
    write_vint(out, fv.field.0 as u64);
    write_value(out, &fv.value);
    assert(out@ == old(out)@ + field_value_bytes(field_value_model(*fv)));
}

pub open spec fn document_model(s: Seq<FieldValue>) -> Seq<(crate::schema::Field, ValueModel)> {
    s.map_values(|fv: FieldValue| field_value_model(fv))
}

/// Encodes the pairs `s` as a document.
pub fn write_document(s: &[FieldValue]) -> (r: Vec<u8>)
    ensures
        r@ == document_bytes(document_model(s@)),
{
    let mut out: Vec<u8> = Vec::new();
    write_vint(&mut out, s.len() as u64);
    let ghost start = out@;
    let mut i: usize = 0;
    while i < s.len()
        invariant
            0 <= i <= s@.len(),
            start == vint_bytes(s@.len() as u64),
            out@ == start + field_values_bytes(document_model(s@.subrange(0, i as int))),
        decreases s@.len() - i,
    {
        write_field_value(&mut out, &s[i]);
        proof {
            let m = document_model(s@.subrange(0, i + 1));
            assert(m.drop_last() == document_model(s@.subrange(0, i as int)));
            assert(m.last() == field_value_model(s@[i as int]));
        }
        i += 1;
    }
    assert(s@.subrange(0, s@.len() as int) == s@);
    assert(document_model(s@).len() == s@.len());
    out
}

pub fn read_vint(b: &[u8], pos: usize) -> (r: Option<(u64, usize)>)
    requires
        pos <= b@.len(),
    ensures
        r matches Some((v, end)) ==> end == pos + vint_bytes(v).len() && holds_at(
            b@,
            pos as int,
            vint_bytes(v),
        ),
        forall|v: u64|
            holds_at(b@, pos as int, #[trigger] vint_bytes(v)) ==> r == Some(
                (v, (pos + vint_bytes(v).len()) as usize),
            ),
    decreases b@.len() - pos,
{
    if pos >= b.len() {
        return None;
    }
    let byte = b[pos];
    if byte >= 128 {
        let v = (byte - 128) as u64;
        assert(vint_bytes(v) == seq![byte]);
        assert(b@.subrange(pos as int, pos + 1) == seq![byte]);
        assert forall|w: u64| holds_at(b@, pos as int, #[trigger] vint_bytes(w)) implies w == v by {
            assert(b@.subrange(pos as int, pos + vint_bytes(w).len())[0] == b@[pos as int]);
        }
        return Some((v, pos + 1));
    }
    proof {
        assert forall|w: u64| holds_at(b@, pos as int, #[trigger] vint_bytes(w)) implies w >= 128
            && holds_at(b@, pos + 1, vint_bytes(w / 128)) && w % 128 == byte by {
            assert(b@.subrange(pos as int, pos + vint_bytes(w).len())[0] == b@[pos as int]);
            if w >= 128 {
                lemma_holds_at_concat(b@, pos as int, seq![(w % 128) as u8], vint_bytes(w / 128));
            }
        }
    }
    match read_vint(b, pos + 1) {
        None => None,
        Some((rest, end)) => {
            if rest == 0 || rest > (u64::MAX - byte as u64) / 128 {
                return None;
            }
            let v = rest * 128 + byte as u64;
            proof {
                assert(v % 128 == byte as u64 && v / 128 == rest) by (nonlinear_arith)
                    requires
                        v == rest * 128 + byte as u64,
                        byte < 128,
                ;
                assert(vint_bytes(v) == seq![byte] + vint_bytes(rest));
                lemma_holds_at_concat(b@, pos as int, seq![byte], vint_bytes(rest));
                assert(b@.subrange(pos as int, pos + 1) == seq![byte]);
                assert forall|w: u64| holds_at(b@, pos as int, #[trigger] vint_bytes(w)) implies w == v by {
                    assert(w / 128 == rest);
                    assert(w == (w / 128) * 128 + w % 128) by (nonlinear_arith);
                }
            }
            Some((v, end))
        },
    }
}

pub fn read_u64(b: &[u8], pos: usize) -> (r: Option<(u64, usize)>)
    requires
        pos <= b@.len(),
    ensures
        r matches Some((v, end)) ==> end == pos + 8 && holds_at(b@, pos as int, u64_bytes(v)),
        forall|v: u64|
            holds_at(b@, pos as int, #[trigger] u64_bytes(v)) ==> r == Some((v, (pos + 8) as usize)),
{
    if b.len() - pos < 8 {
        return None;
    }
    let b0 = b[pos];
    let b1 = b[pos + 1];
    let b2 = b[pos + 2];
    let b3 = b[pos + 3];
    let b4 = b[pos + 4];
    let b5 = b[pos + 5];
    let b6 = b[pos + 6];
    let b7 = b[pos + 7];
    let v: u64 = (b0 as u64) | ((b1 as u64) << 8u64) | ((b2 as u64) << 16u64) | ((b3 as u64) << 24u64)
        | ((b4 as u64) << 32u64) | ((b5 as u64) << 40u64) | ((b6 as u64) << 48u64) | ((b7 as u64)
        << 56u64);
    proof {
        assert(v as u8 == b0 && (v >> 8u64) as u8 == b1 && (v >> 16u64) as u8 == b2 && (v >> 24u64) as u8
            == b3 && (v >> 32u64) as u8 == b4 && (v >> 40u64) as u8 == b5 && (v >> 48u64) as u8 == b6
            && (v >> 56u64) as u8 == b7) by (bit_vector)
            requires
                v == (b0 as u64) | ((b1 as u64) << 8u64) | ((b2 as u64) << 16u64) | ((b3 as u64)
                    << 24u64) | ((b4 as u64) << 32u64) | ((b5 as u64) << 40u64) | ((b6 as u64) << 48u64)
                    | ((b7 as u64) << 56u64),
        ;
        assert(b@.subrange(pos as int, pos + 8) == u64_bytes(v));
        assert forall|w: u64| holds_at(b@, pos as int, #[trigger] u64_bytes(w)) implies w == v by {
            let e = u64_bytes(w);
            assert(e[0] == b0 && e[1] == b1 && e[2] == b2 && e[3] == b3 && e[4] == b4 && e[5] == b5
                && e[6] == b6 && e[7] == b7);
            assert(w == v) by (bit_vector)
                requires
                    w as u8 == b0,
                    (w >> 8u64) as u8 == b1,
                    (w >> 16u64) as u8 == b2,
                    (w >> 24u64) as u8 == b3,
                    (w >> 32u64) as u8 == b4,
                    (w >> 40u64) as u8 == b5,
                    (w >> 48u64) as u8 == b6,
                    (w >> 56u64) as u8 == b7,
                    v == (b0 as u64) | ((b1 as u64) << 8u64) | ((b2 as u64) << 16u64) | ((b3 as u64)
                        << 24u64) | ((b4 as u64) << 32u64) | ((b5 as u64) << 40u64) | ((b6 as u64)
                        << 48u64) | ((b7 as u64) << 56u64),
            ;
        }
    }
    Some((v, pos + 8))
}

fn read_blob_slice<'a>(b: &'a [u8], pos: usize) -> (r: Option<(&'a [u8], usize)>)
    requires
        pos <= b@.len(),
    ensures
        r matches Some((v, end)) ==> end == pos + blob_bytes(v@).len() && holds_at(
            b@,
            pos as int,
            blob_bytes(v@),
        ),
        forall|x: Seq<u8>|
            holds_at(b@, pos as int, #[trigger] blob_bytes(x)) ==> (r matches Some((v, end)) && v@ == x
                && end == pos + blob_bytes(x).len()),
{
    proof {
        assert forall|x: Seq<u8>| holds_at(b@, pos as int, #[trigger] blob_bytes(x)) implies holds_at(
            b@,
            pos as int,
            vint_bytes(x.len() as u64),
        ) && holds_at(b@, pos + vint_bytes(x.len() as u64).len(), x) by {
            lemma_holds_at_concat(b@, pos as int, vint_bytes(x.len() as u64), x);
        }
    }
    match read_vint(b, pos) {
        None => None,
        Some((len, p1)) => {
            if len > (b.len() - p1) as u64 {
                return None;
            }
            let end = p1 + len as usize;
            let v = &b[p1..end];
            proof {
                assert(v@.len() == len);
                lemma_holds_at_concat(b@, pos as int, vint_bytes(len), v@);
                assert(b@.subrange(p1 as int, end as int) == v@);
            }
            Some((v, end))
        },
    }
}

pub fn read_blob(b: &[u8], pos: usize) -> (r: Option<(Vec<u8>, usize)>)
    requires
        pos <= b@.len(),
    ensures
        r matches Some((v, end)) ==> end == pos + blob_bytes(v@).len() && holds_at(
            b@,
            pos as int,
            blob_bytes(v@),
        ),
        forall|x: Seq<u8>|
            holds_at(b@, pos as int, #[trigger] blob_bytes(x)) ==> (r matches Some((v, end)) && v@ == x
                && end == pos + blob_bytes(x).len()),
{
    match read_blob_slice(b, pos) {
        None => None,
        Some((v, end)) => Some((vstd::slice::slice_to_vec(v), end)),
    }
}

/// Relies on `std::str::from_utf8`: it succeeds exactly on valid UTF-8, and
/// the string it returns consists of the given bytes.
#[verifier::external_body]
fn str_from_utf8(v: &[u8]) -> (r: Option<&str>)
    ensures
        r is Some <==> valid_utf8(v@),
        r matches Some(s) ==> encode_utf8(s@) == v@,
{
    std::str::from_utf8(v).ok()
}

pub fn read_str(b: &[u8], pos: usize) -> (r: Option<(String, usize)>)
    requires
        pos <= b@.len(),
    ensures
        r matches Some((s, end)) ==> end == pos + str_bytes(s@).len() && holds_at(
            b@,
            pos as int,
            str_bytes(s@),
        ),
        forall|t: Seq<char>|
            holds_at(b@, pos as int, #[trigger] str_bytes(t)) ==> (r matches Some((s, end)) && s@ == t
                && end == pos + str_bytes(t).len()),
{
    match read_blob_slice(b, pos) {
        None => None,
        Some((v, end)) => {
            proof {
                assert forall|t: Seq<char>| holds_at(b@, pos as int, #[trigger] str_bytes(t)) implies valid_utf8(v@)
                    && v@ == encode_utf8(t) by {
                    encode_utf8_valid_utf8(t);
                }
            }
            match str_from_utf8(v) {
                None => None,
                Some(st) => {
                    let s = st.to_owned();
                    proof {
                        assert forall|t: Seq<char>| holds_at(b@, pos as int, #[trigger] str_bytes(t)) implies s@ == t by {
                            encode_utf8_decode_utf8(t);
                            encode_utf8_decode_utf8(s@);
                        }
                    }
                    Some((s, end))
                },
            }
        },
    }
}

#[verifier::spinoff_prover]
#[verifier::rlimit(60)]
fn read_token(b: &[u8], pos: usize) -> (r: Option<(Token, usize)>)
    requires
        pos <= b@.len(),
    ensures
        r matches Some((t, end)) ==> end == pos + token_bytes(token_model(t)).len() && holds_at(
            b@,
            pos as int,
            token_bytes(token_model(t)),
        ),
        forall|m: TokenModel|
            holds_at(b@, pos as int, #[trigger] token_bytes(m)) ==> (r matches Some((t, end))
                && token_model(t) == m && end == pos + token_bytes(m).len()),
{
    proof {
        assert forall|m: TokenModel| holds_at(b@, pos as int, #[trigger] token_bytes(m)) implies {
            let l1 = vint_bytes(m.offset_from).len();
            let l2 = vint_bytes(m.offset_to).len();
            let l3 = vint_bytes(m.position).len();
            let l4 = vint_bytes(m.position_length).len();
            &&& holds_at(b@, pos as int, vint_bytes(m.offset_from))
            &&& holds_at(b@, pos + l1, vint_bytes(m.offset_to))
            &&& holds_at(b@, pos + l1 + l2, vint_bytes(m.position))
            &&& holds_at(b@, pos + l1 + l2 + l3, vint_bytes(m.position_length))
            &&& holds_at(b@, pos + l1 + l2 + l3 + l4, str_bytes(m.text))
        } by {
            let e1 = vint_bytes(m.offset_from);
            let e2 = vint_bytes(m.offset_to);
            let e3 = vint_bytes(m.position);
            let e4 = vint_bytes(m.position_length);
            let e5 = str_bytes(m.text);
            lemma_holds_at_concat(b@, pos as int, e1 + e2 + e3 + e4, e5);
            lemma_holds_at_concat(b@, pos as int, e1 + e2 + e3, e4);
            lemma_holds_at_concat(b@, pos as int, e1 + e2, e3);
            lemma_holds_at_concat(b@, pos as int, e1, e2);
        }
    }
    let (offset_from, p1) = match read_vint(b, pos) {
        None => { return None; },
        Some(x) => x,
    };
    let (offset_to, p2) = match read_vint(b, p1) {
        None => { return None; },
        Some(x) => x,
    };
    let (position, p3) = match read_vint(b, p2) {
        None => { return None; },
        Some(x) => x,
    };
    let (position_length, p4) = match read_vint(b, p3) {
        None => { return None; },
        Some(x) => x,
    };
    let (text, p5) = match read_str(b, p4) {
        None => { return None; },
        Some(x) => x,
    };
    let t = Token { offset_from, offset_to, position, text, position_length };
    proof {
        let e1 = vint_bytes(offset_from);
        let e2 = vint_bytes(offset_to);
        let e3 = vint_bytes(position);
        let e4 = vint_bytes(position_length);
        let e5 = str_bytes(t.text@);
        lemma_holds_at_concat(b@, pos as int, e1, e2);
        lemma_holds_at_concat(b@, pos as int, e1 + e2, e3);
        lemma_holds_at_concat(b@, pos as int, e1 + e2 + e3, e4);
        lemma_holds_at_concat(b@, pos as int, e1 + e2 + e3 + e4, e5);
    }
    Some((t, p5))
}

proof fn lemma_tokens_prefix(ms: Seq<TokenModel>, k: int)
    requires
        0 <= k <= ms.len(),
    ensures
        tokens_bytes(ms.take(k)).len() <= tokens_bytes(ms).len(),
        tokens_bytes(ms).subrange(0, tokens_bytes(ms.take(k)).len() as int) == tokens_bytes(ms.take(k)),
        tokens_bytes(ms).len() >= ms.len(),
    decreases ms.len(),
{
    if ms.len() > 0 {
        let d = ms.drop_last();
        lemma_vint_nonempty(ms.last().offset_from);
        if k == ms.len() {
            assert(ms.take(k) == ms);
            lemma_tokens_prefix(d, 0);
        } else {
            assert(ms.take(k) == d.take(k));
            lemma_tokens_prefix(d, k);
            let a = tokens_bytes(d);
            let t = token_bytes(ms.last());
            assert((a + t).subrange(0, tokens_bytes(d.take(k)).len() as int) == a.subrange(
                0,
                tokens_bytes(d.take(k)).len() as int,
            ));
        }
    } else {
        assert(ms.take(k) == ms);
    }
}

proof fn lemma_vint_nonempty(v: u64)
    ensures
        vint_bytes(v).len() >= 1,
{
}

proof fn lemma_holds_at_prefix(b: Seq<u8>, pos: int, e: Seq<u8>, n: int)
    requires
        holds_at(b, pos, e),
        0 <= n <= e.len(),
    ensures
        holds_at(b, pos, e.subrange(0, n)),
{
    assert(b.subrange(pos, pos + n) == b.subrange(pos, pos + e.len()).subrange(0, n));
}

#[verifier::spinoff_prover]
#[verifier::rlimit(60)]
fn read_tokens(b: &[u8], pos: usize) -> (r: Option<(Vec<Token>, usize)>)
    requires
        pos <= b@.len(),
    ensures
        r matches Some((v, end)) ==> end == pos + (vint_bytes(v@.len() as u64) + tokens_bytes(
            tokens_model(v@),
        )).len() && holds_at(
            b@,
            pos as int,
            vint_bytes(v@.len() as u64) + tokens_bytes(tokens_model(v@)),
        ),
        forall|ms: Seq<TokenModel>|
            holds_at(b@, pos as int, #[trigger] (vint_bytes(ms.len() as u64) + tokens_bytes(ms))) ==> (r matches Some((v, end))
                && tokens_model(v@) == ms && end == pos + (vint_bytes(ms.len() as u64) + tokens_bytes(ms)).len()),
{
    let blen = b.len();
    assert(blen <= u64::MAX);
    let (count, p1) = match read_vint(b, pos) {
        None => {
            proof {
                assert forall|ms: Seq<TokenModel>|
                    holds_at(b@, pos as int, #[trigger] (vint_bytes(ms.len() as u64) + tokens_bytes(ms))) implies false by {
                    lemma_holds_at_concat(b@, pos as int, vint_bytes(ms.len() as u64), tokens_bytes(ms));
                }
            }
            return None;
        },
        Some(x) => x,
    };
    proof {
        assert forall|ms: Seq<TokenModel>|
            holds_at(b@, pos as int, #[trigger] (vint_bytes(ms.len() as u64) + tokens_bytes(ms))) implies
                count == ms.len() && p1 == pos + vint_bytes(ms.len() as u64).len()
                && holds_at(b@, p1 as int, tokens_bytes(ms)) && ms.take(0) == Seq::<TokenModel>::empty() by {
            lemma_holds_at_concat(b@, pos as int, vint_bytes(ms.len() as u64), tokens_bytes(ms));
            lemma_tokens_prefix(ms, 0);
            assert(ms.len() <= b@.len());
            assert(ms.len() <= u64::MAX);
        }
        assert(b@.subrange(p1 as int, p1 as int) == Seq::<u8>::empty());
        assert(tokens_model(Seq::<Token>::empty()) == Seq::<TokenModel>::empty());
    }
    let mut out: Vec<Token> = Vec::new();
    let mut cur = p1;
    let mut i: u64 = 0;
    while i < count
        invariant
            p1 <= cur <= b@.len(),
            i <= count,
            out@.len() == i,
            cur == p1 + tokens_bytes(tokens_model(out@)).len(),
            holds_at(b@, p1 as int, tokens_bytes(tokens_model(out@))),
            forall|ms: Seq<TokenModel>|
                holds_at(b@, pos as int, #[trigger] (vint_bytes(ms.len() as u64) + tokens_bytes(ms))) ==> count == ms.len()
                    && holds_at(b@, p1 as int, tokens_bytes(ms)) && tokens_model(out@) == ms.take(i as int),
        decreases count - i,
    {
        let ghost before = tokens_model(out@);
        proof {
            assert forall|ms: Seq<TokenModel>|
                holds_at(b@, pos as int, #[trigger] (vint_bytes(ms.len() as u64) + tokens_bytes(ms))) implies
                    holds_at(b@, cur as int, token_bytes(ms[i as int])) && ms.take(i + 1) == before.push(ms[i as int]) by {
                lemma_tokens_prefix(ms, i + 1);
                let tk = ms.take(i + 1);
                assert(tk.drop_last() == ms.take(i as int));
                assert(tokens_bytes(tk) == tokens_bytes(before) + token_bytes(ms[i as int]));
                lemma_holds_at_prefix(b@, p1 as int, tokens_bytes(ms), tokens_bytes(tk).len() as int);
                lemma_holds_at_concat(b@, p1 as int, tokens_bytes(before), token_bytes(ms[i as int]));
            }
        }
        let (t, next) = match read_token(b, cur) {
            None => {
                proof {
                    assert forall|ms: Seq<TokenModel>|
                        holds_at(b@, pos as int, #[trigger] (vint_bytes(ms.len() as u64) + tokens_bytes(ms))) implies false by {
                        assert(holds_at(b@, cur as int, token_bytes(ms[i as int])));
                    }
                }
                return None;
            },
            Some(x) => x,
        };
        proof {
            lemma_holds_at_concat(b@, p1 as int, tokens_bytes(before), token_bytes(token_model(t)));
            assert(before.push(token_model(t)).drop_last() == before);
        }
        let ghost before_out = out@;
        out.push(t);
        assert(tokens_model(out@) == tokens_model(before_out).push(token_model(t)));
        proof {
            assert forall|ms: Seq<TokenModel>|
                holds_at(b@, pos as int, #[trigger] (vint_bytes(ms.len() as u64) + tokens_bytes(ms))) implies
                    tokens_model(out@) == ms.take(i + 1) by {
                assert(holds_at(b@, cur as int, token_bytes(ms[i as int])));
            }
        }
        cur = next;
        i = i + 1;
    }
    proof {
        lemma_holds_at_concat(b@, pos as int, vint_bytes(count), tokens_bytes(tokens_model(out@)));
        assert forall|ms: Seq<TokenModel>|
            holds_at(b@, pos as int, #[trigger] (vint_bytes(ms.len() as u64) + tokens_bytes(ms))) implies
                tokens_model(out@) == ms by {
            assert(ms.take(count as int) == ms);
        }
    }
    Some((out, cur))
}

#[verifier::spinoff_prover]
#[verifier::rlimit(60)]
fn read_value(b: &[u8], pos: usize) -> (r: Option<(Value, usize)>)
    requires
        pos <= b@.len(),
    ensures
        r matches Some((v, end)) ==> end == pos + value_bytes(value_model(v)).len() && holds_at(
            b@,
            pos as int,
            value_bytes(value_model(v)),
        ),
        forall|m: ValueModel|
            holds_at(b@, pos as int, #[trigger] value_bytes(m)) ==> (r matches Some((v, end))
                && value_model(v) == m && end == pos + value_bytes(m).len()),
{
    if pos >= b.len() {
        return None;
    }
    let tag = b[pos];
    let p1 = pos + 1;
    proof {
        assert forall|m: ValueModel| holds_at(b@, pos as int, #[trigger] value_bytes(m)) implies value_tag(m)
            == tag && holds_at(b@, p1 as int, value_body_bytes(m)) by {
            lemma_holds_at_concat(b@, pos as int, seq![value_tag(m)], value_body_bytes(m));
            assert(b@.subrange(pos as int, pos + 1)[0] == b@[pos as int]);
        }
        assert(holds_at(b@, pos as int, seq![tag])) by {
            assert(b@.subrange(pos as int, pos + 1) == seq![tag]);
        }
    }
    if tag == 0 {
        match read_str(b, p1) {
            None => {
                proof {
                    assert forall|m: ValueModel| holds_at(b@, pos as int, #[trigger] value_bytes(m)) implies false by {
                        match m {
                            ValueModel::Str(t) => {
                                assert(holds_at(b@, p1 as int, str_bytes(t)));
                            },
                            _ => {},
                        }
                    }
                }
                None
            },
            Some((x, end)) => {
                let v = Value::Str(x);
                proof {
                    lemma_holds_at_concat(b@, pos as int, seq![tag], value_body_bytes(value_model(v)));
                    assert forall|m: ValueModel| holds_at(b@, pos as int, #[trigger] value_bytes(m)) implies value_model(v) == m
                        && end == pos + value_bytes(m).len() by {
                        match m {
                            ValueModel::Str(t) => {
                                assert(holds_at(b@, p1 as int, str_bytes(t)));
                            },
                            _ => {},
                        }
                    }
                }
                Some((v, end))
            },
        }
    } else if tag == 1 {
        match read_u64(b, p1) {
            None => {
                proof {
                    assert forall|m: ValueModel| holds_at(b@, pos as int, #[trigger] value_bytes(m)) implies false by {
                        match m {
                            ValueModel::U64(t) => {
                                assert(holds_at(b@, p1 as int, u64_bytes(t)));
                            },
                            _ => {},
                        }
                    }
                }
                None
            },
            Some((x, end)) => {
                let v = Value::U64(x);
                proof {
                    lemma_holds_at_concat(b@, pos as int, seq![tag], value_body_bytes(value_model(v)));
                    assert forall|m: ValueModel| holds_at(b@, pos as int, #[trigger] value_bytes(m)) implies value_model(v) == m
                        && end == pos + value_bytes(m).len() by {
                        match m {
                            ValueModel::U64(t) => {
                                assert(holds_at(b@, p1 as int, u64_bytes(t)));
                            },
                            _ => {},
                        }
                    }
                }
                Some((v, end))
            },
        }
    } else if tag == 2 {
        match read_u64(b, p1) {
            None => {
                proof {
                    assert forall|m: ValueModel| holds_at(b@, pos as int, #[trigger] value_bytes(m)) implies false by {
                        match m {
                            ValueModel::I64(t) => {
                                assert(holds_at(b@, p1 as int, u64_bytes(t as u64)));
                            },
                            _ => {},
                        }
                    }
                }
                None
            },
            Some((x, end)) => {
                let v = Value::I64(x as i64);
                proof {
                    let w = x as i64;
                    assert((w as u64) == x) by (bit_vector)
                        requires
                            w == x as i64,
                    ;
                    lemma_holds_at_concat(b@, pos as int, seq![tag], value_body_bytes(value_model(v)));
                    assert forall|m: ValueModel| holds_at(b@, pos as int, #[trigger] value_bytes(m)) implies value_model(v) == m
                        && end == pos + value_bytes(m).len() by {
                        match m {
                            ValueModel::I64(t) => {
                                assert(holds_at(b@, p1 as int, u64_bytes(t as u64)));
                                assert(((t as u64) as i64) == t) by (bit_vector);
                            },
                            _ => {},
                        }
                    }
                }
                Some((v, end))
            },
        }
    } else if tag == 3 {
        match read_str(b, p1) {
            None => {
                proof {
                    assert forall|m: ValueModel| holds_at(b@, pos as int, #[trigger] value_bytes(m)) implies false by {
                        match m {
                            ValueModel::Facet(t) => {
                                assert(holds_at(b@, p1 as int, str_bytes(t)));
                            },
                            _ => {},
                        }
                    }
                }
                None
            },
            Some((x, end)) => {
                let v = Value::Facet(Facet { encoded: x });
                proof {
                    lemma_holds_at_concat(b@, pos as int, seq![tag], value_body_bytes(value_model(v)));
                    assert forall|m: ValueModel| holds_at(b@, pos as int, #[trigger] value_bytes(m)) implies value_model(v) == m
                        && end == pos + value_bytes(m).len() by {
                        match m {
                            ValueModel::Facet(t) => {
                                assert(holds_at(b@, p1 as int, str_bytes(t)));
                            },
                            _ => {},
                        }
                    }
                }
                Some((v, end))
            },
        }
    } else if tag == 4 {
        match read_blob(b, p1) {
            None => {
                proof {
                    assert forall|m: ValueModel| holds_at(b@, pos as int, #[trigger] value_bytes(m)) implies false by {
                        match m {
                            ValueModel::Bytes(t) => {
                                assert(holds_at(b@, p1 as int, blob_bytes(t)));
                            },
                            _ => {},
                        }
                    }
                }
                None
            },
            Some((x, end)) => {
                let v = Value::Bytes(x);
                proof {
                    lemma_holds_at_concat(b@, pos as int, seq![tag], value_body_bytes(value_model(v)));
                    assert forall|m: ValueModel| holds_at(b@, pos as int, #[trigger] value_bytes(m)) implies value_model(v) == m
                        && end == pos + value_bytes(m).len() by {
                        match m {
                            ValueModel::Bytes(t) => {
                                assert(holds_at(b@, p1 as int, blob_bytes(t)));
                            },
                            _ => {},
                        }
                    }
                }
                Some((v, end))
            },
        }
    } else if tag == 5 {
        match read_u64(b, p1) {
            None => {
                proof {
                    assert forall|m: ValueModel| holds_at(b@, pos as int, #[trigger] value_bytes(m)) implies false by {
                        match m {
                            ValueModel::Date(t) => {
                                assert(holds_at(b@, p1 as int, u64_bytes(t as u64)));
                            },
                            _ => {},
                        }
                    }
                }
                None
            },
            Some((x, end)) => {
                let v = Value::Date(DateTime { timestamp: x as i64 });
                proof {
                    let w = x as i64;
                    assert((w as u64) == x) by (bit_vector)
                        requires
                            w == x as i64,
                    ;
                    lemma_holds_at_concat(b@, pos as int, seq![tag], value_body_bytes(value_model(v)));
                    assert forall|m: ValueModel| holds_at(b@, pos as int, #[trigger] value_bytes(m)) implies value_model(v) == m
                        && end == pos + value_bytes(m).len() by {
                        match m {
                            ValueModel::Date(t) => {
                                assert(holds_at(b@, p1 as int, u64_bytes(t as u64)));
                                assert(((t as u64) as i64) == t) by (bit_vector);
                            },
                            _ => {},
                        }
                    }
                }
                Some((v, end))
            },
        }
    } else if tag == 6 {
        match read_u64(b, p1) {
            None => {
                proof {
                    assert forall|m: ValueModel| holds_at(b@, pos as int, #[trigger] value_bytes(m)) implies false by {
                        match m {
                            ValueModel::F64(t) => {
                                assert(holds_at(b@, p1 as int, u64_bytes(t)));
                            },
                            _ => {},
                        }
                    }
                }
                None
            },
            Some((x, end)) => {
                let v = Value::F64(x);
                proof {
                    lemma_holds_at_concat(b@, pos as int, seq![tag], value_body_bytes(value_model(v)));
                    assert forall|m: ValueModel| holds_at(b@, pos as int, #[trigger] value_bytes(m)) implies value_model(v) == m
                        && end == pos + value_bytes(m).len() by {
                        match m {
                            ValueModel::F64(t) => {
                                assert(holds_at(b@, p1 as int, u64_bytes(t)));
                            },
                            _ => {},
                        }
                    }
                }
                Some((v, end))
            },
        }
    } else if tag == 7 {
        let text = read_str(b, p1);
        match text {
            None => {
                proof {
                    assert forall|m: ValueModel| holds_at(b@, pos as int, #[trigger] value_bytes(m)) implies false by {
                        match m {
                            ValueModel::PreTokStr(t, ts) => {
                                let e = str_bytes(t) + vint_bytes(ts.len() as u64);
                                lemma_holds_at_concat(b@, p1 as int, e, tokens_bytes(ts));
                                lemma_holds_at_concat(b@, p1 as int, str_bytes(t), vint_bytes(ts.len() as u64));
                            },
                            _ => {},
                        }
                    }
                }
                None
            },
            Some((s, p2)) => {
                let toks = read_tokens(b, p2);
                proof {
                    assert forall|m: ValueModel| holds_at(b@, pos as int, #[trigger] value_bytes(m)) implies
                        (match m {
                            ValueModel::PreTokStr(t, ts) => s@ == t && holds_at(b@, p2 as int, vint_bytes(ts.len() as u64) + tokens_bytes(ts))
                                && p1 + value_body_bytes(m).len() == p2 + (vint_bytes(ts.len() as u64) + tokens_bytes(ts)).len(),
                            _ => false,
                        }) by {
                        match m {
                            ValueModel::PreTokStr(t, ts) => {
                                let e1 = str_bytes(t);
                                let e2 = vint_bytes(ts.len() as u64);
                                let e3 = tokens_bytes(ts);
                                assert(e1 + e2 + e3 == e1 + (e2 + e3));
                                lemma_holds_at_concat(b@, p1 as int, e1, e2 + e3);
                            },
                            _ => {},
                        }
                    }
                }
                match toks {
                    None => None,
                    Some((tokens, end)) => {
                        let v = Value::PreTokStr(PreTokenizedString { text: s, tokens });
                        proof {
                            let e1 = str_bytes(s@);
                            let e2 = vint_bytes(tokens@.len() as u64);
                            let e3 = tokens_bytes(tokens_model(tokens@));
                            assert(e1 + e2 + e3 == e1 + (e2 + e3));
                            lemma_holds_at_concat(b@, p1 as int, e1, e2 + e3);
                            lemma_holds_at_concat(b@, pos as int, seq![tag], value_body_bytes(value_model(v)));
                        }
                        Some((v, end))
                    },
                }
            },
        }
    } else {
        None
    }
}

#[verifier::spinoff_prover]
#[verifier::rlimit(60)]
fn read_field_value(b: &[u8], pos: usize) -> (r: Option<(FieldValue, usize)>)
    requires
        pos <= b@.len(),
    ensures
        r matches Some((v, end)) ==> end == pos + field_value_bytes(field_value_model(v)).len()
            && holds_at(b@, pos as int, field_value_bytes(field_value_model(v))),
        forall|m: (Field, ValueModel)|
            holds_at(b@, pos as int, #[trigger] field_value_bytes(m)) ==> (r matches Some((v, end))
                && field_value_model(v) == m && end == pos + field_value_bytes(m).len()),
{
    proof {
        assert forall|m: (Field, ValueModel)| holds_at(b@, pos as int, #[trigger] field_value_bytes(m)) implies
            holds_at(b@, pos as int, vint_bytes(m.0.0 as u64)) && holds_at(
                b@,
                pos + vint_bytes(m.0.0 as u64).len(),
                value_bytes(m.1),
            ) by {
            lemma_holds_at_concat(b@, pos as int, vint_bytes(m.0.0 as u64), value_bytes(m.1));
        }
    }
    let (id, p1) = match read_vint(b, pos) {
        None => { return None; },
        Some(x) => x,
    };
    if id > u32::MAX as u64 {
        return None;
    }
    let (value, end) = match read_value(b, p1) {
        None => { return None; },
        Some(x) => x,
    };
    let fv = FieldValue { field: Field(id as u32), value };
    proof {
        lemma_holds_at_concat(b@, pos as int, vint_bytes(id), value_bytes(value_model(value)));
    }
    Some((fv, end))
}

proof fn lemma_field_values_prefix(ms: Seq<(Field, ValueModel)>, k: int)
    requires
        0 <= k <= ms.len(),
    ensures
        field_values_bytes(ms.take(k)).len() <= field_values_bytes(ms).len(),
        field_values_bytes(ms).subrange(0, field_values_bytes(ms.take(k)).len() as int)
            == field_values_bytes(ms.take(k)),
        field_values_bytes(ms).len() >= ms.len(),
    decreases ms.len(),
{
    if ms.len() > 0 {
        let d = ms.drop_last();
        lemma_vint_nonempty(ms.last().0.0 as u64);
        if k == ms.len() {
            assert(ms.take(k) == ms);
            lemma_field_values_prefix(d, 0);
        } else {
            assert(ms.take(k) == d.take(k));
            lemma_field_values_prefix(d, k);
            let a = field_values_bytes(d);
            let t = field_value_bytes(ms.last());
            assert((a + t).subrange(0, field_values_bytes(d.take(k)).len() as int) == a.subrange(
                0,
                field_values_bytes(d.take(k)).len() as int,
            ));
        }
    } else {
        assert(ms.take(k) == ms);
    }
}

/// Decoding of `b` stops at `offset`: either `offset` is 0 and `b` does not
/// start with a pair count, or `b` starts with a count `c` and `k < c`
/// decodable pairs that end at `offset`, where no pair can be decoded.
pub open spec fn fails_at(b: Seq<u8>, offset: int) -> bool {
    ||| offset == 0 && forall|c: u64| !holds_at(b, 0, #[trigger] vint_bytes(c))
    ||| exists|c: u64, ms: Seq<(Field, ValueModel)>|
        ms.len() < c && holds_at(b, 0, #[trigger] (vint_bytes(c) + field_values_bytes(ms)))
            && offset == (vint_bytes(c) + field_values_bytes(ms)).len() && forall|
            m: (Field, ValueModel),
        | !holds_at(b, offset, #[trigger] field_value_bytes(m))
}

/// Decodes one document from the front of `b` and returns it with the
/// number of bytes it took; bytes after it are left alone. On failure,
/// returns the offset of the part that could not be decoded: 0 for the
/// count, else the start of the first undecodable pair.
#[verifier::spinoff_prover]
#[verifier::rlimit(60)]
pub fn read_document_prefix(b: &[u8]) -> (r: Result<(Vec<FieldValue>, usize), usize>)
    ensures
        r matches Ok((v, n)) ==> n == document_bytes(document_model(v@)).len() && holds_at(
            b@,
            0,
            document_bytes(document_model(v@)),
        ),
        r matches Err(offset) ==> offset <= b@.len() && fails_at(b@, offset as int),
        forall|ms: Seq<(Field, ValueModel)>|
            holds_at(b@, 0, #[trigger] document_bytes(ms)) ==> (r matches Ok((v, n)) && document_model(
                v@,
            ) == ms && n == document_bytes(ms).len()),
{
    let blen = b.len();
    assert(blen <= u64::MAX);
    let (count, p1) = match read_vint(b, 0) {
        None => {
            proof {
                assert forall|ms: Seq<(Field, ValueModel)>| holds_at(b@, 0, #[trigger] document_bytes(ms)) implies false by {
                    lemma_holds_at_concat(b@, 0, vint_bytes(ms.len() as u64), field_values_bytes(ms));
                }
            }
            proof {
                assert forall|c: u64| !holds_at(b@, 0, #[trigger] vint_bytes(c)) by {}
            }
            return Err(0);
        },
        Some(x) => x,
    };
    proof {
        assert forall|ms: Seq<(Field, ValueModel)>| holds_at(b@, 0, #[trigger] document_bytes(ms)) implies count == ms.len()
            && p1 + field_values_bytes(ms).len() <= b@.len() && holds_at(b@, p1 as int, field_values_bytes(ms))
            && ms.take(0) == Seq::<(Field, ValueModel)>::empty() by {
            lemma_holds_at_concat(b@, 0, vint_bytes(ms.len() as u64), field_values_bytes(ms));
            lemma_field_values_prefix(ms, 0);
            assert(ms.len() <= b@.len());
        }
        assert(b@.subrange(p1 as int, p1 as int) == Seq::<u8>::empty());
        assert(document_model(Seq::<FieldValue>::empty()) == Seq::<(Field, ValueModel)>::empty());
    }
    let mut out: Vec<FieldValue> = Vec::new();
    let mut cur = p1;
    let mut i: u64 = 0;
    while i < count
        invariant
            p1 == vint_bytes(count).len(),
            holds_at(b@, 0, vint_bytes(count)),
            p1 <= cur <= b@.len(),
            i <= count,
            out@.len() == i,
            cur == p1 + field_values_bytes(document_model(out@)).len(),
            holds_at(b@, p1 as int, field_values_bytes(document_model(out@))),
            forall|ms: Seq<(Field, ValueModel)>|
                holds_at(b@, 0, #[trigger] document_bytes(ms)) ==> count == ms.len() && holds_at(
                    b@,
                    p1 as int,
                    field_values_bytes(ms),
                ) && document_model(out@) == ms.take(i as int),
        decreases count - i,
    {
        let ghost before = document_model(out@);
        proof {
            assert forall|ms: Seq<(Field, ValueModel)>| holds_at(b@, 0, #[trigger] document_bytes(ms)) implies holds_at(
                b@,
                cur as int,
                field_value_bytes(ms[i as int]),
            ) && ms.take(i + 1) == before.push(ms[i as int]) by {
                lemma_field_values_prefix(ms, i + 1);
                let tk = ms.take(i + 1);
                assert(tk.drop_last() == ms.take(i as int));
                assert(field_values_bytes(tk) == field_values_bytes(before) + field_value_bytes(ms[i as int]));
                lemma_holds_at_prefix(b@, p1 as int, field_values_bytes(ms), field_values_bytes(tk).len() as int);
                lemma_holds_at_concat(b@, p1 as int, field_values_bytes(before), field_value_bytes(ms[i as int]));
            }
        }
        let (fv, next) = match read_field_value(b, cur) {
            None => {
                proof {
                    assert forall|ms: Seq<(Field, ValueModel)>| holds_at(b@, 0, #[trigger] document_bytes(ms)) implies false by {
                        assert(holds_at(b@, cur as int, field_value_bytes(ms[i as int])));
                    }
                }
                proof {
                    let ms = document_model(out@);
                    lemma_holds_at_concat(b@, 0, vint_bytes(count), field_values_bytes(ms));
                    assert(ms.len() < count);
                    assert forall|m: (Field, ValueModel)| !holds_at(b@, cur as int, #[trigger] field_value_bytes(m)) by {}
                    let w = vint_bytes(count) + field_values_bytes(ms);
                    assert(holds_at(b@, 0, w));
                    assert(cur == w.len());
                    assert(ms.len() < count && holds_at(b@, 0, w) && cur == w.len() && forall|
                        m: (Field, ValueModel),
                    | !holds_at(b@, cur as int, #[trigger] field_value_bytes(m)));
                    assert(fails_at(b@, cur as int));
                }
                return Err(cur);
            },
            Some(x) => x,
        };
        proof {
            lemma_holds_at_concat(b@, p1 as int, field_values_bytes(before), field_value_bytes(field_value_model(fv)));
            assert(before.push(field_value_model(fv)).drop_last() == before);
        }
        let ghost before_out = out@;
        out.push(fv);
        assert(document_model(out@) == document_model(before_out).push(field_value_model(fv)));
        proof {
            assert forall|ms: Seq<(Field, ValueModel)>| holds_at(b@, 0, #[trigger] document_bytes(ms)) implies document_model(out@)
                == ms.take(i + 1) by {
                assert(holds_at(b@, cur as int, field_value_bytes(ms[i as int])));
            }
        }
        cur = next;
        i = i + 1;
    }
    proof {
        lemma_holds_at_concat(b@, 0, vint_bytes(count), field_values_bytes(document_model(out@)));
        assert forall|ms: Seq<(Field, ValueModel)>| holds_at(b@, 0, #[trigger] document_bytes(ms)) implies document_model(out@)
            == ms by {
            assert(ms.take(count as int) == ms);
        }
    }
    Ok((out, cur))
}

} // verus!
