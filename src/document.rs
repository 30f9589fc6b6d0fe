//! The document: an ordered bag of `(field, value)` pairs in which a field
//! may repeat.
use crate::binary::{
    document_bytes, document_model, fails_at, holds_at, read_document_prefix, write_document,
};
use crate::schema::{DateTime, Facet, Field, FieldValue, PreTokenizedString, Value, ValueModel};
use vstd::prelude::*;

verus! {

/// The values of field `f` in `s`, in their relative order.
pub open spec fn values_for(s: Seq<FieldValue>, f: Field) -> Seq<Value>
    decreases s.len(),
{
    if s.len() == 0 {
        Seq::empty()
    } else if s.last().field == f {
        values_for(s.drop_last(), f).push(s.last().value)
    } else {
        values_for(s.drop_last(), f)
    }
}

/// The pairs of field `f` in `s`, in their relative order.
pub open spec fn entries_for(s: Seq<FieldValue>, f: Field) -> Seq<FieldValue>
    decreases s.len(),
{
    if s.len() == 0 {
        Seq::empty()
    } else if s.last().field == f {
        entries_for(s.drop_last(), f).push(s.last())
    } else {
        entries_for(s.drop_last(), f)
    }
}

/// The elements of `s` whose flag in `keep` is set, in order.
pub open spec fn masked(s: Seq<FieldValue>, keep: Seq<bool>) -> Seq<FieldValue>
    decreases s.len(),
{
    if s.len() == 0 || keep.len() == 0 {
        Seq::empty()
    } else if keep.last() {
        masked(s.drop_last(), keep.drop_last()).push(s.last())
    } else {
        masked(s.drop_last(), keep.drop_last())
    }
}

/// What the document store keeps of a pair: pre-tokenized text becomes
/// its plain text, every other value stays as it is.
pub open spec fn stored(fv: FieldValue) -> FieldValue {
    match fv.value {
        Value::PreTokStr(p) => FieldValue { field: fv.field, value: Value::Str(p.text) },
        _ => fv,
    }
}

pub open spec fn deref_entries(s: Seq<&FieldValue>) -> Seq<FieldValue> {
    s.map_values(|x: &FieldValue| *x)
}

pub open spec fn deref_values(s: Seq<&Value>) -> Seq<Value> {
    s.map_values(|x: &Value| *x)
}

pub open spec fn has_field(s: Seq<FieldValue>, f: Field) -> bool {
    exists|k: int| 0 <= k < s.len() && (#[trigger] s[k]).field == f
}

pub open spec fn above(f: Field, bound: Option<Field>) -> bool {
    match bound {
        None => true,
        Some(b) => f.0 > b.0,
    }
}

/// A list of pairs `(field, value)`; one field may appear more than once.
#[derive(Clone, Debug)]
pub struct Document {
    field_values: Vec<FieldValue>,
}

impl View for Document {
    type V = Seq<FieldValue>;

    closed spec fn view(&self) -> Seq<FieldValue> {
        self.field_values@
    }
}

impl Default for Document {
    fn default() -> (r: Document)
        ensures
            r@ == Seq::<FieldValue>::empty(),
    {
        Document { field_values: Vec::new() }
    }
}

impl From<Vec<FieldValue>> for Document {
    fn from(field_values: Vec<FieldValue>) -> (r: Document) {
        Document { field_values }
    }
}

impl vstd::std_specs::convert::FromSpecImpl<Vec<FieldValue>> for Document {
    open spec fn obeys_from_spec() -> bool {
        true
    }

    closed spec fn from_spec(v: Vec<FieldValue>) -> Document {
        Document { field_values: v }
    }
}

fn copy_tokens(ts: &Vec<crate::schema::Token>) -> (r: Vec<crate::schema::Token>)
    ensures
        crate::schema::tokens_model(r@) == crate::schema::tokens_model(ts@),
{
    let mut out: Vec<crate::schema::Token> = Vec::new();
    let mut i: usize = 0;
    while i < ts.len()
        invariant
            0 <= i <= ts@.len(),
            out@.len() == i,
            forall|k: int|
                0 <= k < i ==> crate::schema::token_model(#[trigger] out@[k]) == crate::schema::token_model(
                    ts@[k],
                ),
        decreases ts@.len() - i,
    {
        let t = &ts[i];
        let c = crate::schema::Token {
            offset_from: t.offset_from,
            offset_to: t.offset_to,
            position: t.position,
            text: t.text.clone(),
            position_length: t.position_length,
        };
        out.push(c);
        i += 1;
    }
    assert(crate::schema::tokens_model(out@) =~= crate::schema::tokens_model(ts@));
    out
}

proof fn lemma_entries_push(s: Seq<FieldValue>, x: FieldValue, f: Field)
    ensures
        entries_for(s.push(x), f) == if x.field == f {
            entries_for(s, f).push(x)
        } else {
            entries_for(s, f)
        },
        values_for(s.push(x), f) == if x.field == f {
            values_for(s, f).push(x.value)
        } else {
            values_for(s, f)
        },
{
    assert(s.push(x).drop_last() == s);
}

impl Document {
    /// Creates an empty document.
    pub fn new() -> (r: Document)
        ensures
            r@ == Seq::<FieldValue>::empty(),
    {
        Document::default()
    }

    /// Number of `(field, value)` pairs.
    pub fn len(&self) -> (r: usize)
        ensures
            r == self@.len(),
    {
        self.field_values.len()
    }

    /// True iff the document holds no pair.
    pub fn is_empty(&self) -> (r: bool)
        ensures
            r == (self@.len() == 0),
    {
        self.field_values.len() == 0
    }

    /// Appends a pair; no deduplication.
    pub fn add(&mut self, field_value: FieldValue)
        ensures
            final(self)@ == old(self)@.push(field_value),
    {
        self.field_values.push(field_value);
    }

    pub fn add_facet(&mut self, field: Field, path: Facet)
        ensures
            final(self)@ == old(self)@.push(FieldValue { field, value: Value::Facet(path) }),
    {
        self.add(FieldValue::new(field, Value::Facet(path)));
    }

    pub fn add_text(&mut self, field: Field, text: &str)
        ensures
            final(self)@.len() == old(self)@.len() + 1,
            final(self)@.drop_last() == old(self)@,
            final(self)@.last().field == field,
            final(self)@.last().value matches Value::Str(s) && s@ == text@,
    {
        let s = text.to_owned();
        self.add(FieldValue::new(field, Value::Str(s)));
        assert(self@.drop_last() == old(self)@);
    }

    /// Adds a pre-tokenized text value; the caller's value is copied.
    pub fn add_pre_tokenized_text(&mut self, field: Field, pre_tokenized_text: &PreTokenizedString)
        ensures
            final(self)@.len() == old(self)@.len() + 1,
            final(self)@.drop_last() == old(self)@,
            final(self)@.last().field == field,
            final(self)@.last().value matches Value::PreTokStr(p) && p.text@
                == pre_tokenized_text.text@ && crate::schema::tokens_model(p.tokens@)
                == crate::schema::tokens_model(pre_tokenized_text.tokens@),
    {
        let text = pre_tokenized_text.text.clone();
        let tokens = copy_tokens(&pre_tokenized_text.tokens);
        let p = PreTokenizedString { text, tokens };
        self.add(FieldValue::new(field, Value::PreTokStr(p)));
        assert(self@.drop_last() == old(self)@);
    }

    pub fn add_u64(&mut self, field: Field, value: u64)
        ensures
            final(self)@ == old(self)@.push(FieldValue { field, value: Value::U64(value) }),
    {
        self.add(FieldValue::new(field, Value::U64(value)));
    }

    pub fn add_i64(&mut self, field: Field, value: i64)
        ensures
            final(self)@ == old(self)@.push(FieldValue { field, value: Value::I64(value) }),
    {
        self.add(FieldValue::new(field, Value::I64(value)));
    }

    /// Adds a 64-bit float, given by its IEEE-754 bit pattern.
    pub fn add_f64(&mut self, field: Field, value_bits: u64)
        ensures
            final(self)@ == old(self)@.push(FieldValue { field, value: Value::F64(value_bits) }),
    {
        self.add(FieldValue::new(field, Value::F64(value_bits)));
    }

    pub fn add_date(&mut self, field: Field, value: &DateTime)
        ensures
            final(self)@ == old(self)@.push(FieldValue { field, value: Value::Date(*value) }),
    {
        self.add(FieldValue::new(field, Value::Date(*value)));
    }

    pub fn add_bytes(&mut self, field: Field, value: Vec<u8>)
        ensures
            final(self)@ == old(self)@.push(FieldValue { field, value: Value::Bytes(value) }),
    {
        self.add(FieldValue::new(field, Value::Bytes(value)));
    }

    /// The pairs, in insertion order.
    pub fn field_values(&self) -> (r: &[FieldValue])
        ensures
            r@ == self@,
    {
        self.field_values.as_slice()
    }
}


impl Document {
    /// All values of `field`, in their relative order.
    pub fn get_all(&self, field: Field) -> (r: Vec<&Value>)
        ensures
            deref_values(r@) == values_for(self@, field),
    {
        let mut out: Vec<&Value> = Vec::new();
        let mut i: usize = 0;
        while i < self.field_values.len()
            invariant
                0 <= i <= self@.len(),
                deref_values(out@) == values_for(self@.subrange(0, i as int), field),
            decreases self@.len() - i,
        {
            let fv = &self.field_values[i];
            proof {
                lemma_entries_push(self@.subrange(0, i as int), *fv, field);
                assert(self@.subrange(0, i as int).push(*fv) == self@.subrange(0, i + 1));
            }
            if fv.field == field {
                out.push(&fv.value);
            }
            assert(deref_values(out@) == values_for(self@.subrange(0, i + 1), field));
            i += 1;
        }
        assert(self@.subrange(0, self@.len() as int) == self@);
        out
    }

    /// The first value of `field`, if any.
    pub fn get_first(&self, field: Field) -> (r: Option<&Value>)
        ensures
            values_for(self@, field).len() == 0 ==> r.is_none(),
            values_for(self@, field).len() > 0 ==> r == Some(&values_for(self@, field)[0]),
    {
        let mut i: usize = 0;
        while i < self.field_values.len()
            invariant
                0 <= i <= self@.len(),
                values_for(self@.subrange(0, i as int), field).len() == 0,
            decreases self@.len() - i,
        {
            let fv = &self.field_values[i];
            proof {
                lemma_entries_push(self@.subrange(0, i as int), *fv, field);
                assert(self@.subrange(0, i as int).push(*fv) == self@.subrange(0, i + 1));
            }
            if fv.field == field {
                proof {
                    lemma_values_prefix(self@, i + 1, field);
                }
                return Some(&fv.value);
            }
            i += 1;
        }
        assert(self@.subrange(0, self@.len() as int) == self@);
        None
    }

    /// Keeps only the pairs whose field satisfies `predicate`, in their
    /// relative order.
    pub fn filter_fields<P: Fn(Field) -> bool>(&mut self, predicate: P)
        requires
            forall|f: Field| predicate.requires((f,)),
        ensures
            exists|keep: Seq<bool>|
                keep.len() == old(self)@.len() && (forall|i: int|
                    0 <= i < keep.len() ==> predicate.ensures(
                        (old(self)@[i].field,),
                        #[trigger] keep[i],
                    )) && final(self)@ == masked(old(self)@, keep),
    {
        let mut rest: Vec<FieldValue> = Vec::new();
        std::mem::swap(&mut rest, &mut self.field_values);
        let ghost all = rest@;
        let ghost mut keep: Seq<bool> = Seq::empty();
        let mut out: Vec<FieldValue> = Vec::new();
        while rest.len() > 0
            invariant
                forall|f: Field| predicate.requires((f,)),
                keep.len() <= all.len(),
                rest@ == all.subrange(keep.len() as int, all.len() as int),
                out@ == masked(all.subrange(0, keep.len() as int), keep),
                forall|i: int|
                    0 <= i < keep.len() ==> predicate.ensures((all[i].field,), #[trigger] keep[i]),
            decreases rest@.len(),
        {
            let fv = rest.remove(0);
            let b = predicate(fv.field);
            proof {
                let n = keep.len() as int;
                assert(fv == all[n]);
                assert(all.subrange(0, n).push(fv) == all.subrange(0, n + 1));
                assert(keep.push(b).drop_last() == keep);
                assert(all.subrange(0, n + 1).drop_last() == all.subrange(0, n));
                keep = keep.push(b);
            }
            if b {
                out.push(fv);
            }
            assert(rest@ == all.subrange(keep.len() as int, all.len() as int));
        }
        assert(keep.len() == all.len());
        assert(all.subrange(0, all.len() as int) == all);
        self.field_values = out;
        assert(all == old(self)@);
        assert(self@ == masked(old(self)@, keep));
    }

    /// Replaces every pre-tokenized text by its plain text; the number and
    /// order of the pairs, and every other value, are kept.
    pub fn prepare_for_store(&mut self)
        ensures
            final(self)@ == old(self)@.map_values(|fv: FieldValue| stored(fv)),
    {
        let mut i: usize = 0;
        while i < self.field_values.len()
            invariant
                0 <= i <= self@.len(),
                self@.len() == old(self)@.len(),
                forall|k: int| 0 <= k < i ==> self@[k] == stored(old(self)@[k]),
                forall|k: int| i <= k < self@.len() ==> self@[k] == old(self)@[k],
            decreases self@.len() - i,
        {
            let replacement = match &self.field_values[i].value {
                Value::PreTokStr(p) => Some(
                    FieldValue::new(self.field_values[i].field, Value::Str(p.text.clone())),
                ),
                _ => None,
            };
            match replacement {
                Some(fv) => {
                    self.field_values.set(i, fv);
                },
                None => {},
            }
            i += 1;
        }
        assert(self@ == old(self)@.map_values(|fv: FieldValue| stored(fv)));
    }
}

proof fn lemma_values_prefix(s: Seq<FieldValue>, i: int, f: Field)
    requires
        0 <= i <= s.len(),
        values_for(s.subrange(0, i), f).len() > 0,
    ensures
        values_for(s, f).len() > 0,
        values_for(s, f)[0] == values_for(s.subrange(0, i), f)[0],
    decreases s.len() - i,
{
    if i < s.len() {
        lemma_entries_push(s.subrange(0, i), s[i], f);
        assert(s.subrange(0, i).push(s[i]) == s.subrange(0, i + 1));
        lemma_values_prefix(s, i + 1, f);
    } else {
        assert(s.subrange(0, i) == s);
    }
}


/// The smallest field of `s` strictly above `bound`, if any.
fn next_field_after(s: &Vec<FieldValue>, bound: Option<Field>) -> (r: Option<Field>)
    ensures
        r is None <==> (forall|k: int| 0 <= k < s@.len() ==> !above(#[trigger] s@[k].field, bound)),
        r matches Some(f) ==> above(f, bound) && has_field(s@, f) && (forall|k: int|
            0 <= k < s@.len() && above(#[trigger] s@[k].field, bound) ==> f.0 <= s@[k].field.0),
{
    let mut best: Option<Field> = None;
    let mut i: usize = 0;
    while i < s.len()
        invariant
            0 <= i <= s@.len(),
            best is None <==> (forall|k: int| 0 <= k < i ==> !above(#[trigger] s@[k].field, bound)),
            best matches Some(f) ==> above(f, bound) && has_field(s@, f) && (forall|k: int|
                0 <= k < i && above(#[trigger] s@[k].field, bound) ==> f.0 <= s@[k].field.0),
        decreases s@.len() - i,
    {
        let f = s[i].field;
        let is_above = match bound {
            None => true,
            Some(b) => f.0 > b.0,
        };
        if is_above {
            match best {
                None => {
                    best = Some(f);
                },
                Some(b) => {
                    if f.0 < b.0 {
                        best = Some(f);
                    }
                },
            }
        }
        i += 1;
    }
    best
}

/// References to the pairs of `field`, in their relative order.
fn collect_entries<'a>(s: &'a Vec<FieldValue>, field: Field) -> (r: Vec<&'a FieldValue>)
    ensures
        deref_entries(r@) == entries_for(s@, field),
{
    let mut out: Vec<&FieldValue> = Vec::new();
    let mut i: usize = 0;
    while i < s.len()
        invariant
            0 <= i <= s@.len(),
            deref_entries(out@) == entries_for(s@.subrange(0, i as int), field),
        decreases s@.len() - i,
    {
        let fv = &s[i];
        proof {
            lemma_entries_push(s@.subrange(0, i as int), *fv, field);
            assert(s@.subrange(0, i as int).push(*fv) == s@.subrange(0, i + 1));
        }
        if fv.field == field {
            out.push(fv);
        }
        assert(deref_entries(out@) == entries_for(s@.subrange(0, i + 1), field));
        i += 1;
    }
    assert(s@.subrange(0, s@.len() as int) == s@);
    out
}

/// The groups of `s`: one per distinct field, in increasing field order,
/// each holding that field's pairs in their relative order.
pub open spec fn is_grouping(s: Seq<FieldValue>, g: Seq<(Field, Seq<FieldValue>)>) -> bool {
    &&& forall|i: int, j: int| 0 <= i < j < g.len() ==> (#[trigger] g[i]).0.0 < (#[trigger] g[j]).0.0
    &&& forall|i: int| 0 <= i < g.len() ==> has_field(s, (#[trigger] g[i]).0)
    &&& forall|i: int| 0 <= i < g.len() ==> (#[trigger] g[i]).1 == entries_for(s, g[i].0)
    &&& forall|k: int| 0 <= k < s.len() ==> has_group(g, (#[trigger] s[k]).field)
}

pub open spec fn has_group(g: Seq<(Field, Seq<FieldValue>)>, f: Field) -> bool {
    exists|i: int| 0 <= i < g.len() && (#[trigger] g[i]).0 == f
}

pub open spec fn groups_view(r: Seq<(Field, Vec<&FieldValue>)>) -> Seq<(Field, Seq<FieldValue>)> {
    r.map_values(|p: (Field, Vec<&FieldValue>)| (p.0, deref_entries(p.1@)))
}

impl Document {
    /// Stable-sorts the pairs by field and groups equal fields. Computed on
    /// every call.
    pub fn get_sorted_field_values(&self) -> (r: Vec<(Field, Vec<&FieldValue>)>)
        ensures
            is_grouping(self@, groups_view(r@)),
    {
        let s = &self.field_values;
        let mut out: Vec<(Field, Vec<&FieldValue>)> = Vec::new();
        let mut bound: Option<Field> = None;
        loop
            invariant
                bound is None <==> out@.len() == 0,
                bound matches Some(b) ==> out@.len() > 0 && out@.last().0 == b,
                forall|i: int, j: int|
                    0 <= i < j < out@.len() ==> (#[trigger] out@[i]).0.0 < (#[trigger] out@[j]).0.0,
                forall|i: int| 0 <= i < out@.len() ==> has_field(s@, (#[trigger] out@[i]).0),
                forall|i: int|
                    0 <= i < out@.len() ==> deref_entries((#[trigger] out@[i]).1@) == entries_for(
                        s@,
                        out@[i].0,
                    ),
                forall|k: int|
                    0 <= k < s@.len() && !above(#[trigger] s@[k].field, bound) ==> exists|i: int|
                        0 <= i < out@.len() && (#[trigger] out@[i]).0 == s@[k].field,
            ensures
                forall|i: int, j: int|
                    0 <= i < j < out@.len() ==> (#[trigger] out@[i]).0.0 < (#[trigger] out@[j]).0.0,
                forall|i: int| 0 <= i < out@.len() ==> has_field(s@, (#[trigger] out@[i]).0),
                forall|i: int|
                    0 <= i < out@.len() ==> deref_entries((#[trigger] out@[i]).1@) == entries_for(
                        s@,
                        out@[i].0,
                    ),
                forall|k: int|
                    0 <= k < s@.len() ==> exists|i: int|
                        0 <= i < out@.len() && (#[trigger] out@[i]).0 == (#[trigger] s@[k]).field,
            decreases match bound {
                None => u32::MAX as int + 1,
                Some(b) => u32::MAX as int - b.0 as int,
            },
        {
            let next = next_field_after(s, bound);
            match next {
                None => {
                    assert forall|k: int| 0 <= k < s@.len() implies exists|i: int|
                        0 <= i < out@.len() && (#[trigger] out@[i]).0 == (#[trigger] s@[k]).field by {
                        assert(!above(s@[k].field, bound));
                    }
                    break ;
                },
                Some(f) => {
                    let group = collect_entries(s, f);
                    let ghost old_out = out@;
                    let ghost old_bound = bound;
                    out.push((f, group));
                    bound = Some(f);
                    assert forall|k: int|
                        0 <= k < s@.len() && !above(#[trigger] s@[k].field, bound) implies exists|i: int|
                        0 <= i < out@.len() && (#[trigger] out@[i]).0 == s@[k].field by {
                        if !above(s@[k].field, old_bound) {
                            let i = choose|i: int| 0 <= i < old_out.len() && (#[trigger] old_out[i]).0 == s@[k].field;
                            assert(out@[i] == old_out[i]);
                        } else {
                            assert(out@[old_out.len() as int].0 == s@[k].field);
                        }
                    }
                },
            }
        }
        assert(s@ == self@);
        let ghost g = groups_view(out@);
        assert(g.len() == out@.len());
        assert forall|i: int| 0 <= i < g.len() implies (#[trigger] g[i]) == (out@[i].0, deref_entries(out@[i].1@)) by {}
        assert forall|k: int| 0 <= k < self@.len() implies has_group(g, (#[trigger] self@[k]).field) by {
            let i = choose|i: int| 0 <= i < out@.len() && (#[trigger] out@[i]).0 == self@[k].field;
            assert(g[i].0 == self@[k].field);
        }
        assert forall|i: int, j: int| 0 <= i < j < g.len() implies (#[trigger] g[i]).0.0 < (#[trigger] g[j]).0.0 by {
            assert(out@[i].0.0 < out@[j].0.0);
        }
        assert forall|i: int| 0 <= i < g.len() implies has_field(self@, (#[trigger] g[i]).0) by {
            assert(has_field(self@, out@[i].0));
        }
        assert forall|i: int| 0 <= i < g.len() implies (#[trigger] g[i]).1 == entries_for(self@, g[i].0) by {
            assert(deref_entries(out@[i].1@) == entries_for(self@, out@[i].0));
        }
        assert(is_grouping(self@, g));
        out
    }
}

/// The bytes given to the decoder do not encode a document.
#[derive(Clone, Copy, Debug, PartialEq, Eq, Structural)]
pub struct DecodingError {
    /// Where decoding failed: 0 when the pair count is unreadable, else the
    /// start of the first pair that could not be decoded (see `fails_at`).
    pub offset: usize,
    /// Length of the rejected input.
    pub input_len: usize,
}

impl Document {
    /// The binary form: `vint(count)` followed by the pairs in order.
    pub fn serialize(&self) -> (r: Vec<u8>)
        ensures
            r@ == document_bytes(document_model(self@)),
    {
        write_document(self.field_values.as_slice())
    }

    /// Decodes the document at the front of `bytes`, keeping the pairs in
    /// the order they were encoded; bytes after it are left unread. Fails iff
    /// no document's encoding starts `bytes`, reporting where decoding
    /// stopped.
    pub fn deserialize(bytes: &[u8]) -> (r: Result<Document, DecodingError>)
        ensures
            r is Ok <==> exists|ms: Seq<(Field, ValueModel)>| holds_at(bytes@, 0, document_bytes(ms)),
            r matches Ok(d) ==> holds_at(bytes@, 0, document_bytes(document_model(d@))),
            forall|ms: Seq<(Field, ValueModel)>|
                holds_at(bytes@, 0, #[trigger] document_bytes(ms)) ==> (r matches Ok(d)
                    && document_model(d@) == ms),
            r matches Err(e) ==> e.input_len == bytes@.len() && e.offset <= bytes@.len() && fails_at(
                bytes@,
                e.offset as int,
            ),
    {
        match Document::deserialize_prefix(bytes) {
            Ok((d, _)) => Ok(d),
            Err(e) => Err(e),
        }
    }

    /// Decodes a document from the front of `bytes`, leaving what follows
    /// it, and returns it with the number of bytes it took. Fails iff no
    /// document's encoding starts `bytes`.
    pub fn deserialize_prefix(bytes: &[u8]) -> (r: Result<(Document, usize), DecodingError>)
        ensures
            r matches Ok((d, n)) ==> n <= bytes@.len() && bytes@.subrange(0, n as int)
                == document_bytes(document_model(d@)),
            forall|ms: Seq<(Field, ValueModel)>|
                holds_at(bytes@, 0, #[trigger] document_bytes(ms)) ==> (r matches Ok((d, n))
                    && document_model(d@) == ms && n == document_bytes(ms).len()),
            r is Ok <==> exists|ms: Seq<(Field, ValueModel)>| holds_at(bytes@, 0, document_bytes(ms)),
            r matches Err(e) ==> e.input_len == bytes@.len() && e.offset <= bytes@.len() && fails_at(
                bytes@,
                e.offset as int,
            ),
    {
        match read_document_prefix(bytes) {
            Ok((field_values, n)) => {
                let d = Document { field_values };
                assert(holds_at(bytes@, 0, document_bytes(document_model(d@))));
                Ok((d, n))
            },
            Err(offset) => Err(DecodingError { offset, input_len: bytes.len() }),
        }
    }
}

/// How many times `x` occurs in `s`.
pub open spec fn occurrences(s: Seq<(Field, ValueModel)>, x: (Field, ValueModel)) -> nat
    decreases s.len(),
{
    if s.len() == 0 {
        0
    } else {
        occurrences(s.drop_last(), x) + if s.last() == x {
            1nat
        } else {
            0nat
        }
    }
}

/// The two lists hold the same pair contents with the same multiplicities,
/// in any order.
pub open spec fn same_pairs(a: Seq<FieldValue>, b: Seq<FieldValue>) -> bool {
    forall|x: (Field, ValueModel)|
        #[trigger] occurrences(document_model(a), x) == occurrences(document_model(b), x)
}

proof fn lemma_occurrences_positive(s: Seq<(Field, ValueModel)>, x: (Field, ValueModel))
    requires
        occurrences(s, x) > 0,
    ensures
        exists|i: int| 0 <= i < s.len() && s[i] == x,
    decreases s.len(),
{
    if s.last() != x {
        lemma_occurrences_positive(s.drop_last(), x);
        let i = choose|i: int| 0 <= i < s.drop_last().len() && s.drop_last()[i] == x;
        assert(s[i] == x);
    } else {
        assert(s[s.len() - 1] == x);
    }
}

fn bytes_eq(a: &Vec<u8>, b: &Vec<u8>) -> (r: bool)
    ensures
        r == (a@ == b@),
{
    if a.len() != b.len() {
        return false;
    }
    let mut i: usize = 0;
    while i < a.len()
        invariant
            a@.len() == b@.len(),
            0 <= i <= a@.len(),
            forall|k: int| 0 <= k < i ==> a@[k] == b@[k],
        decreases a@.len() - i,
    {
        if a[i] != b[i] {
            return false;
        }
        i += 1;
    }
    assert(a@ == b@);
    true
}

fn tokens_eq(a: &Vec<crate::schema::Token>, b: &Vec<crate::schema::Token>) -> (r: bool)
    ensures
        r == (crate::schema::tokens_model(a@) == crate::schema::tokens_model(b@)),
{
    if a.len() != b.len() {
        proof {
            assert(crate::schema::tokens_model(a@).len() != crate::schema::tokens_model(b@).len());
        }
        return false;
    }
    let mut i: usize = 0;
    while i < a.len()
        invariant
            a@.len() == b@.len(),
            0 <= i <= a@.len(),
            forall|k: int|
                0 <= k < i ==> crate::schema::token_model(a@[k]) == crate::schema::token_model(
                    b@[k],
                ),
        decreases a@.len() - i,
    {
        let x = &a[i];
        let y = &b[i];
        if !(x.offset_from == y.offset_from && x.offset_to == y.offset_to && x.position == y.position
            && x.position_length == y.position_length && x.text == y.text) {
            proof {
                assert(crate::schema::tokens_model(a@)[i as int] != crate::schema::tokens_model(
                    b@,
                )[i as int]);
            }
            return false;
        }
        i += 1;
    }
    assert(crate::schema::tokens_model(a@) == crate::schema::tokens_model(b@));
    true
}

fn value_eq(a: &Value, b: &Value) -> (r: bool)
    ensures
        r == (crate::schema::value_model(*a) == crate::schema::value_model(*b)),
{
    match (a, b) {
        (Value::Str(x), Value::Str(y)) => *x == *y,
        (Value::PreTokStr(x), Value::PreTokStr(y)) => x.text == y.text && tokens_eq(
            &x.tokens,
            &y.tokens,
        ),
        (Value::U64(x), Value::U64(y)) => *x == *y,
        (Value::I64(x), Value::I64(y)) => *x == *y,
        (Value::F64(x), Value::F64(y)) => *x == *y,
        (Value::Date(x), Value::Date(y)) => x.timestamp == y.timestamp,
        (Value::Facet(x), Value::Facet(y)) => x.encoded == y.encoded,
        (Value::Bytes(x), Value::Bytes(y)) => bytes_eq(x, y),
        _ => false,
    }
}

fn count_in(s: &Vec<FieldValue>, x: &FieldValue) -> (r: usize)
    ensures
        r == occurrences(document_model(s@), crate::schema::field_value_model(*x)),
{
    let ghost m = crate::schema::field_value_model(*x);
    let mut n: usize = 0;
    let mut i: usize = 0;
    while i < s.len()
        invariant
            0 <= i <= s@.len(),
            n <= i,
            m == crate::schema::field_value_model(*x),
            n == occurrences(document_model(s@.subrange(0, i as int)), m),
        decreases s@.len() - i,
    {
        let y = &s[i];
        proof {
            let d = document_model(s@.subrange(0, i + 1));
            assert(d.drop_last() == document_model(s@.subrange(0, i as int)));
            assert(d.last() == crate::schema::field_value_model(*y));
        }
        let same_field = y.field.0 == x.field.0;
        let same = same_field && value_eq(&y.value, &x.value);
        proof {

            let d = document_model(s@.subrange(0, i + 1));
            assert(same == (crate::schema::field_value_model(*y) == m));
            assert(occurrences(d, m) == occurrences(d.drop_last(), m) + if d.last() == m {
                1nat
            } else {
                0nat
            });
        }
        if same {
            n += 1;
        }
        i += 1;
    }
    assert(s@.subrange(0, s@.len() as int) == s@);
    n
}

/// Some pair of `a` occurs a different number of times in `a` and `b`,
/// unless this returns true.
fn counts_agree(a: &Vec<FieldValue>, b: &Vec<FieldValue>) -> (r: bool)
    ensures
        r ==> forall|i: int|
            0 <= i < a@.len() ==> occurrences(
                document_model(a@),
                #[trigger] crate::schema::field_value_model(a@[i]),
            ) == occurrences(document_model(b@), crate::schema::field_value_model(a@[i])),
        !r ==> !same_pairs(a@, b@),
{
    let mut i: usize = 0;
    while i < a.len()
        invariant
            0 <= i <= a@.len(),
            forall|k: int|
                0 <= k < i ==> occurrences(
                    document_model(a@),
                    #[trigger] crate::schema::field_value_model(a@[k]),
                ) == occurrences(document_model(b@), crate::schema::field_value_model(a@[k])),
        decreases a@.len() - i,
    {
        if count_in(a, &a[i]) != count_in(b, &a[i]) {
            return false;
        }
        i += 1;
    }
    true
}

impl PartialEq for Document {
    /// Order-insensitive: the same pairs with the same multiplicities.
    fn eq(&self, other: &Document) -> (r: bool) {
        let r = counts_agree(&self.field_values, &other.field_values) && counts_agree(
            &other.field_values,
            &self.field_values,
        );
        proof {
            if r {
                let a = document_model(self@);
                let b = document_model(other@);
                assert forall|x: (Field, ValueModel)| #[trigger] occurrences(a, x) == occurrences(b, x) by {
                    if occurrences(a, x) > 0 {
                        lemma_occurrences_positive(a, x);
                        let i = choose|i: int| 0 <= i < a.len() && a[i] == x;
                        assert(crate::schema::field_value_model(self@[i]) == x);
                    } else if occurrences(b, x) > 0 {
                        lemma_occurrences_positive(b, x);
                        let i = choose|i: int| 0 <= i < b.len() && b[i] == x;
                        assert(crate::schema::field_value_model(other@[i]) == x);
                    }
                }
            }
        }
        r
    }
}

impl vstd::std_specs::cmp::PartialEqSpecImpl for Document {
    open spec fn obeys_eq_spec() -> bool {
        true
    }

    open spec fn eq_spec(&self, other: &Document) -> bool {
        same_pairs(self@, other@)
    }
}

/// Preparing for storage twice is preparing once, and a document without
/// pre-tokenized text is left as it is.
pub proof fn lemma_prepare_for_store_idempotent(s: Seq<FieldValue>)
    ensures
        s.map_values(|fv: FieldValue| stored(fv)).map_values(|fv: FieldValue| stored(fv))
            == s.map_values(|fv: FieldValue| stored(fv)),
        (forall|i: int| 0 <= i < s.len() ==> !((#[trigger] s[i]).value is PreTokStr)) ==> s.map_values(
            |fv: FieldValue| stored(fv),
        ) == s,
{
    let once = s.map_values(|fv: FieldValue| stored(fv));
    assert(once.map_values(|fv: FieldValue| stored(fv)) == once);
    if forall|i: int| 0 <= i < s.len() ==> !((#[trigger] s[i]).value is PreTokStr) {
        assert(once == s);
    }
}

/// Two values added under one field are both kept, in the order they were
/// added: `get_all` returns them after the field's earlier values, and a
/// filter that keeps the field keeps both.
pub proof fn lemma_multi_valued_field(s: Seq<FieldValue>, a: FieldValue, b: FieldValue, keep: Seq<bool>)
    requires
        a.field == b.field,
        keep.len() == s.len() + 2,
        keep[s.len() as int],
        keep[s.len() as int + 1],
    ensures
        values_for(s.push(a).push(b), a.field) == values_for(s, a.field).push(a.value).push(b.value),
        masked(s.push(a).push(b), keep) == masked(s, keep.take(s.len() as int)).push(a).push(b),
{
    lemma_entries_push(s, a, a.field);
    lemma_entries_push(s.push(a), b, a.field);
    let t = s.push(a).push(b);
    assert(t.drop_last() == s.push(a));
    assert(t.drop_last().drop_last() == s);
    assert(keep.drop_last().drop_last() == keep.take(s.len() as int));
    assert(keep.last() == keep[s.len() as int + 1]);
    assert(keep.drop_last().last() == keep[s.len() as int]);
    assert(masked(t, keep) == masked(s.push(a), keep.drop_last()).push(b));
    assert(masked(s.push(a), keep.drop_last()) == masked(s, keep.drop_last().drop_last()).push(a));
}

/// Round trip: `deserialize` returns, for the bytes that `serialize` made of
/// a document, a document with the same pair contents in the same order
/// (see their contracts); such a document equals the encoded one and
/// re-encodes to the very same bytes.
pub proof fn lemma_round_trip(source: Seq<FieldValue>, decoded: Seq<FieldValue>)
    requires
        document_model(decoded) == document_model(source),
    ensures
        same_pairs(decoded, source),
        document_bytes(document_model(decoded)) == document_bytes(document_model(source)),
{
}

/// `Document::from` keeps the given pairs: same pairs, same order, nothing
/// removed or merged.
pub proof fn lemma_from_keeps_pairs(field_values: Vec<FieldValue>)
    ensures
        <Document as vstd::std_specs::convert::FromSpec<Vec<FieldValue>>>::obeys_from_spec(),
        <Document as vstd::std_specs::convert::FromSpec<Vec<FieldValue>>>::from_spec(field_values)@
            == field_values@,
{
}

proof fn lemma_masked_index(s: Seq<FieldValue>, keep: Seq<bool>, i: int)
    requires
        keep.len() == s.len(),
        0 <= i < s.len(),
        keep[i],
    ensures
        masked(s.take(i), keep.take(i)).len() < masked(s, keep).len(),
        masked(s, keep)[masked(s.take(i), keep.take(i)).len() as int] == s[i],
    decreases s.len(),
{
    let d = s.drop_last();
    let kd = keep.drop_last();
    if i == s.len() - 1 {
        assert(s.take(i) == d);
        assert(keep.take(i) == kd);
        assert(keep.last());
    } else {
        lemma_masked_index(d, kd, i);
        assert(d.take(i) == s.take(i));
        assert(kd.take(i) == keep.take(i));
    }
}

/// Filtering keeps the order of what it keeps: two pairs at positions
/// `i < j` whose flags are set (say, two values of a field the predicate
/// accepts) both remain, the first still before the second.
pub proof fn lemma_filter_keeps_relative_order(s: Seq<FieldValue>, keep: Seq<bool>, i: int, j: int)
    requires
        keep.len() == s.len(),
        0 <= i < j < s.len(),
        keep[i],
        keep[j],
    ensures
        exists|p: int, q: int|
            0 <= p < q < masked(s, keep).len() && masked(s, keep)[p] == s[i] && masked(s, keep)[q]
                == s[j],
{
    lemma_masked_index(s, keep, j);
    lemma_masked_index(s.take(j), keep.take(j), i);
    assert(s.take(j).take(i) == s.take(i));
    assert(keep.take(j).take(i) == keep.take(i));
    lemma_masked_index(s, keep, i);
    let p = masked(s.take(i), keep.take(i)).len() as int;
    let q = masked(s.take(j), keep.take(j)).len() as int;
    assert(0 <= p < q < masked(s, keep).len());
}

/// A document as the write path uses it: a list of `(field, value)` pairs
/// in which one field may appear more than once.
pub trait DocumentTrait: Sized {
    /// The pairs, in insertion order.
    spec fn pairs(&self) -> Seq<FieldValue>;

    /// Creates an empty document.
    fn new() -> (r: Self)
        ensures
            r.pairs() == Seq::<FieldValue>::empty(),
    ;

    /// Number of `(field, value)` pairs.
    fn len(&self) -> (r: usize)
        ensures
            r == self.pairs().len(),
    ;

    /// True iff the document holds no pair.
    fn is_empty(&self) -> (r: bool)
        ensures
            r == (self.pairs().len() == 0),
    ;

    /// Keeps only the pairs whose field satisfies `predicate`, in their
    /// relative order.
    fn filter_fields<P: Fn(Field) -> bool>(&mut self, predicate: P)
        requires
            forall|f: Field| predicate.requires((f,)),
        ensures
            exists|keep: Seq<bool>|
                keep.len() == old(self).pairs().len() && (forall|i: int|
                    0 <= i < keep.len() ==> predicate.ensures(
                        (old(self).pairs()[i].field,),
                        #[trigger] keep[i],
                    )) && final(self).pairs() == masked(old(self).pairs(), keep),
    ;

    fn add_facet(&mut self, field: Field, path: Facet)
        ensures
            final(self).pairs() == old(self).pairs().push(
                FieldValue { field, value: Value::Facet(path) },
            ),
    ;

    fn add_text(&mut self, field: Field, text: &str)
        ensures
            final(self).pairs().len() == old(self).pairs().len() + 1,
            final(self).pairs().drop_last() == old(self).pairs(),
            final(self).pairs().last().field == field,
            final(self).pairs().last().value matches Value::Str(s) && s@ == text@,
    ;

    fn add_pre_tokenized_text(&mut self, field: Field, pre_tokenized_text: &PreTokenizedString)
        ensures
            final(self).pairs().len() == old(self).pairs().len() + 1,
            final(self).pairs().drop_last() == old(self).pairs(),
            final(self).pairs().last().field == field,
            final(self).pairs().last().value matches Value::PreTokStr(p) && p.text@
                == pre_tokenized_text.text@ && crate::schema::tokens_model(p.tokens@)
                == crate::schema::tokens_model(pre_tokenized_text.tokens@),
    ;

    fn add_u64(&mut self, field: Field, value: u64)
        ensures
            final(self).pairs() == old(self).pairs().push(
                FieldValue { field, value: Value::U64(value) },
            ),
    ;

    fn add_i64(&mut self, field: Field, value: i64)
        ensures
            final(self).pairs() == old(self).pairs().push(
                FieldValue { field, value: Value::I64(value) },
            ),
    ;

    /// Adds a 64-bit float, given by its IEEE-754 bit pattern.
    fn add_f64(&mut self, field: Field, value_bits: u64)
        ensures
            final(self).pairs() == old(self).pairs().push(
                FieldValue { field, value: Value::F64(value_bits) },
            ),
    ;

    fn add_date(&mut self, field: Field, value: &DateTime)
        ensures
            final(self).pairs() == old(self).pairs().push(
                FieldValue { field, value: Value::Date(*value) },
            ),
    ;

    fn add_bytes(&mut self, field: Field, value: Vec<u8>)
        ensures
            final(self).pairs() == old(self).pairs().push(
                FieldValue { field, value: Value::Bytes(value) },
            ),
    ;

    /// Appends a pair; no deduplication.
    fn add(&mut self, field_value: FieldValue)
        ensures
            final(self).pairs() == old(self).pairs().push(field_value),
    ;

    /// The pairs, in insertion order.
    fn field_values(&self) -> (r: &[FieldValue])
        ensures
            r@ == self.pairs(),
    ;

    /// Stable-sorts the pairs by field and groups equal fields.
    fn get_sorted_field_values(&self) -> (r: Vec<(Field, Vec<&FieldValue>)>)
        ensures
            is_grouping(self.pairs(), groups_view(r@)),
    ;

    /// All values of `field`, in their relative order.
    fn get_all(&self, field: Field) -> (r: Vec<&Value>)
        ensures
            deref_values(r@) == values_for(self.pairs(), field),
    ;

    /// The first value of `field`, if any.
    fn get_first(&self, field: Field) -> (r: Option<&Value>)
        ensures
            values_for(self.pairs(), field).len() == 0 ==> r.is_none(),
            values_for(self.pairs(), field).len() > 0 ==> r == Some(
                &values_for(self.pairs(), field)[0],
            ),
    ;

    /// Replaces every pre-tokenized text by its plain text.
    fn prepare_for_store(&mut self)
        ensures
            final(self).pairs() == old(self).pairs().map_values(|fv: FieldValue| stored(fv)),
    ;
}

impl DocumentTrait for Document {
    open spec fn pairs(&self) -> Seq<FieldValue> {
        self@
    }

    fn new() -> (r: Document) {
        Document::new()
    }

    fn len(&self) -> (r: usize) {
        Document::len(self)
    }

    fn is_empty(&self) -> (r: bool) {
        Document::is_empty(self)
    }

    fn filter_fields<P: Fn(Field) -> bool>(&mut self, predicate: P) {
        let ghost before = self@;
        Document::filter_fields(self, predicate);
        proof {
            let keep = choose|keep: Seq<bool>|
                keep.len() == before.len() && (forall|i: int|
                    0 <= i < keep.len() ==> predicate.ensures((before[i].field,), #[trigger] keep[i]))
                    && self@ == masked(before, keep);
            assert(keep.len() == old(self).pairs().len() && (forall|i: int|
                0 <= i < keep.len() ==> predicate.ensures(
                    (old(self).pairs()[i].field,),
                    #[trigger] keep[i],
                )) && final(self).pairs() == masked(old(self).pairs(), keep));
        }
    }

    fn add_facet(&mut self, field: Field, path: Facet) {
        Document::add_facet(self, field, path)
    }

    fn add_text(&mut self, field: Field, text: &str) {
        Document::add_text(self, field, text)
    }

    fn add_pre_tokenized_text(&mut self, field: Field, pre_tokenized_text: &PreTokenizedString) {
        Document::add_pre_tokenized_text(self, field, pre_tokenized_text)
    }

    fn add_u64(&mut self, field: Field, value: u64) {
        Document::add_u64(self, field, value)
    }

    fn add_i64(&mut self, field: Field, value: i64) {
        Document::add_i64(self, field, value)
    }

    fn add_f64(&mut self, field: Field, value_bits: u64) {
        Document::add_f64(self, field, value_bits)
    }

    fn add_date(&mut self, field: Field, value: &DateTime) {
        Document::add_date(self, field, value)
    }

    fn add_bytes(&mut self, field: Field, value: Vec<u8>) {
        Document::add_bytes(self, field, value)
    }

    fn add(&mut self, field_value: FieldValue) {
        Document::add(self, field_value)
    }

    fn field_values(&self) -> (r: &[FieldValue]) {
        Document::field_values(self)
    }

    fn get_sorted_field_values(&self) -> (r: Vec<(Field, Vec<&FieldValue>)>) {
        Document::get_sorted_field_values(self)
    }

    fn get_all(&self, field: Field) -> (r: Vec<&Value>) {
        Document::get_all(self, field)
    }

    fn get_first(&self, field: Field) -> (r: Option<&Value>) {
        Document::get_first(self, field)
    }

    fn prepare_for_store(&mut self) {
        Document::prepare_for_store(self)
    }
}

} // verus!
