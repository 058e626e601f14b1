//! The JSON value model carried by every wire message.
//!
//! A value keeps its strings as raw UTF-8 bytes, exactly as they stand in a
//! frame body once escapes are resolved; numbers are 64-bit integers, the only
//! kind the protocol engine ever produces or consumes (ids, line numbers,
//! error codes). Objects keep their fields in wire order.

use vstd::prelude::*;

verus! {

/// An executable JSON value.
pub enum Json {
    Null,
    Bool(bool),
    Int(i64),
    Str(Vec<u8>),
    Arr(Vec<Json>),
    Obj(Vec<(Vec<u8>, Json)>),
}

/// The mathematical abstraction of a [`Json`] value.
pub enum JsonV {
    Null,
    Bool(bool),
    Int(int),
    Str(Seq<u8>),
    Arr(Seq<JsonV>),
    Obj(Seq<(Seq<u8>, JsonV)>),
}

/// Maps an executable value to its abstraction.
pub open spec fn jv(j: Json) -> JsonV
    decreases j,
{
    match j {
        Json::Null => JsonV::Null,
        Json::Bool(b) => JsonV::Bool(b),
        Json::Int(i) => JsonV::Int(i as int),
        Json::Str(s) => JsonV::Str(s@),
        Json::Arr(items) => JsonV::Arr(jv_seq(items@)),
        Json::Obj(fields) => JsonV::Obj(jv_fields(fields@)),
    }
}

/// Abstraction of a sequence of values, element by element.
pub open spec fn jv_seq(s: Seq<Json>) -> Seq<JsonV>
    decreases s,
{
    if s.len() == 0 {
        Seq::empty()
    } else {
        seq![jv(s[0])] + jv_seq(s.skip(1))
    }
}

/// Abstraction of an object's field list, key and value of each field.
pub open spec fn jv_fields(s: Seq<(Vec<u8>, Json)>) -> Seq<(Seq<u8>, JsonV)>
    decreases s,
{
    if s.len() == 0 {
        Seq::empty()
    } else {
        seq![(s[0].0@, jv(s[0].1))] + jv_fields(s.skip(1))
    }
}

pub proof fn lemma_jv_seq(s: Seq<Json>)
    ensures
        jv_seq(s).len() == s.len(),
        forall|i: int| 0 <= i < s.len() ==> jv_seq(s)[i] == jv(s[i]),
    decreases s.len(),
{
    if s.len() > 0 {
        lemma_jv_seq(s.skip(1));
        assert forall|i: int| 0 <= i < s.len() implies jv_seq(s)[i] == jv(s[i]) by {
            if i > 0 {
                assert(jv_seq(s)[i] == jv_seq(s.skip(1))[i - 1]);
                assert(s.skip(1)[i - 1] == s[i]);
            }
        }
    }
}

pub proof fn lemma_jv_fields(s: Seq<(Vec<u8>, Json)>)
    ensures
        jv_fields(s).len() == s.len(),
        forall|i: int| 0 <= i < s.len() ==> jv_fields(s)[i] == (s[i].0@, jv(s[i].1)),
    decreases s.len(),
{
    if s.len() > 0 {
        lemma_jv_fields(s.skip(1));
        assert forall|i: int| 0 <= i < s.len() implies jv_fields(s)[i] == (s[i].0@, jv(s[i].1)) by {
            if i > 0 {
                assert(jv_fields(s)[i] == jv_fields(s.skip(1))[i - 1]);
                assert(s.skip(1)[i - 1] == s[i]);
            }
        }
    }
}

/// What a key lookup over an object's field list yields: the value under the
/// first field whose key matches, if any.
pub open spec fn field_lookup(fields: Seq<(Seq<u8>, JsonV)>, key: Seq<u8>) -> Option<JsonV>
    decreases fields.len(),
{
    if fields.len() == 0 {
        Option::None
    } else if fields[0].0 == key {
        Option::Some(fields[0].1)
    } else {
        field_lookup(fields.skip(1), key)
    }
}

/// Byte-sequence equality, the comparison every key and method-name test uses.
pub fn bytes_eq(a: &[u8], b: &[u8]) -> (r: bool)
    ensures
        r == (a@ == b@),
{
    if a.len() != b.len() {
        assert(a@.len() != b@.len());
        return false;
    }
    let mut i: usize = 0;
    while i < a.len()
        invariant
            0 <= i <= a@.len(),
            a@.len() == b@.len(),
            forall|j: int| 0 <= j < i ==> a@[j] == b@[j],
        decreases a@.len() - i,
    {
        if a[i] != b[i] {
            return false;
        }
        i = i + 1;
    }
    proof {
        assert(a@ =~= b@);
    }
    true
}

/// An owned copy of a byte string.
pub fn clone_bytes(s: &Vec<u8>) -> (r: Vec<u8>)
    ensures
        r@ == s@,
{
    let mut out: Vec<u8> = Vec::new();
    let mut i: usize = 0;
    while i < s.len()
        invariant
            0 <= i <= s@.len(),
            out@ == s@.take(i as int),
        decreases s@.len() - i,
    {
        out.push(s[i]);
        proof {
            assert(s@.take(i as int).push(s@[i as int]) =~= s@.take(i as int + 1));
        }
        i = i + 1;
    }
    proof {
        assert(s@.take(s@.len() as int) =~= s@);
    }
    out
}

/// An owned copy of a value, equal in abstraction.
pub fn json_clone(j: &Json) -> (r: Json)
    ensures
        jv(r) == jv(*j),
    decreases *j,
{
    match j {
        Json::Null => Json::Null,
        Json::Bool(b) => Json::Bool(*b),
        Json::Int(i) => Json::Int(*i),
        Json::Str(s) => Json::Str(clone_bytes(s)),
        Json::Arr(items) => Json::Arr(clone_items(items)),
        Json::Obj(fields) => Json::Obj(clone_fields(fields)),
    }
}

/// An owned copy of a value sequence, element by element.
pub fn clone_items(items: &Vec<Json>) -> (r: Vec<Json>)
    ensures
        jv_seq(r@) == jv_seq(items@),
        r@.len() == items@.len(),
    decreases items,
{
    let mut out: Vec<Json> = Vec::new();
    let mut i: usize = 0;
    while i < items.len()
        invariant
            0 <= i <= items@.len(),
            out@.len() == i,
            forall|k: int| 0 <= k < i ==> jv(#[trigger] out@[k]) == jv(items@[k]),
        decreases items@.len() - i,
    {
        let c = json_clone(&items[i]);
        out.push(c);
        i = i + 1;
    }
    proof {
        lemma_jv_seq(out@);
        lemma_jv_seq(items@);
        assert(jv_seq(out@) =~= jv_seq(items@));
    }
    out
}

/// An owned copy of an object's field list, key and value of each field.
pub fn clone_fields(fields: &Vec<(Vec<u8>, Json)>) -> (r: Vec<(Vec<u8>, Json)>)
    ensures
        jv_fields(r@) == jv_fields(fields@),
        r@.len() == fields@.len(),
    decreases fields,
{
    let mut out: Vec<(Vec<u8>, Json)> = Vec::new();
    let mut i: usize = 0;
    while i < fields.len()
        invariant
            0 <= i <= fields@.len(),
            out@.len() == i,
            forall|k: int| 0 <= k < i ==> (#[trigger] out@[k]).0@ == fields@[k].0@
                && jv(out@[k].1) == jv(fields@[k].1),
        decreases fields@.len() - i,
    {
        let key = clone_bytes(&fields[i].0);
        let val = json_clone(&fields[i].1);
        out.push((key, val));
        i = i + 1;
    }
    proof {
        lemma_jv_fields(out@);
        lemma_jv_fields(fields@);
        assert(jv_fields(out@) =~= jv_fields(fields@));
    }
    out
}

impl Json {
    /// Looks `key` up among this object's fields; `None` on any other kind of
    /// value or when no field carries the key.
    pub fn get_field(&self, key: &[u8]) -> (r: Option<&Json>)
        ensures
            match jv(*self) {
                JsonV::Obj(fields) => match r {
                    Option::Some(v) => field_lookup(fields, key@) == Option::Some(jv(*v)),
                    Option::None => field_lookup(fields, key@) is None,
                },
                _ => r is None,
            },
    {
        match self {
            Json::Obj(fields) => {
                let ghost gfields = jv_fields(fields@);
                proof {
                    assert(jv(*self) == JsonV::Obj(gfields));
                    lemma_jv_fields(fields@);
                    assert(gfields.skip(0) =~= gfields);
                }
                let mut i: usize = 0;
                while i < fields.len()
                    invariant
                        0 <= i <= fields@.len(),
                        jv(*self) == JsonV::Obj(gfields),
                        gfields == jv_fields(fields@),
                        gfields.len() == fields@.len(),
                        forall|k: int| 0 <= k < fields@.len()
                            ==> gfields[k] == (fields@[k].0@, jv(fields@[k].1)),
                        field_lookup(gfields, key@) == field_lookup(gfields.skip(i as int), key@),
                    decreases fields@.len() - i,
                {
                    proof {
                        assert(gfields.skip(i as int)[0] == gfields[i as int]);
                    }
                    if bytes_eq(fields[i].0.as_slice(), key) {
                        proof {
                            assert(gfields.skip(i as int)[0].0 == key@);
                            assert(field_lookup(gfields.skip(i as int), key@)
                                == Option::Some(gfields[i as int].1));
                            assert(jv(*self) == JsonV::Obj(gfields));
                        }
                        return Option::Some(&fields[i].1);
                    }
                    proof {
                        assert(gfields.skip(i as int).skip(1) =~= gfields.skip(i as int + 1));
                    }
                    i = i + 1;
                }
                proof {
                    assert(gfields.skip(i as int).len() == 0);
                }
                Option::None
            },
            _ => Option::None,
        }
    }
}

} // verus!
