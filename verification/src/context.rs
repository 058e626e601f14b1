//! The per-event parameter bag: values the triggering request precomputed,
//! overlaid with slots filled at most once from editor queries.
//!
//! Every slot resolves by one law: the precomputed map is consulted first
//! under the slot's canonical key; failing that, the surrounding loop runs
//! exactly one editor query and hands the answer back, which is memoized, so
//! repeated access within the same context never queries the editor again.
//! A context belongs to exactly one inbound event.

use vstd::prelude::*;
use vstd::string::StringSliceAdditionalSpecFns;
use vstd::string::StrSliceExecFns;
use crate::json::{Json, JsonV, jv, jv_fields, field_lookup, clone_bytes, clone_fields};
use crate::message::{Params, ParamsV, params_v};

verus! {

/// The visible line range of the editor window.
#[derive(PartialEq, Eq, Structural, Clone, Copy, Debug)]
pub struct Viewport {
    pub start: i64,
    pub end: i64,
}

/// A cursor position: zero-based line and character.
#[derive(PartialEq, Eq, Structural, Clone, Copy, Debug)]
pub struct Position {
    pub line: u64,
    pub character: u64,
}

/// How one slot access resolves.
pub enum Resolved<T> {
    /// The value, from the memo or the precomputed map.
    Ready(T),
    /// Not precomputed and not yet queried: run the slot's one editor query
    /// and hand the answer to the matching `supply` method.
    NeedQuery,
    /// Precomputed under the slot's key but of the wrong shape.
    Invalid,
}

pub struct Context {
    pub precalc: Vec<(Vec<u8>, Json)>,
    pub filename: Option<Vec<u8>>,
    pub bufnr: Option<i64>,
    pub language_id: Option<Vec<u8>>,
    pub viewport: Option<Viewport>,
    pub position: Option<Position>,
    pub current_word: Option<Vec<u8>>,
    pub text: Option<Vec<Vec<u8>>>,
    pub handle: Option<bool>,
}

/// The abstraction of a context: the precomputed fields and each slot.
pub struct ContextV {
    pub precalc: Seq<(Seq<u8>, JsonV)>,
    pub filename: Option<Seq<u8>>,
    pub bufnr: Option<int>,
    pub language_id: Option<Seq<u8>>,
    pub viewport: Option<Viewport>,
    pub position: Option<Position>,
    pub current_word: Option<Seq<u8>>,
    pub text: Option<Seq<Seq<u8>>>,
    pub handle: Option<bool>,
}

pub open spec fn opt_bytes_v(o: Option<Vec<u8>>) -> Option<Seq<u8>> {
    match o {
        Option::None => Option::None,
        Option::Some(v) => Option::Some(v@),
    }
}

pub open spec fn lines_v(v: Seq<Vec<u8>>) -> Seq<Seq<u8>> {
    v.map_values(|l: Vec<u8>| l@)
}

pub open spec fn ctx_v(c: Context) -> ContextV {
    ContextV {
        precalc: jv_fields(c.precalc@),
        filename: opt_bytes_v(c.filename),
        bufnr: match c.bufnr {
            Option::None => Option::None,
            Option::Some(n) => Option::Some(n as int),
        },
        language_id: opt_bytes_v(c.language_id),
        viewport: c.viewport,
        position: c.position,
        current_word: opt_bytes_v(c.current_word),
        text: match c.text {
            Option::None => Option::None,
            Option::Some(t) => Option::Some(lines_v(t@)),
        },
        handle: c.handle,
    }
}

impl Context {
    /// What the precomputed map holds under a key.
    pub open spec fn pre(self, key: Seq<u8>) -> Option<JsonV> {
        field_lookup(jv_fields(self.precalc@), key)
    }

    /// Builds the bag for one event: keyed parameters become the
    /// precomputed map, anything else leaves it empty; every slot starts
    /// unresolved.
    pub fn new(params: &Params) -> (r: Context)
        ensures
            jv_fields(r.precalc@) == (match params_v(*params) {
                ParamsV::Named(fields) => fields,
                _ => Seq::<(Seq<u8>, JsonV)>::empty(),
            }),
            r.filename is None,
            r.bufnr is None,
            r.language_id is None,
            r.viewport is None,
            r.position is None,
            r.current_word is None,
            r.text is None,
            r.handle is None,
    {
        let precalc = match params {
            Params::Named(fields) => clone_fields(fields),
            _ => Vec::new(),
        };
        Context {
            precalc,
            filename: Option::None,
            bufnr: Option::None,
            language_id: Option::None,
            viewport: Option::None,
            position: Option::None,
            current_word: Option::None,
            text: Option::None,
            handle: Option::None,
        }
    }

    /// The raw precomputed value under a key, if any.
    pub fn try_get(&self, key: &[u8]) -> (r: Option<&Json>)
        ensures
            match r {
                Option::Some(v) => self.pre(key@) == Option::Some(jv(*v)),
                Option::None => self.pre(key@) is None,
            },
    {
        let ghost gfields = jv_fields(self.precalc@);
        let mut i: usize = 0;
        proof {
            crate::json::lemma_jv_fields(self.precalc@);
            assert(gfields.skip(0) =~= gfields);
        }
        while i < self.precalc.len()
            invariant
                0 <= i <= self.precalc@.len(),
                gfields == jv_fields(self.precalc@),
                gfields.len() == self.precalc@.len(),
                forall|k: int| 0 <= k < self.precalc@.len()
                    ==> gfields[k] == (self.precalc@[k].0@, jv(self.precalc@[k].1)),
                field_lookup(gfields, key@) == field_lookup(gfields.skip(i as int), key@),
            decreases self.precalc@.len() - i,
        {
            proof {
                assert(gfields.skip(i as int)[0] == gfields[i as int]);
            }
            if crate::json::bytes_eq(self.precalc[i].0.as_slice(), key) {
                return Option::Some(&self.precalc[i].1);
            }
            proof {
                assert(gfields.skip(i as int).skip(1) =~= gfields.skip(i as int + 1));
            }
            i = i + 1;
        }
        proof {
            assert(gfields.skip(i as int).len() == 0);
        }
        Option::None
    }

    /// The buffer name: the memo, else the precomputed `filename`, else one
    /// `LSP#filename()` editor query is due.
    pub fn get_filename(&mut self) -> (r: Resolved<Vec<u8>>)
        ensures
            match old(self).filename {
                Option::Some(f) => r matches Resolved::Ready(v) && v@ == f@ && *final(self)
                    == *old(self),
                Option::None => match old(self).pre("filename".spec_bytes()) {
                    Option::Some(JsonV::Str(s)) => r matches Resolved::Ready(v) && v@ == s
                        && ctx_v(*final(self)) == (ContextV {
                        filename: Option::Some(s),
                        ..ctx_v(*old(self))
                    }),
                    Option::Some(_) => r is Invalid && *final(self) == *old(self),
                    Option::None => r is NeedQuery && *final(self) == *old(self),
                },
            },
    {
        if let Option::Some(f) = &self.filename {
            return Resolved::Ready(clone_bytes(f));
        }
        let got: Resolved<Vec<u8>> = match self.try_get("filename".as_bytes()) {
            Option::Some(Json::Str(s)) => Resolved::Ready(clone_bytes(s)),
            Option::Some(_) => Resolved::Invalid,
            Option::None => Resolved::NeedQuery,
        };
        if let Resolved::Ready(v) = &got {
            self.filename = Option::Some(clone_bytes(v));
        }
        got
    }

    /// Memoizes the answer of the slot's editor query.
    pub fn supply_filename(&mut self, v: Vec<u8>)
        requires
            old(self).filename is None,
        ensures
            ctx_v(*final(self)) == (ContextV {
                filename: Option::Some(v@),
                ..ctx_v(*old(self))
            }),
    {
        self.filename = Option::Some(v);
    }

    /// The expression of the one editor query that resolves `filename`.
    pub fn filename_query(&self) -> (r: Vec<u8>)
        ensures
            r@ == "LSP#filename()".spec_bytes(),
    {
        "LSP#filename()".as_bytes_vec()
    }

    /// The buffer number: the memo, else the precomputed `bufnr`, else one
    /// editor query of [`Self::bufnr_query`] is due — which itself needs the
    /// buffer name first.
    pub fn get_bufnr(&mut self) -> (r: Resolved<i64>)
        ensures
            match old(self).bufnr {
                Option::Some(n) => r == Resolved::<i64>::Ready(n) && *final(self) == *old(self),
                Option::None => match old(self).pre("bufnr".spec_bytes()) {
                    Option::Some(JsonV::Int(x)) => r matches Resolved::Ready(n) && n as int == x
                        && ctx_v(*final(self)) == (ContextV {
                        bufnr: Option::Some(x),
                        ..ctx_v(*old(self))
                    }),
                    Option::Some(_) => r is Invalid && *final(self) == *old(self),
                    Option::None => r is NeedQuery && *final(self) == *old(self),
                },
            },
    {
        if let Option::Some(n) = &self.bufnr {
            return Resolved::Ready(*n);
        }
        let got: Resolved<i64> = match self.try_get("bufnr".as_bytes()) {
            Option::Some(Json::Int(n)) => Resolved::Ready(*n),
            Option::Some(_) => Resolved::Invalid,
            Option::None => Resolved::NeedQuery,
        };
        if let Resolved::Ready(n) = &got {
            self.bufnr = Option::Some(*n);
        }
        got
    }

    pub fn supply_bufnr(&mut self, n: i64)
        requires
            old(self).bufnr is None,
        ensures
            ctx_v(*final(self)) == (ContextV { bufnr: Option::Some(n as int), ..ctx_v(*old(self)) }),
    {
        self.bufnr = Option::Some(n);
    }

    /// The expression of the editor query that resolves `bufnr`: it quotes
    /// the buffer name, so that must be resolved first.
    pub fn bufnr_query(&self) -> (r: Resolved<Vec<u8>>)
        ensures
            match self.filename {
                Option::Some(f) => r matches Resolved::Ready(q) && q@ == "bufnr('".spec_bytes()
                    + f@ + "')".spec_bytes(),
                Option::None => r is NeedQuery,
            },
    {
        match &self.filename {
            Option::Some(f) => {
                let mut q = "bufnr('".as_bytes_vec();
                let ghost head = q@;
                let mut i: usize = 0;
                while i < f.len()
                    invariant
                        0 <= i <= f@.len(),
                        q@ == head + f@.take(i as int),
                    decreases f@.len() - i,
                {
                    q.push(f[i]);
                    proof {
                        assert(head + f@.take(i as int + 1) =~= (head + f@.take(i as int)).push(
                            f@[i as int],
                        ));
                    }
                    i = i + 1;
                }
                proof {
                    assert(f@.take(f@.len() as int) =~= f@);
                }
                let tail = "')".as_bytes_vec();
                let mut k: usize = 0;
                let ghost mid = q@;
                while k < tail.len()
                    invariant
                        0 <= k <= tail@.len(),
                        q@ == mid + tail@.take(k as int),
                    decreases tail@.len() - k,
                {
                    q.push(tail[k]);
                    proof {
                        assert(mid + tail@.take(k as int + 1) =~= (mid + tail@.take(
                            k as int,
                        )).push(tail@[k as int]));
                    }
                    k = k + 1;
                }
                proof {
                    assert(tail@.take(tail@.len() as int) =~= tail@);
                }
                Resolved::Ready(q)
            },
            Option::None => Resolved::NeedQuery,
        }
    }

    /// The language this event's buffer speaks: the memo, else the
    /// precomputed `languageId`, else one `&filetype` buffer-variable query
    /// is due, which needs the buffer name first.
    #[allow(non_snake_case)]
    pub fn get_languageId(&mut self) -> (r: Resolved<Vec<u8>>)
        ensures
            match old(self).language_id {
                Option::Some(l) => r matches Resolved::Ready(v) && v@ == l@ && *final(self)
                    == *old(self),
                Option::None => match old(self).pre("languageId".spec_bytes()) {
                    Option::Some(JsonV::Str(s)) => r matches Resolved::Ready(v) && v@ == s
                        && ctx_v(*final(self)) == (ContextV {
                        language_id: Option::Some(s),
                        ..ctx_v(*old(self))
                    }),
                    Option::Some(_) => r is Invalid && *final(self) == *old(self),
                    Option::None => r is NeedQuery && *final(self) == *old(self),
                },
            },
    {
        if let Option::Some(l) = &self.language_id {
            return Resolved::Ready(clone_bytes(l));
        }
        let got: Resolved<Vec<u8>> = match self.try_get("languageId".as_bytes()) {
            Option::Some(Json::Str(s)) => Resolved::Ready(clone_bytes(s)),
            Option::Some(_) => Resolved::Invalid,
            Option::None => Resolved::NeedQuery,
        };
        if let Resolved::Ready(v) = &got {
            self.language_id = Option::Some(clone_bytes(v));
        }
        got
    }

    #[allow(non_snake_case)]
    pub fn supply_languageId(&mut self, v: Vec<u8>)
        requires
            old(self).language_id is None,
        ensures
            ctx_v(*final(self)) == (ContextV {
                language_id: Option::Some(v@),
                ..ctx_v(*old(self))
            }),
    {
        self.language_id = Option::Some(v);
    }

    /// The arguments of the one editor query that resolves `languageId`: the
    /// buffer-variable read `getbufvar(<filename>, '&filetype')`. It names
    /// the buffer, so the buffer name must be resolved first.
    #[allow(non_snake_case)]
    pub fn languageId_query(&self) -> (r: Resolved<(Vec<u8>, Vec<u8>)>)
        ensures
            match self.filename {
                Option::Some(f) => r matches Resolved::Ready(q) && q.0@ == f@ && q.1@
                    == "&filetype".spec_bytes(),
                Option::None => r is NeedQuery,
            },
    {
        match &self.filename {
            Option::Some(f) => Resolved::Ready((clone_bytes(f), "&filetype".as_bytes_vec())),
            Option::None => Resolved::NeedQuery,
        }
    }

    /// The visible line range: the memo, else the value precomputed under
    /// the query expression itself, else that one query is due.
    pub fn get_viewport(&mut self) -> (r: Resolved<Viewport>)
        ensures
            match old(self).viewport {
                Option::Some(v) => r == Resolved::<Viewport>::Ready(v) && *final(self) == *old(
                    self,
                ),
                Option::None => match spec_viewport(old(self).pre("LSP#viewport()".spec_bytes())) {
                    Resolved::Ready(v) => r == Resolved::<Viewport>::Ready(v) && ctx_v(
                        *final(self),
                    ) == (ContextV { viewport: Option::Some(v), ..ctx_v(*old(self)) }),
                    Resolved::NeedQuery => r is NeedQuery && *final(self) == *old(self),
                    Resolved::Invalid => r is Invalid && *final(self) == *old(self),
                },
            },
    {
        if let Option::Some(v) = &self.viewport {
            return Resolved::Ready(*v);
        }
        let got: Resolved<Viewport> = match self.try_get("LSP#viewport()".as_bytes()) {
            Option::Some(j) => match (j.get_field("start".as_bytes()), j.get_field(
                "end".as_bytes(),
            )) {
                (Option::Some(Json::Int(s)), Option::Some(Json::Int(e))) => Resolved::Ready(
                    Viewport { start: *s, end: *e },
                ),
                _ => Resolved::Invalid,
            },
            Option::None => Resolved::NeedQuery,
        };
        if let Resolved::Ready(v) = &got {
            self.viewport = Option::Some(*v);
        }
        got
    }

    pub fn supply_viewport(&mut self, v: Viewport)
        requires
            old(self).viewport is None,
        ensures
            ctx_v(*final(self)) == (ContextV { viewport: Option::Some(v), ..ctx_v(*old(self)) }),
    {
        self.viewport = Option::Some(v);
    }

    pub fn viewport_query(&self) -> (r: Vec<u8>)
        ensures
            r@ == "LSP#viewport()".spec_bytes(),
    {
        "LSP#viewport()".as_bytes_vec()
    }

    /// The cursor position, by the same law under `LSP#position()`.
    pub fn get_position(&mut self) -> (r: Resolved<Position>)
        ensures
            match old(self).position {
                Option::Some(p) => r == Resolved::<Position>::Ready(p) && *final(self) == *old(
                    self,
                ),
                Option::None => match spec_position(old(self).pre("LSP#position()".spec_bytes())) {
                    Resolved::Ready(p) => r == Resolved::<Position>::Ready(p) && ctx_v(
                        *final(self),
                    ) == (ContextV { position: Option::Some(p), ..ctx_v(*old(self)) }),
                    Resolved::NeedQuery => r is NeedQuery && *final(self) == *old(self),
                    Resolved::Invalid => r is Invalid && *final(self) == *old(self),
                },
            },
    {
        if let Option::Some(p) = &self.position {
            return Resolved::Ready(*p);
        }
        let got: Resolved<Position> = match self.try_get("LSP#position()".as_bytes()) {
            Option::Some(j) => match (j.get_field("line".as_bytes()), j.get_field(
                "character".as_bytes(),
            )) {
                (Option::Some(Json::Int(l)), Option::Some(Json::Int(c))) => if *l >= 0 && *c
                    >= 0 {
                    Resolved::Ready(Position { line: *l as u64, character: *c as u64 })
                } else {
                    Resolved::Invalid
                },
                _ => Resolved::Invalid,
            },
            Option::None => Resolved::NeedQuery,
        };
        if let Resolved::Ready(p) = &got {
            self.position = Option::Some(*p);
        }
        got
    }

    pub fn supply_position(&mut self, p: Position)
        requires
            old(self).position is None,
        ensures
            ctx_v(*final(self)) == (ContextV { position: Option::Some(p), ..ctx_v(*old(self)) }),
    {
        self.position = Option::Some(p);
    }

    pub fn position_query(&self) -> (r: Vec<u8>)
        ensures
            r@ == "LSP#position()".spec_bytes(),
    {
        "LSP#position()".as_bytes_vec()
    }

    /// The word under the cursor, by the same law under `expand('<cword>')`.
    pub fn get_current_word(&mut self) -> (r: Resolved<Vec<u8>>)
        ensures
            match old(self).current_word {
                Option::Some(w) => r matches Resolved::Ready(v) && v@ == w@ && *final(self)
                    == *old(self),
                Option::None => match old(self).pre("expand('<cword>')".spec_bytes()) {
                    Option::Some(JsonV::Str(s)) => r matches Resolved::Ready(v) && v@ == s
                        && ctx_v(*final(self)) == (ContextV {
                        current_word: Option::Some(s),
                        ..ctx_v(*old(self))
                    }),
                    Option::Some(_) => r is Invalid && *final(self) == *old(self),
                    Option::None => r is NeedQuery && *final(self) == *old(self),
                },
            },
    {
        if let Option::Some(w) = &self.current_word {
            return Resolved::Ready(clone_bytes(w));
        }
        let got: Resolved<Vec<u8>> = match self.try_get("expand('<cword>')".as_bytes()) {
            Option::Some(Json::Str(s)) => Resolved::Ready(clone_bytes(s)),
            Option::Some(_) => Resolved::Invalid,
            Option::None => Resolved::NeedQuery,
        };
        if let Resolved::Ready(v) = &got {
            self.current_word = Option::Some(clone_bytes(v));
        }
        got
    }

    pub fn supply_current_word(&mut self, v: Vec<u8>)
        requires
            old(self).current_word is None,
        ensures
            ctx_v(*final(self)) == (ContextV {
                current_word: Option::Some(v@),
                ..ctx_v(*old(self))
            }),
    {
        self.current_word = Option::Some(v);
    }

    pub fn current_word_query(&self) -> (r: Vec<u8>)
        ensures
            r@ == "expand('<cword>')".spec_bytes(),
    {
        "expand('<cword>')".as_bytes_vec()
    }

    /// The requested buffer lines: the memo, else the value precomputed
    /// under the slot's `text` key, else one buffer-line query is due,
    /// which needs the buffer name first.
    pub fn get_text(&mut self) -> (r: Resolved<Vec<Vec<u8>>>)
        ensures
            match old(self).text {
                Option::Some(t) => r matches Resolved::Ready(v) && lines_v(v@) == lines_v(t@)
                    && *final(self) == *old(self),
                Option::None => match spec_lines(old(self).pre("text".spec_bytes())) {
                    Resolved::Ready(ls) => r matches Resolved::Ready(v) && lines_v(v@) == ls
                        && ctx_v(*final(self)) == (ContextV {
                        text: Option::Some(ls),
                        ..ctx_v(*old(self))
                    }),
                    Resolved::NeedQuery => r is NeedQuery && *final(self) == *old(self),
                    Resolved::Invalid => r is Invalid && *final(self) == *old(self),
                },
            },
    {
        if let Option::Some(t) = &self.text {
            let out = clone_lines(t);
            return Resolved::Ready(out);
        }
        let got: Resolved<Vec<Vec<u8>>> = match self.try_get("text".as_bytes()) {
            Option::Some(Json::Arr(items)) => match decode_lines(items) {
                Option::Some(lines) => Resolved::Ready(lines),
                Option::None => Resolved::Invalid,
            },
            Option::Some(_) => Resolved::Invalid,
            Option::None => Resolved::NeedQuery,
        };
        if let Resolved::Ready(v) = &got {
            self.text = Option::Some(clone_lines(v));
        }
        got
    }

    /// The buffer the one `getbufline` query that resolves the text range
    /// reads from: the buffer name, which must be resolved first.
    pub fn text_query(&self) -> (r: Resolved<Vec<u8>>)
        ensures
            match self.filename {
                Option::Some(f) => r matches Resolved::Ready(q) && q@ == f@,
                Option::None => r is NeedQuery,
            },
    {
        match &self.filename {
            Option::Some(f) => Resolved::Ready(clone_bytes(f)),
            Option::None => Resolved::NeedQuery,
        }
    }

    pub fn supply_text(&mut self, t: Vec<Vec<u8>>)
        requires
            old(self).text is None,
        ensures
            ctx_v(*final(self)) == (ContextV {
                text: Option::Some(lines_v(t@)),
                ..ctx_v(*old(self))
            }),
    {
        self.text = Option::Some(t);
    }

    /// The `handle` flag: the memo, else the precomputed value, else true —
    /// the one slot that never queries the editor.
    pub fn get_handle(&mut self) -> (r: Resolved<bool>)
        ensures
            !(r is NeedQuery),
            match old(self).handle {
                Option::Some(h) => r == Resolved::<bool>::Ready(h) && *final(self) == *old(self),
                Option::None => match old(self).pre("handle".spec_bytes()) {
                    Option::Some(JsonV::Bool(b)) => r == Resolved::<bool>::Ready(b) && ctx_v(
                        *final(self),
                    ) == (ContextV { handle: Option::Some(b), ..ctx_v(*old(self)) }),
                    Option::Some(_) => r is Invalid && *final(self) == *old(self),
                    Option::None => r == Resolved::<bool>::Ready(true) && ctx_v(*final(self))
                        == (ContextV { handle: Option::Some(true), ..ctx_v(*old(self)) }),
                },
            },
    {
        if let Option::Some(h) = &self.handle {
            return Resolved::Ready(*h);
        }
        let got: Resolved<bool> = match self.try_get("handle".as_bytes()) {
            Option::Some(Json::Bool(b)) => Resolved::Ready(*b),
            Option::Some(_) => Resolved::Invalid,
            Option::None => Resolved::Ready(true),
        };
        if let Resolved::Ready(b) = &got {
            self.handle = Option::Some(*b);
        }
        got
    }
}

/// An owned copy of a line list.
fn clone_lines(t: &Vec<Vec<u8>>) -> (r: Vec<Vec<u8>>)
    ensures
        lines_v(r@) == lines_v(t@),
{
    let mut out: Vec<Vec<u8>> = Vec::new();
    let mut i: usize = 0;
    while i < t.len()
        invariant
            0 <= i <= t@.len(),
            out@.len() == i,
            forall|k: int| 0 <= k < i ==> (#[trigger] out@[k])@ == t@[k]@,
        decreases t@.len() - i,
    {
        out.push(clone_bytes(&t[i]));
        i = i + 1;
    }
    proof {
        assert(lines_v(out@) =~= lines_v(t@));
    }
    out
}

/// Reads a precomputed line list: every element must be a string.
fn decode_lines(items: &Vec<Json>) -> (r: Option<Vec<Vec<u8>>>)
    ensures
        match r {
            Option::Some(lines) => spec_str_seq(crate::json::jv_seq(items@)) == Option::Some(
                lines_v(lines@),
            ),
            Option::None => spec_str_seq(crate::json::jv_seq(items@)) is None,
        },
{
    let ghost gitems = crate::json::jv_seq(items@);
    proof {
        crate::json::lemma_jv_seq(items@);
    }
    let mut out: Vec<Vec<u8>> = Vec::new();
    let mut i: usize = 0;
    while i < items.len()
        invariant
            0 <= i <= items@.len(),
            gitems == crate::json::jv_seq(items@),
            gitems.len() == items@.len(),
            forall|k: int| 0 <= k < items@.len() ==> gitems[k] == jv(items@[k]),
            out@.len() == i,
            forall|k: int| 0 <= k < i ==> (#[trigger] gitems[k]) is Str,
            forall|k: int| 0 <= k < i ==> (#[trigger] out@[k])@ == gitems[k]->Str_0,
        decreases items@.len() - i,
    {
        match &items[i] {
            Json::Str(s) => {
                proof {
                    assert(items@[i as int] is Str);
                    assert(gitems[i as int] == JsonV::Str(s@));
                }
                out.push(clone_bytes(s));
                proof {
                    assert(out@[i as int]@ == gitems[i as int]->Str_0);
                }
            },
            _ => {
                proof {
                    lemma_spec_str_seq_bad(gitems, i as int);
                }
                return Option::None;
            },
        }
        i = i + 1;
    }
    proof {
        lemma_spec_str_seq_all(gitems, out@);
    }
    Option::Some(out)
}

/// The byte lines a value sequence spells, when every element is a string.
pub open spec fn spec_str_seq(items: Seq<JsonV>) -> Option<Seq<Seq<u8>>>
    decreases items.len(),
{
    if items.len() == 0 {
        Option::Some(Seq::empty())
    } else {
        match (items[0], spec_str_seq(items.skip(1))) {
            (JsonV::Str(s), Option::Some(rest)) => Option::Some(seq![s] + rest),
            _ => Option::None,
        }
    }
}

proof fn lemma_spec_str_seq_bad(items: Seq<JsonV>, i: int)
    requires
        0 <= i < items.len(),
        !(items[i] is Str),
    ensures
        spec_str_seq(items) is None,
    decreases i,
{
    if i > 0 {
        assert(items.skip(1)[i - 1] == items[i]);
        lemma_spec_str_seq_bad(items.skip(1), i - 1);
    }
}

proof fn lemma_spec_str_seq_all(items: Seq<JsonV>, lines: Seq<Vec<u8>>)
    requires
        lines.len() == items.len(),
        forall|k: int| 0 <= k < items.len() ==> (#[trigger] items[k]) is Str,
        forall|k: int| 0 <= k < items.len() ==> (#[trigger] lines[k])@ == items[k]->Str_0,
    ensures
        spec_str_seq(items) == Option::Some(lines_v(lines)),
    decreases items.len(),
{
    if items.len() == 0 {
        assert(lines_v(lines) =~= Seq::<Seq<u8>>::empty());
    } else {
        assert(lines[0]@ == items[0]->Str_0);
        assert forall|k: int|
            0 <= k < items.skip(1).len() implies (#[trigger] items.skip(1)[k]) is Str by {
            assert(items.skip(1)[k] == items[k + 1]);
        }
        assert forall|k: int|
            0 <= k < items.skip(1).len() implies (#[trigger] lines.skip(1)[k])@ == items.skip(
            1,
        )[k]->Str_0 by {
            assert(items.skip(1)[k] == items[k + 1]);
            assert(lines.skip(1)[k] == lines[k + 1]);
            assert(lines[k + 1]@ == items[k + 1]->Str_0);
        }
        lemma_spec_str_seq_all(items.skip(1), lines.skip(1));
        assert(lines_v(lines) =~= seq![items[0]->Str_0] + lines_v(lines.skip(1)));
        assert(spec_str_seq(items) == Option::Some(seq![items[0]->Str_0] + lines_v(lines.skip(1))));
    }
}

/// How a precomputed line-list value decodes.
pub open spec fn spec_lines(p: Option<JsonV>) -> Resolved<Seq<Seq<u8>>> {
    match p {
        Option::None => Resolved::NeedQuery,
        Option::Some(j) => match j {
            JsonV::Arr(items) => match spec_str_seq(items) {
                Option::Some(lines) => Resolved::Ready(lines),
                Option::None => Resolved::Invalid,
            },
            _ => Resolved::Invalid,
        },
    }
}

/// How a precomputed viewport value decodes.
pub open spec fn spec_viewport(p: Option<JsonV>) -> Resolved<Viewport> {
    match p {
        Option::None => Resolved::NeedQuery,
        Option::Some(j) => match j {
            JsonV::Obj(fields) => match (field_lookup(fields, "start".spec_bytes()), field_lookup(
                fields,
                "end".spec_bytes(),
            )) {
                (Option::Some(JsonV::Int(s)), Option::Some(JsonV::Int(e))) => if i64::MIN <= s
                    <= i64::MAX && i64::MIN <= e <= i64::MAX {
                    Resolved::Ready(Viewport { start: s as i64, end: e as i64 })
                } else {
                    Resolved::Invalid
                },
                _ => Resolved::Invalid,
            },
            _ => Resolved::Invalid,
        },
    }
}

/// How a precomputed position value decodes: both coordinates are
/// non-negative.
pub open spec fn spec_position(p: Option<JsonV>) -> Resolved<Position> {
    match p {
        Option::None => Resolved::NeedQuery,
        Option::Some(j) => match j {
            JsonV::Obj(fields) => match (field_lookup(fields, "line".spec_bytes()), field_lookup(
                fields,
                "character".spec_bytes(),
            )) {
                (Option::Some(JsonV::Int(l)), Option::Some(JsonV::Int(c))) => if 0 <= l
                    <= u64::MAX && 0 <= c <= u64::MAX {
                    Resolved::Ready(Position { line: l as u64, character: c as u64 })
                } else {
                    Resolved::Invalid
                },
                _ => Resolved::Invalid,
            },
            _ => Resolved::Invalid,
        },
    }
}

} // verus!
