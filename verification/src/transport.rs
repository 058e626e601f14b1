//! The framed transport: how messages become wire frames and how a stream of
//! header lines and bodies is turned back into messages.
//!
//! A headered connection carries `Content-Length: <n>` header lines, a blank
//! line, then exactly `n` body bytes. The reader here is a state machine fed
//! one header line at a time; the surrounding loop owns the byte stream and
//! performs the reads the machine asks for.

use vstd::prelude::*;
use vstd::string::StringSliceAdditionalSpecFns;
use vstd::string::StrSliceExecFns;
use crate::json::jv;
use crate::message::{Message, msg_v, msg_fits, wf_msg, MessageV, msg_jv, msg_to_json,
    json_to_msg};
use crate::codec::{jser, wf_jv, dec_digits, json_encode, json_parse};

verus! {

/// Whitespace as the wire knows it.
pub open spec fn ws_byte(b: u8) -> bool {
    b == 32 || b == 9 || b == 10 || b == 13
}

/// A sequence with nothing but whitespace in it.
pub open spec fn blank(s: Seq<u8>) -> bool {
    forall|i: int| 0 <= i < s.len() ==> ws_byte(#[trigger] s[i])
}

/// Whether `s` begins with `p`.
pub open spec fn starts_with(s: Seq<u8>, p: Seq<u8>) -> bool {
    p.len() <= s.len() && s.subrange(0, p.len() as int) == p
}

pub open spec fn trim_front(s: Seq<u8>) -> Seq<u8>
    decreases s.len(),
{
    if s.len() > 0 && ws_byte(s[0]) {
        trim_front(s.skip(1))
    } else {
        s
    }
}

pub open spec fn trim_back(s: Seq<u8>) -> Seq<u8>
    decreases s.len(),
{
    if s.len() > 0 && ws_byte(s[s.len() - 1]) {
        trim_back(s.take(s.len() - 1))
    } else {
        s
    }
}

pub open spec fn trimmed(s: Seq<u8>) -> Seq<u8> {
    trim_front(trim_back(s))
}

/// The position of the first colon, if any.
pub open spec fn find_colon(s: Seq<u8>) -> Option<int>
    decreases s.len(),
{
    if s.len() == 0 {
        Option::None
    } else if s[0] == 58 {
        Option::Some(0)
    } else {
        match find_colon(s.skip(1)) {
            Option::Some(i) => Option::Some(i + 1),
            Option::None => Option::None,
        }
    }
}

/// The number a digit run stands for, folded onto `acc`; nothing when a
/// non-digit stands in it.
pub open spec fn digits_val(s: Seq<u8>, acc: nat) -> Option<nat>
    decreases s.len(),
{
    if s.len() == 0 {
        Option::Some(acc)
    } else if 48 <= s[0] <= 57 {
        digits_val(s.skip(1), acc * 10 + (s[0] - 48) as nat)
    } else {
        Option::None
    }
}

/// What a `Content-Length` header line announces: the value after its first
/// colon, trimmed, read as a decimal number that fits the machine. Anything
/// else is a malformed header.
pub open spec fn spec_content_length(line: Seq<u8>) -> Option<int> {
    match find_colon(line) {
        Option::None => Option::None,
        Option::Some(ci) => {
            let v = trimmed(line.skip(ci + 1));
            if v.len() == 0 {
                Option::None
            } else {
                match digits_val(v, 0) {
                    Option::Some(n) => if n <= usize::MAX {
                        Option::Some(n as int)
                    } else {
                        Option::None
                    },
                    Option::None => Option::None,
                }
            }
        },
    }
}

/// The header block announcing `n` body bytes.
pub open spec fn header_bytes(n: nat) -> Seq<u8> {
    "Content-Length: ".spec_bytes() + dec_digits(n) + seq![13u8, 10u8, 13u8, 10u8]
}

/// One complete frame: header block, then exactly the body.
pub open spec fn frame_bytes(body: Seq<u8>) -> Seq<u8> {
    header_bytes(body.len()) + body
}

/// Wraps one body in a frame whose `Content-Length` is exactly the body's
/// byte count.
pub fn encode_frame(body: &Vec<u8>) -> (r: Vec<u8>)
    ensures
        r@ == frame_bytes(body@),
{
    let mut out: Vec<u8> = "Content-Length: ".as_bytes_vec();
    crate::codec::append_dec(body.len() as u64, &mut out);
    out.push(13);
    out.push(10);
    out.push(13);
    out.push(10);
    let ghost hdr = out@;
    proof {
        assert(hdr =~= header_bytes(body@.len()));
    }
    let mut i: usize = 0;
    while i < body.len()
        invariant
            0 <= i <= body@.len(),
            out@ == hdr + body@.take(i as int),
        decreases body@.len() - i,
    {
        out.push(body[i]);
        proof {
            assert(hdr + body@.take(i as int + 1) =~= (hdr + body@.take(i as int)).push(
                body@[i as int],
            ));
        }
        i = i + 1;
    }
    proof {
        assert(body@.take(body@.len() as int) =~= body@);
    }
    out
}

/// Writes a message as one complete frame: the compact JSON text of the
/// object the message stands for, behind a header announcing its length.
pub fn encode_message(m: Message) -> (r: Vec<u8>)
    requires
        msg_fits(m),
    ensures
        r@ == frame_bytes(jser(msg_jv(msg_v(m)))),
{
    let j = msg_to_json(m);
    let body = json_encode(&j);
    encode_frame(&body)
}

/// Round trip at the frame level: a frame determines its message. Two
/// well-formed messages written as the same frame are the same message —
/// the header spells one body length, the body spells one JSON value, and
/// that value classifies back to exactly the message it was written from.
pub proof fn lemma_frame_determines_message(m1: MessageV, m2: MessageV)
    requires
        crate::message::wf_msg(m1),
        crate::message::wf_msg(m2),
        frame_bytes(jser(msg_jv(m1))) == frame_bytes(jser(msg_jv(m2))),
    ensures
        m1 == m2,
{
    let b1 = jser(msg_jv(m1));
    let b2 = jser(msg_jv(m2));
    let p = "Content-Length: ".spec_bytes();
    let crlf = seq![13u8, 10u8, 13u8, 10u8];
    assert(frame_bytes(b1) =~= p + (dec_digits(b1.len()) + (crlf + b1)));
    assert(frame_bytes(b2) =~= p + (dec_digits(b2.len()) + (crlf + b2)));
    crate::codec::lemma_concat_cancel(
        p,
        dec_digits(b1.len()) + (crlf + b1),
        p,
        dec_digits(b2.len()) + (crlf + b2),
    );
    assert((crlf + b1)[0] == 13);
    assert((crlf + b2)[0] == 13);
    crate::codec::lemma_dec_digits_unique(b1.len(), b2.len(), crlf + b1, crlf + b2);
    crate::codec::lemma_concat_cancel(crlf, b1, crlf, b2);
    crate::codec::lemma_jser_injective(msg_jv(m1), msg_jv(m2));
    crate::message::lemma_classify_inverts_msg_jv(m1);
    crate::message::lemma_classify_inverts_msg_jv(m2);
}

/// Whether every byte of `s` is whitespace.
pub fn is_blank(s: &[u8]) -> (r: bool)
    ensures
        r == blank(s@),
{
    let mut i: usize = 0;
    while i < s.len()
        invariant
            0 <= i <= s@.len(),
            forall|k: int| 0 <= k < i ==> ws_byte(#[trigger] s@[k]),
        decreases s@.len() - i,
    {
        let b = s[i];
        if !(b == 32 || b == 9 || b == 10 || b == 13) {
            return false;
        }
        i = i + 1;
    }
    true
}

proof fn lemma_trim_back_char(s: Seq<u8>, m: int)
    requires
        0 <= m <= s.len(),
        forall|k: int| m <= k < s.len() ==> ws_byte(#[trigger] s[k]),
        m > 0 ==> !ws_byte(s[m - 1]),
    ensures
        trim_back(s) == s.take(m),
    decreases s.len(),
{
    if s.len() > 0 && ws_byte(s[s.len() - 1]) {
        assert(m < s.len());
        lemma_trim_back_char(s.take(s.len() - 1), m);
        assert(s.take(s.len() - 1).take(m) =~= s.take(m));
    } else {
        assert(m == s.len());
        assert(s.take(m) =~= s);
    }
}

proof fn lemma_trim_front_char(s: Seq<u8>, a: int)
    requires
        0 <= a <= s.len(),
        forall|k: int| 0 <= k < a ==> ws_byte(#[trigger] s[k]),
        a < s.len() ==> !ws_byte(s[a]),
    ensures
        trim_front(s) == s.skip(a),
    decreases s.len(),
{
    if s.len() > 0 && ws_byte(s[0]) {
        assert(a > 0);
        lemma_trim_front_char(s.skip(1), a - 1);
        assert(s.skip(1).skip(a - 1) =~= s.skip(a));
    } else {
        assert(a == 0);
        assert(s.skip(0) =~= s);
    }
}

/// The part of a line that remains once surrounding whitespace goes.
pub fn trim_bounds(line: &[u8]) -> (r: (usize, usize))
    ensures
        r.0 <= r.1 <= line@.len(),
        trimmed(line@) == line@.subrange(r.0 as int, r.1 as int),
{
    let mut e: usize = line.len();
    while e > 0 && (line[e - 1] == 32 || line[e - 1] == 9 || line[e - 1] == 10 || line[e - 1]
        == 13)
        invariant
            0 <= e <= line@.len(),
            forall|k: int| e <= k < line@.len() ==> ws_byte(#[trigger] line@[k]),
        decreases e,
    {
        e = e - 1;
    }
    proof {
        lemma_trim_back_char(line@, e as int);
    }
    let mut a: usize = 0;
    while a < e && (line[a] == 32 || line[a] == 9 || line[a] == 10 || line[a] == 13)
        invariant
            0 <= a <= e <= line@.len(),
            forall|k: int| 0 <= k < a ==> ws_byte(#[trigger] line@[k]),
        decreases e - a,
    {
        a = a + 1;
    }
    proof {
        let t = line@.take(e as int);
        lemma_trim_front_char(t, a as int);
        assert(t.skip(a as int) =~= line@.subrange(a as int, e as int));
    }
    (a, e)
}

/// Whether the slice begins with the given prefix.
pub fn starts_with_bytes(s: &[u8], p: &[u8]) -> (r: bool)
    ensures
        r == starts_with(s@, p@),
{
    if p.len() > s.len() {
        return false;
    }
    let mut i: usize = 0;
    while i < p.len()
        invariant
            0 <= i <= p@.len() <= s@.len(),
            forall|k: int| 0 <= k < i ==> s@[k] == p@[k],
        decreases p@.len() - i,
    {
        if s[i] != p[i] {
            assert(s@.subrange(0, p@.len() as int)[i as int] != p@[i as int]);
            return false;
        }
        i = i + 1;
    }
    proof {
        assert(s@.subrange(0, p@.len() as int) =~= p@);
    }
    true
}

proof fn lemma_find_colon_at(s: Seq<u8>, i: int)
    requires
        0 <= i < s.len(),
        s[i] == 58,
        forall|k: int| 0 <= k < i ==> s[k] != 58,
    ensures
        find_colon(s) == Option::Some(i),
    decreases s.len(),
{
    if i > 0 {
        lemma_find_colon_at(s.skip(1), i - 1);
    }
}

proof fn lemma_find_colon_none(s: Seq<u8>)
    requires
        forall|k: int| 0 <= k < s.len() ==> s[k] != 58,
    ensures
        find_colon(s) is None,
    decreases s.len(),
{
    if s.len() > 0 {
        lemma_find_colon_none(s.skip(1));
    }
}

/// When a digit run folds to a value, the value is no less than what it
/// started from.
proof fn lemma_digits_val_ge(s: Seq<u8>, acc: nat)
    ensures
        digits_val(s, acc) matches Option::Some(n) ==> n >= acc,
    decreases s.len(),
{
    if s.len() > 0 && 48 <= s[0] <= 57 {
        lemma_digits_val_ge(s.skip(1), acc * 10 + (s[0] - 48) as nat);
    }
}

/// Reads the byte count a `Content-Length` header line announces, exactly as
/// [`spec_content_length`] has it.
pub fn parse_content_length(line: &[u8]) -> (r: Option<usize>)
    ensures
        match r {
            Option::Some(n) => spec_content_length(line@) == Option::Some(n as int),
            Option::None => spec_content_length(line@) is None,
        },
{
    let mut ci: usize = 0;
    while ci < line.len() && line[ci] != 58
        invariant
            0 <= ci <= line@.len(),
            forall|k: int| 0 <= k < ci ==> line@[k] != 58,
        decreases line@.len() - ci,
    {
        ci = ci + 1;
    }
    if ci == line.len() {
        proof {
            lemma_find_colon_none(line@);
        }
        return Option::None;
    }
    proof {
        lemma_find_colon_at(line@, ci as int);
    }
    let rest = vstd::slice::slice_subrange(line, ci + 1, line.len());
    let (a, e) = trim_bounds(rest);
    let ghost v = trimmed(line@.skip(ci + 1));
    proof {
        assert(line@.subrange(ci as int + 1, line@.len() as int) =~= line@.skip(ci + 1));
    }
    if a == e {
        return Option::None;
    }
    proof {
        assert(v.skip(0) =~= v);
    }
    let mut val: usize = 0;
    let mut k = a;
    while k < e
        invariant
            a <= k <= e <= rest@.len(),
            find_colon(line@) == Option::Some(ci as int),
            v == trimmed(line@.skip(ci as int + 1)),
            v == rest@.subrange(a as int, e as int),
            a < e,
            digits_val(v, 0) == digits_val(v.skip(k as int - a), val as nat),
        decreases e - k,
    {
        let b = rest[k];
        proof {
            assert(v.skip(k as int - a)[0] == rest@[k as int]);
        }
        if !(48 <= b && b <= 57) {
            return Option::None;
        }
        let d = (b - 48) as usize;
        if val > (usize::MAX - d) / 10 {
            proof {
                assert((val as nat) * 10 + d as nat > usize::MAX) by (nonlinear_arith)
                    requires
                        val as nat > (usize::MAX as nat - d as nat) / 10,
                        d as nat <= 9,
                ;
                assert(v.skip(k as int - a).skip(1) =~= v.skip(k as int - a + 1));
                assert(digits_val(v, 0) == digits_val(
                    v.skip(k as int - a + 1),
                    (val as nat) * 10 + (d as nat),
                ));
                lemma_digits_val_ge(v.skip(k as int - a + 1), (val as nat) * 10 + (d as nat));
                assert(spec_content_length(line@) is None);
            }
            return Option::None;
        }
        assert(val * 10 + d <= usize::MAX) by (nonlinear_arith)
            requires
                val <= (usize::MAX - d) / 10,
                d <= 9,
        ;
        proof {
            assert(v.skip(k as int - a).skip(1) =~= v.skip(k as int - a + 1));
        }
        val = val * 10 + d;
        k = k + 1;
    }
    proof {
        assert(v.skip(e as int - a).len() == 0);
    }
    Option::Some(val)
}

/// The reading side of one headered connection, between lines: the length
/// the last `Content-Length` header announced, and how many blank lines
/// arrived in a row.
pub struct ReaderState {
    pub content_length: usize,
    pub empty_lines: u32,
}

/// What the read loop must do after one header line.
pub enum HeaderStep {
    /// Keep reading header lines.
    Skip,
    /// A malformed `Content-Length` header: report it, then keep reading —
    /// a framing error never tears the connection down.
    BadHeader,
    /// Read this many body bytes and hand them to [`handle_body`].
    GetBody(usize),
    /// The connection is dead: tear it down and fail its pending calls.
    Fail,
}

impl ReaderState {
    pub open spec fn wf(self) -> bool {
        self.empty_lines <= 5
    }

    pub fn new() -> (r: ReaderState)
        ensures
            r.content_length == 0,
            r.empty_lines == 0,
            r.wf(),
    {
        ReaderState { content_length: 0, empty_lines: 0 }
    }

    /// Advances the reader by one header line.
    ///
    /// A blank line ends a header block: the body announced by the last
    /// `Content-Length` header is due — unless it is the sixth blank line in
    /// a row, which means the stream is dead. Any other line resets that
    /// count; a line that does not begin with `Content-Length` is ignored,
    /// and a `Content-Length` line sets the length. A `Content-Length` line
    /// whose value does not read as a number is a framing error: reported
    /// and skipped, the connection goes on with the length it had.
    pub fn step_header_line(&mut self, line: &[u8]) -> (r: HeaderStep)
        requires
            old(self).wf(),
        ensures
            !(r is Fail) ==> final(self).wf(),
            trimmed(line@).len() == 0 ==> {
                &&& final(self).content_length == old(self).content_length
                &&& final(self).empty_lines == old(self).empty_lines + 1
                &&& (old(self).empty_lines + 1 > 5 ==> r is Fail)
                &&& (old(self).empty_lines + 1 <= 5 ==> r == HeaderStep::GetBody(
                    old(self).content_length,
                ))
            },
            trimmed(line@).len() > 0 ==> {
                &&& final(self).empty_lines == 0
                &&& (!starts_with(trimmed(line@), "Content-Length".spec_bytes()) ==> r is Skip
                    && final(self).content_length == old(self).content_length)
                &&& (starts_with(trimmed(line@), "Content-Length".spec_bytes())
                    ==> match spec_content_length(trimmed(line@)) {
                    Option::Some(n) => r is Skip && final(self).content_length == n,
                    Option::None => r is BadHeader && final(self).content_length == old(
                        self,
                    ).content_length,
                })
            },
    {
        let (a, e) = trim_bounds(line);
        if a == e {
            self.empty_lines = self.empty_lines + 1;
            if self.empty_lines > 5 {
                return HeaderStep::Fail;
            }
            return HeaderStep::GetBody(self.content_length);
        }
        self.empty_lines = 0;
        let t = vstd::slice::slice_subrange(line, a, e);
        if !starts_with_bytes(t, "Content-Length".as_bytes()) {
            return HeaderStep::Skip;
        }
        match parse_content_length(t) {
            Option::Some(n) => {
                self.content_length = n;
                HeaderStep::Skip
            },
            Option::None => HeaderStep::BadHeader,
        }
    }
}

/// What one received body amounts to.
pub enum BodyOutcome {
    /// Nothing but whitespace: skipped without classification.
    Blank,
    /// Not one well-formed message: reported and dropped, the connection
    /// goes on.
    Malformed,
    /// One classified message.
    Event(Message),
}

/// Reads one body: a whitespace-only body is skipped, a body that is not
/// one JSON value standing for a message is malformed, anything else is the
/// message it spells. The reader accepts the writer: a body that is exactly
/// the rendering of a well-formed message comes back as that message — the
/// round trip of the stated properties.
pub fn handle_body(body: &[u8]) -> (r: BodyOutcome)
    ensures
        (r is Blank) == blank(body@),
        forall|mv: MessageV| wf_msg(mv) && wf_jv(msg_jv(mv)) && body@ == #[trigger] jser(
            msg_jv(mv),
        ) ==> (r matches BodyOutcome::Event(m) && msg_v(m) == mv),
{
    if is_blank(body) {
        proof {
            assert forall|mv: MessageV| !(wf_msg(mv) && wf_jv(msg_jv(mv)) && body@ == #[trigger]
            jser(msg_jv(mv))) by {
                if wf_msg(mv) && body@ == jser(msg_jv(mv)) {
                    crate::codec::lemma_jser_first_byte(msg_jv(mv));
                    assert(ws_byte(body@[0]));
                    assert(false);
                }
            }
        }
        return BodyOutcome::Blank;
    }
    match json_parse(body) {
        Option::None => {
            proof {
                assert forall|mv: MessageV| !(wf_msg(mv) && wf_jv(msg_jv(mv)) && body@
                    == #[trigger] jser(msg_jv(mv))) by {
                }
            }
            BodyOutcome::Malformed
        },
        Option::Some(j) => match json_to_msg(&j) {
            Option::Some(m) => {
                proof {
                    assert forall|mv: MessageV| wf_msg(mv) && wf_jv(msg_jv(mv)) && body@
                        == #[trigger] jser(msg_jv(mv)) implies msg_v(m) == mv by {
                        assert(jv(j) == msg_jv(mv));
                        crate::message::lemma_classify_inverts_msg_jv(mv);
                    }
                }
                BodyOutcome::Event(m)
            },
            Option::None => {
                proof {
                    assert forall|mv: MessageV| !(wf_msg(mv) && wf_jv(msg_jv(mv)) && body@
                        == #[trigger] jser(msg_jv(mv))) by {
                        if wf_msg(mv) && wf_jv(msg_jv(mv)) && body@ == jser(msg_jv(mv)) {
                            assert(jv(j) == msg_jv(mv));
                            crate::message::lemma_classify_inverts_msg_jv(mv);
                            assert(false);
                        }
                    }
                }
                BodyOutcome::Malformed
            },
        },
    }
}

} // verus!
