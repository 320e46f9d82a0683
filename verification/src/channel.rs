//! The control interface: five operations over the two endpoints, as
//! request builders and response decoders around the envelope.
//!
//! The channel itself owns no descriptors: the caller owns the two byte
//! streams, writes each request line this module builds, and hands back the
//! response line where one is expected. What is verified here is everything
//! in between: the exact bytes of every request, the ready/unready life
//! cycle, the level codes and defaults of log records, and the decoding of
//! the two response-bearing operations.

use vstd::prelude::*;

use crate::envelope::{
    decode_string_response, encode_request, parse_string_response, request_text, ReqView, Request,
};
use crate::error::ChannelError;
use crate::text::{dec, esc, is_digit, lemma_dec_shape, lemma_esc_no_control, nl, qu};

verus! {

/// What the base64 crate's standard engine returns for a byte sequence.
pub uninterp spec fn base64_of(bytes: Seq<u8>) -> Seq<u8>;

/// True of the bytes the standard base64 alphabet uses, padding included.
pub open spec fn is_base64_byte(b: u8) -> bool {
    b == '+' as u8 || b == '/' as u8 || b == '=' as u8 || (48 <= b <= 57) || (65 <= b <= 90) || (
    97 <= b <= 122)
}

/// Relies on base64's `STANDARD` engine: the RFC 4648 alphabet
/// `A-Z a-z 0-9 + /` with `=` padding. The encoding depends on the input
/// bytes alone, is four bytes for every started group of three, and stays
/// within the alphabet. The length bound keeps the engine's buffer-size
/// arithmetic from overflowing.
#[verifier::external_body]
fn base64_encode(b: &[u8]) -> (r: Vec<u8>)
    requires
        4 * ((b@.len() + 2) / 3) <= usize::MAX,
    ensures
        r@ == base64_of(b@),
        r@.len() == 4 * ((b@.len() + 2) / 3),
        forall|i: int| 0 <= i < r@.len() ==> is_base64_byte(#[trigger] r@[i]),
{
    Vec::from(base64::Engine::encode(&base64::engine::general_purpose::STANDARD, b).into_bytes())
}

/// The five levels a log record can carry.
#[derive(Clone, Copy, Debug, PartialEq, Eq, Structural)]
pub enum LogLevel {
    Error,
    Warn,
    Info,
    Debug,
    Trace,
}

/// The numeric code a level travels under.
pub open spec fn level_code(l: LogLevel) -> u32 {
    match l {
        LogLevel::Error => 40,
        LogLevel::Warn => 30,
        LogLevel::Info => 20,
        LogLevel::Debug => 10,
        LogLevel::Trace => 5,
    }
}

/// The numeric code a level travels under: 40 down to 5 from `Error` down
/// to `Trace`.
pub fn level_code_of(l: LogLevel) -> (r: u32)
    ensures
        r == level_code(l),
{
    match l {
        LogLevel::Error => 40,
        LogLevel::Warn => 30,
        LogLevel::Info => 20,
        LogLevel::Debug => 10,
        LogLevel::Trace => 5,
    }
}

/// One log record: a level, a rendered message, and the origin fields,
/// absent where the caller does not know them.
pub struct LogRecord {
    pub level: LogLevel,
    pub message: Vec<u8>,
    pub origin_module: Option<Vec<u8>>,
    pub file: Option<Vec<u8>>,
    pub line: Option<u32>,
}

/// An origin text, defaulted to empty where it is unknown.
pub open spec fn origin_or_empty(o: Option<Vec<u8>>) -> Seq<u8> {
    match o {
        Some(v) => v@,
        None => Seq::<u8>::empty(),
    }
}

/// An origin line number, defaulted to zero where it is unknown.
pub open spec fn line_or_zero(o: Option<u32>) -> u32 {
    match o {
        Some(n) => n,
        None => 0,
    }
}

/// True of a text with no newline byte in it.
pub open spec fn no_nl(s: Seq<u8>) -> bool {
    forall|i: int| 0 <= i < s.len() ==> s[i] != nl()
}

/// True of a request that stays on one line once written: every request
/// does, except a RESULT whose caller-supplied text embeds a newline.
pub open spec fn line_safe(r: ReqView) -> bool {
    match r {
        ReqView::Result { json } => no_nl(json),
        _ => true,
    }
}

/// True of a complete outbound line: newline-terminated, with no newline
/// anywhere before the terminator.
pub open spec fn is_request_line(s: Seq<u8>) -> bool {
    s.len() >= 1 && s.last() == nl() && (forall|i: int| 0 <= i < s.len() - 1 ==> s[i] != nl())
}

proof fn lemma_no_nl_concat(a: Seq<u8>, b: Seq<u8>)
    requires
        no_nl(a),
        no_nl(b),
    ensures
        no_nl(a + b),
{
    assert forall|i: int| 0 <= i < (a + b).len() implies (a + b)[i] != nl() by {
        if i < a.len() {
            assert((a + b)[i] == a[i]);
        } else {
            assert((a + b)[i] == b[i - a.len()]);
        }
    }
}

proof fn lemma_no_nl_esc(s: Seq<u8>)
    ensures
        no_nl(esc(s)),
{
    lemma_esc_no_control(s);
}

proof fn lemma_no_nl_dec(n: nat)
    ensures
        no_nl(dec(n)),
{
    lemma_dec_shape(n);
    assert forall|i: int| 0 <= i < dec(n).len() implies dec(n)[i] != nl() by {
        assert(is_digit(dec(n)[i]));
    }
}

/// A line-safe request's canonical text holds no newline byte, so writing
/// it with one newline after it puts exactly one request on the wire.
pub proof fn lemma_request_text_one_line(r: ReqView)
    requires
        line_safe(r),
    ensures
        no_nl(request_text(r)),
{
    assert(no_nl(crate::envelope::lit_head()));
    assert(no_nl(crate::envelope::action_name(r)));
    assert(no_nl(seq![qu()]));
    assert(no_nl(crate::envelope::lit_param()));
    match r {
        ReqView::Flag { tick, payload } => {
            lemma_no_nl_esc(payload);
            lemma_no_nl_dec(tick as nat);
            assert(no_nl(crate::envelope::lit_flag_open()));
            assert(no_nl(crate::envelope::lit_tick()));
            assert(no_nl(crate::envelope::lit_close2()));
            lemma_no_nl_concat(crate::envelope::lit_flag_open(), esc(payload));
            lemma_no_nl_concat(crate::envelope::lit_flag_open() + esc(payload), seq![qu()]);
            lemma_no_nl_concat(
                crate::envelope::lit_flag_open() + esc(payload) + seq![qu()],
                crate::envelope::lit_tick(),
            );
            lemma_no_nl_concat(
                crate::envelope::lit_flag_open() + esc(payload) + seq![qu()]
                    + crate::envelope::lit_tick(),
                dec(tick as nat),
            );
            lemma_no_nl_concat(
                crate::envelope::lit_flag_open() + esc(payload) + seq![qu()]
                    + crate::envelope::lit_tick() + dec(tick as nat),
                crate::envelope::lit_close2(),
            );
        },
        ReqView::Store { key, data } => {
            lemma_no_nl_esc(key);
            lemma_no_nl_esc(data);
            assert(no_nl(crate::envelope::lit_store_open()));
            assert(no_nl(crate::envelope::lit_data()));
            assert(no_nl(crate::envelope::lit_close2()));
            lemma_no_nl_concat(crate::envelope::lit_store_open(), esc(key));
            lemma_no_nl_concat(crate::envelope::lit_store_open() + esc(key), seq![qu()]);
            lemma_no_nl_concat(
                crate::envelope::lit_store_open() + esc(key) + seq![qu()],
                crate::envelope::lit_data(),
            );
            lemma_no_nl_concat(
                crate::envelope::lit_store_open() + esc(key) + seq![qu()]
                    + crate::envelope::lit_data(),
                esc(data),
            );
            lemma_no_nl_concat(
                crate::envelope::lit_store_open() + esc(key) + seq![qu()]
                    + crate::envelope::lit_data() + esc(data),
                seq![qu()],
            );
            lemma_no_nl_concat(
                crate::envelope::lit_store_open() + esc(key) + seq![qu()]
                    + crate::envelope::lit_data() + esc(data) + seq![qu()],
                crate::envelope::lit_close2(),
            );
        },
        ReqView::Load { key } => {
            lemma_no_nl_esc(key);
            assert(no_nl(crate::envelope::lit_close1()));
            lemma_no_nl_concat(seq![qu()], esc(key));
            lemma_no_nl_concat(seq![qu()] + esc(key), seq![qu()]);
            lemma_no_nl_concat(
                seq![qu()] + esc(key) + seq![qu()],
                crate::envelope::lit_close1(),
            );
        },
        ReqView::Log { level, message, func_name, pathname, lineno } => {
            lemma_no_nl_esc(message);
            lemma_no_nl_esc(func_name);
            lemma_no_nl_esc(pathname);
            lemma_no_nl_dec(level as nat);
            lemma_no_nl_dec(lineno as nat);
            assert(no_nl(crate::envelope::lit_log_open()));
            assert(no_nl(crate::envelope::lit_msg()));
            assert(no_nl(crate::envelope::lit_func()));
            assert(no_nl(crate::envelope::lit_path()));
            assert(no_nl(crate::envelope::lit_lineno()));
            assert(no_nl(crate::envelope::lit_close2()));
            let a1 = crate::envelope::lit_log_open() + dec(level as nat);
            lemma_no_nl_concat(crate::envelope::lit_log_open(), dec(level as nat));
            let a2 = a1 + crate::envelope::lit_msg();
            lemma_no_nl_concat(a1, crate::envelope::lit_msg());
            let a3 = a2 + esc(message);
            lemma_no_nl_concat(a2, esc(message));
            let a4 = a3 + seq![qu()];
            lemma_no_nl_concat(a3, seq![qu()]);
            let a5 = a4 + crate::envelope::lit_func();
            lemma_no_nl_concat(a4, crate::envelope::lit_func());
            let a6 = a5 + esc(func_name);
            lemma_no_nl_concat(a5, esc(func_name));
            let a7 = a6 + seq![qu()];
            lemma_no_nl_concat(a6, seq![qu()]);
            let a8 = a7 + crate::envelope::lit_path();
            lemma_no_nl_concat(a7, crate::envelope::lit_path());
            let a9 = a8 + esc(pathname);
            lemma_no_nl_concat(a8, esc(pathname));
            let a10 = a9 + seq![qu()];
            lemma_no_nl_concat(a9, seq![qu()]);
            let a11 = a10 + crate::envelope::lit_lineno();
            lemma_no_nl_concat(a10, crate::envelope::lit_lineno());
            let a12 = a11 + dec(lineno as nat);
            lemma_no_nl_concat(a11, dec(lineno as nat));
            lemma_no_nl_concat(a12, crate::envelope::lit_close2());
        },
        ReqView::Result { json } => {
            assert(no_nl(crate::envelope::lit_close1()));
            lemma_no_nl_concat(json, crate::envelope::lit_close1());
        },
    }
    let p = crate::envelope::param_text(r);
    let h1 = crate::envelope::lit_head() + crate::envelope::action_name(r);
    lemma_no_nl_concat(crate::envelope::lit_head(), crate::envelope::action_name(r));
    let h2 = h1 + seq![qu()];
    lemma_no_nl_concat(h1, seq![qu()]);
    let h3 = h2 + crate::envelope::lit_param();
    lemma_no_nl_concat(h2, crate::envelope::lit_param());
    lemma_no_nl_concat(h3, p);
}

/// The control interface: ready after `initialize`, and the owner of the
/// request-building half of each of the five operations.
pub struct ControlChannel {
    ready: bool,
}

impl ControlChannel {
    /// True once [`ControlChannel::initialize`] has run; every operation
    /// requires it.
    pub closed spec fn is_ready(&self) -> bool {
        self.ready
    }

    /// A fresh channel, not yet initialized.
    pub fn create() -> (c: Self)
        ensures
            !c.is_ready(),
    {
        ControlChannel { ready: false }
    }

    /// The one transition from uninitialized to ready. The endpoints are
    /// assumed already open by the process's launcher, so nothing can fail
    /// here; the step is kept for the interface's life cycle.
    pub fn initialize(&mut self) -> (r: Result<(), ChannelError>)
        ensures
            final(self).is_ready(),
            r is Ok,
    {
        self.ready = true;
        Ok(())
    }

    /// Builds the one FLAG request line for a flag-checking payload: the
    /// payload travels base64-encoded beside the tick, and the supervisor
    /// owes exactly one response line back.
    pub fn check_flag_request(&self, tick: u32, payload: &[u8]) -> (line: Vec<u8>)
        requires
            self.is_ready(),
            4 * ((payload@.len() + 2) / 3) <= usize::MAX,
        ensures
            line@ == request_text(ReqView::Flag { tick, payload: base64_of(payload@) })
                + seq![nl()],
            is_request_line(line@),
    {
        let b64 = base64_encode(payload);
        let req = Request::Flag { tick, payload: b64 };
        let mut line = encode_request(&req);
        line.push(10);
        proof {
            lemma_request_text_one_line(req@);
            assert(line@.drop_last() =~= request_text(req@));
            assert forall|i: int| 0 <= i < line@.len() - 1 implies line@[i] != nl() by {
                assert(line@[i] == request_text(req@)[i]);
            }
        }
        line
    }

    /// Decodes the FLAG response: the verdict string the supervisor
    /// reported, accepted in any JSON spelling of `{"response": s}`. Fails
    /// with a `Decode` error on anything else — in particular on an empty
    /// read from a closed endpoint.
    pub fn check_flag_response(&self, line: &[u8]) -> (r: Result<Vec<u8>, ChannelError>)
        requires
            self.is_ready(),
        ensures
            match r {
                Ok(s) => parse_string_response(line@) == Some(s@),
                Err(e) => e == ChannelError::Decode && parse_string_response(line@) is None,
            },
    {
        decode_string_response(line)
    }

    /// Builds the one STORE request line for a key and the caller's value,
    /// already serialized to JSON text; the `data` field carries that text
    /// as a string. No response is expected, so nothing is to be read.
    pub fn store_request(&self, key: &[u8], data_json: &[u8]) -> (line: Vec<u8>)
        requires
            self.is_ready(),
        ensures
            line@ == request_text(ReqView::Store { key: key@, data: data_json@ }) + seq![nl()],
            is_request_line(line@),
    {
        let req = Request::Store {
            key: vstd::slice::slice_to_vec(key),
            data: vstd::slice::slice_to_vec(data_json),
        };
        let mut line = encode_request(&req);
        line.push(10);
        proof {
            lemma_request_text_one_line(req@);
            assert(line@.drop_last() =~= request_text(req@));
            assert forall|i: int| 0 <= i < line@.len() - 1 implies line@[i] != nl() by {
                assert(line@[i] == request_text(req@)[i]);
            }
        }
        line
    }

    /// Builds the one LOAD request line for a key; the supervisor owes
    /// exactly one response line whose value is the stored JSON text.
    pub fn load_request(&self, key: &[u8]) -> (line: Vec<u8>)
        requires
            self.is_ready(),
        ensures
            line@ == request_text(ReqView::Load { key: key@ }) + seq![nl()],
            is_request_line(line@),
    {
        let req = Request::Load { key: vstd::slice::slice_to_vec(key) };
        let mut line = encode_request(&req);
        line.push(10);
        proof {
            lemma_request_text_one_line(req@);
            assert(line@.drop_last() =~= request_text(req@));
            assert forall|i: int| 0 <= i < line@.len() - 1 implies line@[i] != nl() by {
                assert(line@[i] == request_text(req@)[i]);
            }
        }
        line
    }

    /// Decodes the LOAD response into the stored JSON text, for the caller
    /// to deserialize into the shape it expects; any JSON spelling of
    /// `{"response": s}` is accepted. A value of any other shape, or a
    /// closed endpoint's empty read, is a `Decode` error and never a
    /// partial value.
    pub fn load_response(&self, line: &[u8]) -> (r: Result<Vec<u8>, ChannelError>)
        requires
            self.is_ready(),
        ensures
            match r {
                Ok(s) => parse_string_response(line@) == Some(s@),
                Err(e) => e == ChannelError::Decode && parse_string_response(line@) is None,
            },
    {
        decode_string_response(line)
    }

    /// Builds the one LOG request line for a record: the level as its
    /// numeric code, the message, and the origin fields defaulted to the
    /// empty string and zero where the record does not carry them.
    /// Fire-and-forget: no response is expected.
    pub fn log_request(&self, rec: &LogRecord) -> (line: Vec<u8>)
        requires
            self.is_ready(),
        ensures
            line@ == request_text(
                ReqView::Log {
                    level: level_code(rec.level),
                    message: rec.message@,
                    func_name: origin_or_empty(rec.origin_module),
                    pathname: origin_or_empty(rec.file),
                    lineno: line_or_zero(rec.line),
                },
            ) + seq![nl()],
            is_request_line(line@),
    {
        let level = level_code_of(rec.level);
        let message = vstd::slice::slice_to_vec(rec.message.as_slice());
        let func_name: Vec<u8> = match &rec.origin_module {
            Some(v) => vstd::slice::slice_to_vec(v.as_slice()),
            None => Vec::new(),
        };
        let pathname: Vec<u8> = match &rec.file {
            Some(v) => vstd::slice::slice_to_vec(v.as_slice()),
            None => Vec::new(),
        };
        let lineno: u32 = match rec.line {
            Some(n) => n,
            None => 0,
        };
        let req = Request::Log { level, message, func_name, pathname, lineno };
        let mut line = encode_request(&req);
        line.push(10);
        proof {
            lemma_request_text_one_line(req@);
            assert(line@.drop_last() =~= request_text(req@));
            assert forall|i: int| 0 <= i < line@.len() - 1 implies line@[i] != nl() by {
                assert(line@[i] == request_text(req@)[i]);
            }
        }
        line
    }

    /// Builds the one RESULT request line around the caller's outcome,
    /// already serialized to JSON text, which travels as the `param` value
    /// itself. The text must hold no newline, as the caller is responsible
    /// for values that serialize without line breaks. Fire-and-forget.
    pub fn submit_result_request(&self, result_json: &[u8]) -> (line: Vec<u8>)
        requires
            self.is_ready(),
            no_nl(result_json@),
        ensures
            line@ == request_text(ReqView::Result { json: result_json@ }) + seq![nl()],
            is_request_line(line@),
    {
        let req = Request::Result { json: vstd::slice::slice_to_vec(result_json) };
        let mut line = encode_request(&req);
        line.push(10);
        proof {
            lemma_request_text_one_line(req@);
            assert(line@.drop_last() =~= request_text(req@));
            assert forall|i: int| 0 <= i < line@.len() - 1 implies line@[i] != nl() by {
                assert(line@[i] == request_text(req@)[i]);
            }
        }
        line
    }
}

} // verus!
