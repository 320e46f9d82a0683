//! The message envelope: the exact wire text of each of the five requests,
//! and the decoding of request and response lines.
//!
//! A request travels as `{"action": A, "param": P}` on one line, where `A`
//! names one of the five operations and `P` is the action's parameter; a
//! response travels as `{"response": V}`. Outbound, the spec functions pin
//! the canonical text byte for byte and the request parser accepts exactly
//! that text, so that decoding an encoded request recovers it losslessly.
//! Inbound, the supervisor is a black box bound only to the JSON form, so
//! the response parsers accept every spelling of it the grammar allows.

use vstd::prelude::*;

use crate::error::ChannelError;
use crate::text::{
    dec, dec_into, esc, escape_into, is_digit, is_plain, is_ws, json_str_body, json_str_exec,
    lemma_esc_plain, lemma_json_str_extends_canonical, lemma_parse_str_complete,
    lemma_parse_str_sound, lemma_parse_u32_complete, lemma_parse_u32_sound, match_at, nl,
    parse_str_body, parse_str_exec, parse_u32_at, parse_u32_exec, qu, rstrip_ws, rstrip_ws_exec,
    skip_ws_exec, starts_with, ws_prefix_len, ws_skip,
};

verus! {

/// `{"action":"`
pub open spec fn lit_head() -> Seq<u8> {
    seq![
        '{' as u8,
        '"' as u8,
        'a' as u8,
        'c' as u8,
        't' as u8,
        'i' as u8,
        'o' as u8,
        'n' as u8,
        '"' as u8,
        ':' as u8,
        '"' as u8,
    ]
}

/// `,"param":` — what follows the action name's closing quote.
pub open spec fn lit_param() -> Seq<u8> {
    seq![
        ',' as u8,
        '"' as u8,
        'p' as u8,
        'a' as u8,
        'r' as u8,
        'a' as u8,
        'm' as u8,
        '"' as u8,
        ':' as u8,
    ]
}

/// `FLAG`
pub open spec fn lit_flag() -> Seq<u8> {
    seq!['F' as u8, 'L' as u8, 'A' as u8, 'G' as u8]
}

/// `STORE`
pub open spec fn lit_store() -> Seq<u8> {
    seq!['S' as u8, 'T' as u8, 'O' as u8, 'R' as u8, 'E' as u8]
}

/// `LOAD`
pub open spec fn lit_load() -> Seq<u8> {
    seq!['L' as u8, 'O' as u8, 'A' as u8, 'D' as u8]
}

/// `LOG`
pub open spec fn lit_log() -> Seq<u8> {
    seq!['L' as u8, 'O' as u8, 'G' as u8]
}

/// `RESULT`
pub open spec fn lit_result() -> Seq<u8> {
    seq!['R' as u8, 'E' as u8, 'S' as u8, 'U' as u8, 'L' as u8, 'T' as u8]
}

/// `{"payload":"`
pub open spec fn lit_flag_open() -> Seq<u8> {
    seq![
        '{' as u8,
        '"' as u8,
        'p' as u8,
        'a' as u8,
        'y' as u8,
        'l' as u8,
        'o' as u8,
        'a' as u8,
        'd' as u8,
        '"' as u8,
        ':' as u8,
        '"' as u8,
    ]
}

/// `,"tick":`
pub open spec fn lit_tick() -> Seq<u8> {
    seq![',' as u8, '"' as u8, 't' as u8, 'i' as u8, 'c' as u8, 'k' as u8, '"' as u8, ':' as u8]
}

/// `{"key":"`
pub open spec fn lit_store_open() -> Seq<u8> {
    seq![
        '{' as u8,
        '"' as u8,
        'k' as u8,
        'e' as u8,
        'y' as u8,
        '"' as u8,
        ':' as u8,
        '"' as u8,
    ]
}

/// `,"data":"`
pub open spec fn lit_data() -> Seq<u8> {
    seq![
        ',' as u8,
        '"' as u8,
        'd' as u8,
        'a' as u8,
        't' as u8,
        'a' as u8,
        '"' as u8,
        ':' as u8,
        '"' as u8,
    ]
}

/// `{"level":`
pub open spec fn lit_log_open() -> Seq<u8> {
    seq![
        '{' as u8,
        '"' as u8,
        'l' as u8,
        'e' as u8,
        'v' as u8,
        'e' as u8,
        'l' as u8,
        '"' as u8,
        ':' as u8,
    ]
}

/// `,"message":"`
pub open spec fn lit_msg() -> Seq<u8> {
    seq![
        ',' as u8,
        '"' as u8,
        'm' as u8,
        'e' as u8,
        's' as u8,
        's' as u8,
        'a' as u8,
        'g' as u8,
        'e' as u8,
        '"' as u8,
        ':' as u8,
        '"' as u8,
    ]
}

/// `,"funcName":"`
pub open spec fn lit_func() -> Seq<u8> {
    seq![
        ',' as u8,
        '"' as u8,
        'f' as u8,
        'u' as u8,
        'n' as u8,
        'c' as u8,
        'N' as u8,
        'a' as u8,
        'm' as u8,
        'e' as u8,
        '"' as u8,
        ':' as u8,
        '"' as u8,
    ]
}

/// `,"pathname":"`
pub open spec fn lit_path() -> Seq<u8> {
    seq![
        ',' as u8,
        '"' as u8,
        'p' as u8,
        'a' as u8,
        't' as u8,
        'h' as u8,
        'n' as u8,
        'a' as u8,
        'm' as u8,
        'e' as u8,
        '"' as u8,
        ':' as u8,
        '"' as u8,
    ]
}

/// `,"lineno":`
pub open spec fn lit_lineno() -> Seq<u8> {
    seq![
        ',' as u8,
        '"' as u8,
        'l' as u8,
        'i' as u8,
        'n' as u8,
        'e' as u8,
        'n' as u8,
        'o' as u8,
        '"' as u8,
        ':' as u8,
    ]
}

/// `{"response":`
pub open spec fn lit_resp() -> Seq<u8> {
    seq![
        '{' as u8,
        '"' as u8,
        'r' as u8,
        'e' as u8,
        's' as u8,
        'p' as u8,
        'o' as u8,
        'n' as u8,
        's' as u8,
        'e' as u8,
        '"' as u8,
        ':' as u8,
    ]
}

/// `}}`
pub open spec fn lit_close2() -> Seq<u8> {
    seq!['}' as u8, '}' as u8]
}

/// `}`
pub open spec fn lit_close1() -> Seq<u8> {
    seq!['}' as u8]
}

/// The mathematical shape of one request: the action and its parameter.
/// `Flag` carries the already base64-encoded payload; `Store` and `Result`
/// carry the caller's value in its serialized JSON text form, since the
/// protocol is shape-agnostic about what the caller stores or submits.
pub enum ReqView {
    Flag { tick: u32, payload: Seq<u8> },
    Store { key: Seq<u8>, data: Seq<u8> },
    Load { key: Seq<u8> },
    Log { level: u32, message: Seq<u8>, func_name: Seq<u8>, pathname: Seq<u8>, lineno: u32 },
    Result { json: Seq<u8> },
}

/// One request as executable data; its view is the [`ReqView`] it stands for.
#[derive(Debug, PartialEq, Eq)]
pub enum Request {
    Flag { tick: u32, payload: Vec<u8> },
    Store { key: Vec<u8>, data: Vec<u8> },
    Load { key: Vec<u8> },
    Log { level: u32, message: Vec<u8>, func_name: Vec<u8>, pathname: Vec<u8>, lineno: u32 },
    Result { json: Vec<u8> },
}

impl View for Request {
    type V = ReqView;

    open spec fn view(&self) -> ReqView {
        match self {
            Request::Flag { tick, payload } => ReqView::Flag { tick: *tick, payload: payload@ },
            Request::Store { key, data } => ReqView::Store { key: key@, data: data@ },
            Request::Load { key } => ReqView::Load { key: key@ },
            Request::Log { level, message, func_name, pathname, lineno } => ReqView::Log {
                level: *level,
                message: message@,
                func_name: func_name@,
                pathname: pathname@,
                lineno: *lineno,
            },
            Request::Result { json } => ReqView::Result { json: json@ },
        }
    }
}

/// The action tag a request travels under.
pub open spec fn action_name(r: ReqView) -> Seq<u8> {
    match r {
        ReqView::Flag { .. } => lit_flag(),
        ReqView::Store { .. } => lit_store(),
        ReqView::Load { .. } => lit_load(),
        ReqView::Log { .. } => lit_log(),
        ReqView::Result { .. } => lit_result(),
    }
}

/// True where a request expects exactly one response line back; the other
/// three actions are fire-and-forget.
pub open spec fn expects_reply(r: ReqView) -> bool {
    match r {
        ReqView::Flag { .. } => true,
        ReqView::Load { .. } => true,
        _ => false,
    }
}

/// The canonical text of a request's `param` value, together with the
/// closing brace of the envelope.
pub open spec fn param_text(r: ReqView) -> Seq<u8> {
    match r {
        ReqView::Flag { tick, payload } => lit_flag_open() + esc(payload) + seq![qu()]
            + lit_tick() + dec(tick as nat) + lit_close2(),
        ReqView::Store { key, data } => lit_store_open() + esc(key) + seq![qu()] + lit_data()
            + esc(data) + seq![qu()] + lit_close2(),
        ReqView::Load { key } => seq![qu()] + esc(key) + seq![qu()] + lit_close1(),
        ReqView::Log { level, message, func_name, pathname, lineno } => lit_log_open() + dec(
            level as nat,
        ) + lit_msg() + esc(message) + seq![qu()] + lit_func() + esc(func_name) + seq![qu()]
            + lit_path() + esc(pathname) + seq![qu()] + lit_lineno() + dec(lineno as nat)
            + lit_close2(),
        ReqView::Result { json } => json + lit_close1(),
    }
}

/// The canonical text of a whole request: one JSON document, not yet
/// newline-terminated.
pub open spec fn request_text(r: ReqView) -> Seq<u8> {
    lit_head() + action_name(r) + seq![qu()] + lit_param() + param_text(r)
}

/// Parses the `param` of a FLAG request and the envelope's close.
pub open spec fn parse_flag(t: Seq<u8>) -> Option<ReqView> {
    if !starts_with(t, lit_flag_open()) {
        None
    } else {
        match parse_str_body(t.skip(lit_flag_open().len() as int)) {
            None => None,
            Some((payload, r1)) => if !starts_with(r1, lit_tick()) {
                None
            } else {
                match parse_u32_at(r1.skip(lit_tick().len() as int)) {
                    None => None,
                    Some((tick, r2)) => if r2 == lit_close2() {
                        Some(ReqView::Flag { tick, payload })
                    } else {
                        None
                    },
                }
            },
        }
    }
}

/// Parses the `param` of a STORE request and the envelope's close.
pub open spec fn parse_store(t: Seq<u8>) -> Option<ReqView> {
    if !starts_with(t, lit_store_open()) {
        None
    } else {
        match parse_str_body(t.skip(lit_store_open().len() as int)) {
            None => None,
            Some((key, r1)) => if !starts_with(r1, lit_data()) {
                None
            } else {
                match parse_str_body(r1.skip(lit_data().len() as int)) {
                    None => None,
                    Some((data, r2)) => if r2 == lit_close2() {
                        Some(ReqView::Store { key, data })
                    } else {
                        None
                    },
                }
            },
        }
    }
}

/// Parses the `param` of a LOAD request and the envelope's close.
pub open spec fn parse_load(t: Seq<u8>) -> Option<ReqView> {
    if t.len() < 1 || t.first() != qu() {
        None
    } else {
        match parse_str_body(t.skip(1)) {
            None => None,
            Some((key, r1)) => if r1 == lit_close1() {
                Some(ReqView::Load { key })
            } else {
                None
            },
        }
    }
}

/// Parses the `param` of a LOG request and the envelope's close.
pub open spec fn parse_log(t: Seq<u8>) -> Option<ReqView> {
    if !starts_with(t, lit_log_open()) {
        None
    } else {
        match parse_u32_at(t.skip(lit_log_open().len() as int)) {
            None => None,
            Some((level, r1)) => if !starts_with(r1, lit_msg()) {
                None
            } else {
                match parse_str_body(r1.skip(lit_msg().len() as int)) {
                    None => None,
                    Some((message, r2)) => if !starts_with(r2, lit_func()) {
                        None
                    } else {
                        match parse_str_body(r2.skip(lit_func().len() as int)) {
                            None => None,
                            Some((func_name, r3)) => if !starts_with(r3, lit_path()) {
                                None
                            } else {
                                match parse_str_body(r3.skip(lit_path().len() as int)) {
                                    None => None,
                                    Some((pathname, r4)) => if !starts_with(r4, lit_lineno()) {
                                        None
                                    } else {
                                        match parse_u32_at(r4.skip(lit_lineno().len() as int)) {
                                            None => None,
                                            Some((lineno, r5)) => if r5 == lit_close2() {
                                                Some(
                                                    ReqView::Log {
                                                        level,
                                                        message,
                                                        func_name,
                                                        pathname,
                                                        lineno,
                                                    },
                                                )
                                            } else {
                                                None
                                            },
                                        }
                                    },
                                }
                            },
                        }
                    },
                }
            },
        }
    }
}

/// Parses the `param` of a RESULT request and the envelope's close. The
/// value is the caller's own serialized text and is passed through raw.
pub open spec fn parse_result(t: Seq<u8>) -> Option<ReqView> {
    if t.len() >= 1 && t.last() == '}' as u8 {
        Some(ReqView::Result { json: t.drop_last() })
    } else {
        None
    }
}

/// Parses one request document: `None` exactly where the text is not the
/// canonical text of any request.
pub open spec fn parse_request(line: Seq<u8>) -> Option<ReqView> {
    if !starts_with(line, lit_head()) {
        None
    } else {
        match parse_str_body(line.skip(lit_head().len() as int)) {
            None => None,
            Some((name, r1)) => if !starts_with(r1, lit_param()) {
                None
            } else {
                let body = r1.skip(lit_param().len() as int);
                if name == lit_flag() {
                    parse_flag(body)
                } else if name == lit_store() {
                    parse_store(body)
                } else if name == lit_load() {
                    parse_load(body)
                } else if name == lit_log() {
                    parse_log(body)
                } else if name == lit_result() {
                    parse_result(body)
                } else {
                    None
                }
            },
        }
    }
}

/// A text that begins with `p` begins with `p`: the decomposition used by
/// every completeness step.
proof fn lemma_chop(p: Seq<u8>, r: Seq<u8>)
    ensures
        starts_with(p + r, p),
        (p + r).skip(p.len() as int) == r,
{
    assert((p + r).take(p.len() as int) =~= p);
    assert((p + r).skip(p.len() as int) =~= r);
}

/// A text that begins with `p` is `p` followed by its remainder: the
/// decomposition used by every soundness step.
proof fn lemma_unchop(t: Seq<u8>, p: Seq<u8>)
    requires
        starts_with(t, p),
    ensures
        t == p + t.skip(p.len() as int),
{
    assert(t =~= p + t.skip(p.len() as int));
}

/// All five action names consist of plain bytes.
proof fn lemma_names_plain()
    ensures
        forall|i: int| 0 <= i < lit_flag().len() ==> is_plain(#[trigger] lit_flag()[i]),
        forall|i: int| 0 <= i < lit_store().len() ==> is_plain(#[trigger] lit_store()[i]),
        forall|i: int| 0 <= i < lit_load().len() ==> is_plain(#[trigger] lit_load()[i]),
        forall|i: int| 0 <= i < lit_log().len() ==> is_plain(#[trigger] lit_log()[i]),
        forall|i: int| 0 <= i < lit_result().len() ==> is_plain(#[trigger] lit_result()[i]),
{
}

proof fn lemma_parse_flag_complete(tick: u32, payload: Seq<u8>)
    ensures
        parse_flag(param_text(ReqView::Flag { tick, payload })) == Some(
            ReqView::Flag { tick, payload },
        ),
{
    let t = param_text(ReqView::Flag { tick, payload });
    let tail1 = lit_tick() + dec(tick as nat) + lit_close2();
    assert(t =~= lit_flag_open() + (esc(payload) + seq![qu()] + tail1));
    lemma_chop(lit_flag_open(), esc(payload) + seq![qu()] + tail1);
    lemma_parse_str_complete(payload, tail1);
    assert(tail1 =~= lit_tick() + (dec(tick as nat) + lit_close2()));
    lemma_chop(lit_tick(), dec(tick as nat) + lit_close2());
    assert(!is_digit(lit_close2().first()));
    lemma_parse_u32_complete(tick, lit_close2());
}

proof fn lemma_parse_flag_sound(t: Seq<u8>, r: ReqView)
    requires
        parse_flag(t) == Some(r),
    ensures
        t == param_text(r),
        r is Flag,
{
    lemma_unchop(t, lit_flag_open());
    let t1 = t.skip(lit_flag_open().len() as int);
    let pr = parse_str_body(t1).unwrap();
    lemma_parse_str_sound(t1, pr.0, pr.1);
    lemma_unchop(pr.1, lit_tick());
    let t2 = pr.1.skip(lit_tick().len() as int);
    let nr = parse_u32_at(t2).unwrap();
    lemma_parse_u32_sound(t2, nr.0, nr.1);
    assert(t =~= lit_flag_open() + esc(pr.0) + seq![qu()] + lit_tick() + dec(nr.0 as nat)
        + lit_close2());
}

proof fn lemma_parse_store_complete(key: Seq<u8>, data: Seq<u8>)
    ensures
        parse_store(param_text(ReqView::Store { key, data })) == Some(ReqView::Store { key, data }),
{
    let t = param_text(ReqView::Store { key, data });
    let tail1 = lit_data() + esc(data) + seq![qu()] + lit_close2();
    assert(t =~= lit_store_open() + (esc(key) + seq![qu()] + tail1));
    lemma_chop(lit_store_open(), esc(key) + seq![qu()] + tail1);
    lemma_parse_str_complete(key, tail1);
    assert(tail1.skip(lit_data().len() as int) =~= esc(data) + seq![qu()] + lit_close2());
    lemma_chop(lit_data(), esc(data) + seq![qu()] + lit_close2());
    assert(tail1 =~= lit_data() + (esc(data) + seq![qu()] + lit_close2()));
    lemma_parse_str_complete(data, lit_close2());
}

proof fn lemma_parse_store_sound(t: Seq<u8>, r: ReqView)
    requires
        parse_store(t) == Some(r),
    ensures
        t == param_text(r),
        r is Store,
{
    lemma_unchop(t, lit_store_open());
    let t1 = t.skip(lit_store_open().len() as int);
    let pr = parse_str_body(t1).unwrap();
    lemma_parse_str_sound(t1, pr.0, pr.1);
    lemma_unchop(pr.1, lit_data());
    let t2 = pr.1.skip(lit_data().len() as int);
    let dr = parse_str_body(t2).unwrap();
    lemma_parse_str_sound(t2, dr.0, dr.1);
    assert(t =~= lit_store_open() + esc(pr.0) + seq![qu()] + lit_data() + esc(dr.0) + seq![qu()]
        + lit_close2());
}

proof fn lemma_parse_load_complete(key: Seq<u8>)
    ensures
        parse_load(param_text(ReqView::Load { key })) == Some(ReqView::Load { key }),
{
    let t = param_text(ReqView::Load { key });
    assert(t.first() == qu());
    assert(t.skip(1) =~= esc(key) + seq![qu()] + lit_close1());
    lemma_parse_str_complete(key, lit_close1());
}

proof fn lemma_parse_load_sound(t: Seq<u8>, r: ReqView)
    requires
        parse_load(t) == Some(r),
    ensures
        t == param_text(r),
        r is Load,
{
    let pr = parse_str_body(t.skip(1)).unwrap();
    lemma_parse_str_sound(t.skip(1), pr.0, pr.1);
    assert(t =~= seq![qu()] + t.skip(1));
    assert(t =~= seq![qu()] + esc(pr.0) + seq![qu()] + lit_close1());
}

#[verifier::rlimit(60)]
proof fn lemma_parse_log_complete(level: u32, message: Seq<u8>, func_name: Seq<u8>, pathname: Seq<u8>, lineno: u32)
    ensures
        parse_log(param_text(ReqView::Log { level, message, func_name, pathname, lineno }))
            == Some(ReqView::Log { level, message, func_name, pathname, lineno }),
{
    let t = param_text(ReqView::Log { level, message, func_name, pathname, lineno });
    let tail4 = lit_lineno() + dec(lineno as nat) + lit_close2();
    let tail3 = lit_path() + esc(pathname) + seq![qu()] + tail4;
    let tail2 = lit_func() + esc(func_name) + seq![qu()] + tail3;
    let tail1 = lit_msg() + esc(message) + seq![qu()] + tail2;
    assert(t =~= lit_log_open() + (dec(level as nat) + tail1));
    lemma_chop(lit_log_open(), dec(level as nat) + tail1);
    assert(!is_digit(tail1.first()));
    lemma_parse_u32_complete(level, tail1);
    assert(tail1 =~= lit_msg() + (esc(message) + seq![qu()] + tail2));
    lemma_chop(lit_msg(), esc(message) + seq![qu()] + tail2);
    lemma_parse_str_complete(message, tail2);
    assert(tail2 =~= lit_func() + (esc(func_name) + seq![qu()] + tail3));
    lemma_chop(lit_func(), esc(func_name) + seq![qu()] + tail3);
    lemma_parse_str_complete(func_name, tail3);
    assert(tail3 =~= lit_path() + (esc(pathname) + seq![qu()] + tail4));
    lemma_chop(lit_path(), esc(pathname) + seq![qu()] + tail4);
    lemma_parse_str_complete(pathname, tail4);
    assert(tail4 =~= lit_lineno() + (dec(lineno as nat) + lit_close2()));
    lemma_chop(lit_lineno(), dec(lineno as nat) + lit_close2());
    assert(!is_digit(lit_close2().first()));
    lemma_parse_u32_complete(lineno, lit_close2());
}

/// Concatenation of byte texts associates.
proof fn lemma_concat_assoc(a: Seq<u8>, b: Seq<u8>, c: Seq<u8>)
    ensures
        (a + b) + c == a + (b + c),
{
    assert((a + b) + c =~= a + (b + c));
}

proof fn lemma_parse_log_sound(t: Seq<u8>, r: ReqView)
    requires
        parse_log(t) == Some(r),
    ensures
        t == param_text(r),
        r is Log,
{
    lemma_unchop(t, lit_log_open());
    let t1 = t.skip(lit_log_open().len() as int);
    let lr = parse_u32_at(t1).unwrap();
    lemma_parse_u32_sound(t1, lr.0, lr.1);
    lemma_unchop(lr.1, lit_msg());
    let t2 = lr.1.skip(lit_msg().len() as int);
    let mr = parse_str_body(t2).unwrap();
    lemma_parse_str_sound(t2, mr.0, mr.1);
    lemma_unchop(mr.1, lit_func());
    let t3 = mr.1.skip(lit_func().len() as int);
    let fr = parse_str_body(t3).unwrap();
    lemma_parse_str_sound(t3, fr.0, fr.1);
    lemma_unchop(fr.1, lit_path());
    let t4 = fr.1.skip(lit_path().len() as int);
    let pr = parse_str_body(t4).unwrap();
    lemma_parse_str_sound(t4, pr.0, pr.1);
    lemma_unchop(pr.1, lit_lineno());
    let t5 = pr.1.skip(lit_lineno().len() as int);
    let nr = parse_u32_at(t5).unwrap();
    lemma_parse_u32_sound(t5, nr.0, nr.1);
    // Reassemble the left-nested canonical text one segment at a time.
    let a1 = lit_log_open() + dec(lr.0 as nat);
    lemma_concat_assoc(lit_log_open(), dec(lr.0 as nat), lr.1);
    assert(t == a1 + lr.1);
    let a2 = a1 + lit_msg();
    lemma_concat_assoc(a1, lit_msg(), t2);
    assert(t == a2 + t2);
    lemma_concat_assoc(esc(mr.0), seq![qu()], mr.1);
    lemma_concat_assoc(a2, esc(mr.0), seq![qu()] + mr.1);
    let a3 = a2 + esc(mr.0);
    assert(t == a3 + (seq![qu()] + mr.1));
    let a4 = a3 + seq![qu()];
    lemma_concat_assoc(a3, seq![qu()], mr.1);
    assert(t == a4 + mr.1);
    let a5 = a4 + lit_func();
    lemma_concat_assoc(a4, lit_func(), t3);
    assert(t == a5 + t3);
    lemma_concat_assoc(esc(fr.0), seq![qu()], fr.1);
    lemma_concat_assoc(a5, esc(fr.0), seq![qu()] + fr.1);
    let a6 = a5 + esc(fr.0);
    assert(t == a6 + (seq![qu()] + fr.1));
    let a7 = a6 + seq![qu()];
    lemma_concat_assoc(a6, seq![qu()], fr.1);
    assert(t == a7 + fr.1);
    let a8 = a7 + lit_path();
    lemma_concat_assoc(a7, lit_path(), t4);
    assert(t == a8 + t4);
    lemma_concat_assoc(esc(pr.0), seq![qu()], pr.1);
    lemma_concat_assoc(a8, esc(pr.0), seq![qu()] + pr.1);
    let a9 = a8 + esc(pr.0);
    assert(t == a9 + (seq![qu()] + pr.1));
    let a10 = a9 + seq![qu()];
    lemma_concat_assoc(a9, seq![qu()], pr.1);
    assert(t == a10 + pr.1);
    let a11 = a10 + lit_lineno();
    lemma_concat_assoc(a10, lit_lineno(), t5);
    assert(t == a11 + t5);
    let a12 = a11 + dec(nr.0 as nat);
    lemma_concat_assoc(a11, dec(nr.0 as nat), lit_close2());
    assert(t == a12 + lit_close2());
    assert(t == param_text(r));
}

proof fn lemma_parse_result_complete(json: Seq<u8>)
    ensures
        parse_result(param_text(ReqView::Result { json })) == Some(ReqView::Result { json }),
{
    let t = param_text(ReqView::Result { json });
    assert(t.last() == '}' as u8);
    assert(t.drop_last() =~= json);
}

proof fn lemma_parse_result_sound(t: Seq<u8>, r: ReqView)
    requires
        parse_result(t) == Some(r),
    ensures
        t == param_text(r),
        r is Result,
{
    assert(t =~= t.drop_last() + lit_close1());
}

/// Decoding the canonical text of a request recovers the request: the
/// round-trip law of the envelope. Together with
/// [`lemma_parse_request_sound`] it says that `parse_request` accepts
/// exactly the canonical texts.
#[verifier::rlimit(60)]
pub proof fn lemma_request_round_trip(r: ReqView)
    ensures
        parse_request(request_text(r)) == Some(r),
{
    let line = request_text(r);
    let name = action_name(r);
    let tail = lit_param() + param_text(r);
    assert(line =~= lit_head() + (name + seq![qu()] + tail));
    lemma_chop(lit_head(), name + seq![qu()] + tail);
    lemma_names_plain();
    lemma_esc_plain(name);
    lemma_parse_str_complete(name, tail);
    lemma_chop(lit_param(), param_text(r));
    match r {
        ReqView::Flag { tick, payload } => lemma_parse_flag_complete(tick, payload),
        ReqView::Store { key, data } => lemma_parse_store_complete(key, data),
        ReqView::Load { key } => lemma_parse_load_complete(key),
        ReqView::Log { level, message, func_name, pathname, lineno } => lemma_parse_log_complete(
            level,
            message,
            func_name,
            pathname,
            lineno,
        ),
        ReqView::Result { json } => lemma_parse_result_complete(json),
    }
}

/// Whatever the request parser accepts was the canonical text of its
/// result; in particular the canonical texts of two different requests
/// never coincide.
pub proof fn lemma_parse_request_sound(line: Seq<u8>, r: ReqView)
    requires
        parse_request(line) == Some(r),
    ensures
        line == request_text(r),
{
    lemma_unchop(line, lit_head());
    let t1 = line.skip(lit_head().len() as int);
    let pr = parse_str_body(t1).unwrap();
    let name = pr.0;
    lemma_parse_str_sound(t1, name, pr.1);
    lemma_unchop(pr.1, lit_param());
    let body = pr.1.skip(lit_param().len() as int);
    lemma_names_plain();
    if name == lit_flag() {
        lemma_parse_flag_sound(body, r);
        assert(action_name(r) == lit_flag());
    } else if name == lit_store() {
        lemma_parse_store_sound(body, r);
        assert(action_name(r) == lit_store());
    } else if name == lit_load() {
        lemma_parse_load_sound(body, r);
        assert(action_name(r) == lit_load());
    } else if name == lit_log() {
        lemma_parse_log_sound(body, r);
        assert(action_name(r) == lit_log());
    } else {
        lemma_parse_result_sound(body, r);
        assert(action_name(r) == lit_result());
    }
    lemma_esc_plain(name);
    assert(line =~= lit_head() + action_name(r) + seq![qu()] + lit_param() + param_text(r));
}

fn lit_head_vec() -> (v: Vec<u8>)
    ensures
        v@ == lit_head(),
{
    let mut v: Vec<u8> = Vec::new();
    v.push('{' as u8);
    v.push('"' as u8);
    v.push('a' as u8);
    v.push('c' as u8);
    v.push('t' as u8);
    v.push('i' as u8);
    v.push('o' as u8);
    v.push('n' as u8);
    v.push('"' as u8);
    v.push(':' as u8);
    v.push('"' as u8);
    proof {
        assert(v@ =~= lit_head());
    }
    v
}

fn lit_param_vec() -> (v: Vec<u8>)
    ensures
        v@ == lit_param(),
{
    let mut v: Vec<u8> = Vec::new();
    v.push(',' as u8);
    v.push('"' as u8);
    v.push('p' as u8);
    v.push('a' as u8);
    v.push('r' as u8);
    v.push('a' as u8);
    v.push('m' as u8);
    v.push('"' as u8);
    v.push(':' as u8);
    proof {
        assert(v@ =~= lit_param());
    }
    v
}

fn lit_flag_vec() -> (v: Vec<u8>)
    ensures
        v@ == lit_flag(),
{
    let mut v: Vec<u8> = Vec::new();
    v.push('F' as u8);
    v.push('L' as u8);
    v.push('A' as u8);
    v.push('G' as u8);
    proof {
        assert(v@ =~= lit_flag());
    }
    v
}

fn lit_store_vec() -> (v: Vec<u8>)
    ensures
        v@ == lit_store(),
{
    let mut v: Vec<u8> = Vec::new();
    v.push('S' as u8);
    v.push('T' as u8);
    v.push('O' as u8);
    v.push('R' as u8);
    v.push('E' as u8);
    proof {
        assert(v@ =~= lit_store());
    }
    v
}

fn lit_load_vec() -> (v: Vec<u8>)
    ensures
        v@ == lit_load(),
{
    let mut v: Vec<u8> = Vec::new();
    v.push('L' as u8);
    v.push('O' as u8);
    v.push('A' as u8);
    v.push('D' as u8);
    proof {
        assert(v@ =~= lit_load());
    }
    v
}

fn lit_log_vec() -> (v: Vec<u8>)
    ensures
        v@ == lit_log(),
{
    let mut v: Vec<u8> = Vec::new();
    v.push('L' as u8);
    v.push('O' as u8);
    v.push('G' as u8);
    proof {
        assert(v@ =~= lit_log());
    }
    v
}

fn lit_result_vec() -> (v: Vec<u8>)
    ensures
        v@ == lit_result(),
{
    let mut v: Vec<u8> = Vec::new();
    v.push('R' as u8);
    v.push('E' as u8);
    v.push('S' as u8);
    v.push('U' as u8);
    v.push('L' as u8);
    v.push('T' as u8);
    proof {
        assert(v@ =~= lit_result());
    }
    v
}

fn lit_flag_open_vec() -> (v: Vec<u8>)
    ensures
        v@ == lit_flag_open(),
{
    let mut v: Vec<u8> = Vec::new();
    v.push('{' as u8);
    v.push('"' as u8);
    v.push('p' as u8);
    v.push('a' as u8);
    v.push('y' as u8);
    v.push('l' as u8);
    v.push('o' as u8);
    v.push('a' as u8);
    v.push('d' as u8);
    v.push('"' as u8);
    v.push(':' as u8);
    v.push('"' as u8);
    proof {
        assert(v@ =~= lit_flag_open());
    }
    v
}

fn lit_tick_vec() -> (v: Vec<u8>)
    ensures
        v@ == lit_tick(),
{
    let mut v: Vec<u8> = Vec::new();
    v.push(',' as u8);
    v.push('"' as u8);
    v.push('t' as u8);
    v.push('i' as u8);
    v.push('c' as u8);
    v.push('k' as u8);
    v.push('"' as u8);
    v.push(':' as u8);
    proof {
        assert(v@ =~= lit_tick());
    }
    v
}

fn lit_store_open_vec() -> (v: Vec<u8>)
    ensures
        v@ == lit_store_open(),
{
    let mut v: Vec<u8> = Vec::new();
    v.push('{' as u8);
    v.push('"' as u8);
    v.push('k' as u8);
    v.push('e' as u8);
    v.push('y' as u8);
    v.push('"' as u8);
    v.push(':' as u8);
    v.push('"' as u8);
    proof {
        assert(v@ =~= lit_store_open());
    }
    v
}

fn lit_data_vec() -> (v: Vec<u8>)
    ensures
        v@ == lit_data(),
{
    let mut v: Vec<u8> = Vec::new();
    v.push(',' as u8);
    v.push('"' as u8);
    v.push('d' as u8);
    v.push('a' as u8);
    v.push('t' as u8);
    v.push('a' as u8);
    v.push('"' as u8);
    v.push(':' as u8);
    v.push('"' as u8);
    proof {
        assert(v@ =~= lit_data());
    }
    v
}

fn lit_log_open_vec() -> (v: Vec<u8>)
    ensures
        v@ == lit_log_open(),
{
    let mut v: Vec<u8> = Vec::new();
    v.push('{' as u8);
    v.push('"' as u8);
    v.push('l' as u8);
    v.push('e' as u8);
    v.push('v' as u8);
    v.push('e' as u8);
    v.push('l' as u8);
    v.push('"' as u8);
    v.push(':' as u8);
    proof {
        assert(v@ =~= lit_log_open());
    }
    v
}

fn lit_msg_vec() -> (v: Vec<u8>)
    ensures
        v@ == lit_msg(),
{
    let mut v: Vec<u8> = Vec::new();
    v.push(',' as u8);
    v.push('"' as u8);
    v.push('m' as u8);
    v.push('e' as u8);
    v.push('s' as u8);
    v.push('s' as u8);
    v.push('a' as u8);
    v.push('g' as u8);
    v.push('e' as u8);
    v.push('"' as u8);
    v.push(':' as u8);
    v.push('"' as u8);
    proof {
        assert(v@ =~= lit_msg());
    }
    v
}

fn lit_func_vec() -> (v: Vec<u8>)
    ensures
        v@ == lit_func(),
{
    let mut v: Vec<u8> = Vec::new();
    v.push(',' as u8);
    v.push('"' as u8);
    v.push('f' as u8);
    v.push('u' as u8);
    v.push('n' as u8);
    v.push('c' as u8);
    v.push('N' as u8);
    v.push('a' as u8);
    v.push('m' as u8);
    v.push('e' as u8);
    v.push('"' as u8);
    v.push(':' as u8);
    v.push('"' as u8);
    proof {
        assert(v@ =~= lit_func());
    }
    v
}

fn lit_path_vec() -> (v: Vec<u8>)
    ensures
        v@ == lit_path(),
{
    let mut v: Vec<u8> = Vec::new();
    v.push(',' as u8);
    v.push('"' as u8);
    v.push('p' as u8);
    v.push('a' as u8);
    v.push('t' as u8);
    v.push('h' as u8);
    v.push('n' as u8);
    v.push('a' as u8);
    v.push('m' as u8);
    v.push('e' as u8);
    v.push('"' as u8);
    v.push(':' as u8);
    v.push('"' as u8);
    proof {
        assert(v@ =~= lit_path());
    }
    v
}

fn lit_lineno_vec() -> (v: Vec<u8>)
    ensures
        v@ == lit_lineno(),
{
    let mut v: Vec<u8> = Vec::new();
    v.push(',' as u8);
    v.push('"' as u8);
    v.push('l' as u8);
    v.push('i' as u8);
    v.push('n' as u8);
    v.push('e' as u8);
    v.push('n' as u8);
    v.push('o' as u8);
    v.push('"' as u8);
    v.push(':' as u8);
    proof {
        assert(v@ =~= lit_lineno());
    }
    v
}

fn lit_resp_vec() -> (v: Vec<u8>)
    ensures
        v@ == lit_resp(),
{
    let mut v: Vec<u8> = Vec::new();
    v.push('{' as u8);
    v.push('"' as u8);
    v.push('r' as u8);
    v.push('e' as u8);
    v.push('s' as u8);
    v.push('p' as u8);
    v.push('o' as u8);
    v.push('n' as u8);
    v.push('s' as u8);
    v.push('e' as u8);
    v.push('"' as u8);
    v.push(':' as u8);
    proof {
        assert(v@ =~= lit_resp());
    }
    v
}

/// Encodes one request into its canonical one-line JSON document, without
/// the terminating newline.
#[verifier::rlimit(100)]
pub fn encode_request(req: &Request) -> (line: Vec<u8>)
    ensures
        line@ == request_text(req@),
{
    let mut out: Vec<u8> = Vec::new();
    let mut head = lit_head_vec();
    out.append(&mut head);
    match req {
        Request::Flag { tick, payload } => {
            let mut name = lit_flag_vec();
            out.append(&mut name);
            out.push('"' as u8);
            let mut param = lit_param_vec();
            out.append(&mut param);
            let mut fopen = lit_flag_open_vec();
            out.append(&mut fopen);
            escape_into(payload.as_slice(), &mut out);
            out.push('"' as u8);
            let mut tickl = lit_tick_vec();
            out.append(&mut tickl);
            dec_into(*tick, &mut out);
            out.push('}' as u8);
            out.push('}' as u8);
            proof {
                assert(out@ =~= request_text(req@));
            }
        },
        Request::Store { key, data } => {
            let mut name = lit_store_vec();
            out.append(&mut name);
            out.push('"' as u8);
            let mut param = lit_param_vec();
            out.append(&mut param);
            let mut sopen = lit_store_open_vec();
            out.append(&mut sopen);
            escape_into(key.as_slice(), &mut out);
            out.push('"' as u8);
            let mut datal = lit_data_vec();
            out.append(&mut datal);
            escape_into(data.as_slice(), &mut out);
            out.push('"' as u8);
            out.push('}' as u8);
            out.push('}' as u8);
            proof {
                assert(out@ =~= request_text(req@));
            }
        },
        Request::Load { key } => {
            let mut name = lit_load_vec();
            out.append(&mut name);
            out.push('"' as u8);
            let mut param = lit_param_vec();
            out.append(&mut param);
            out.push('"' as u8);
            escape_into(key.as_slice(), &mut out);
            out.push('"' as u8);
            out.push('}' as u8);
            proof {
                assert(out@ =~= request_text(req@));
            }
        },
        Request::Log { level, message, func_name, pathname, lineno } => {
            let mut name = lit_log_vec();
            out.append(&mut name);
            out.push('"' as u8);
            let mut param = lit_param_vec();
            out.append(&mut param);
            let mut lopen = lit_log_open_vec();
            out.append(&mut lopen);
            dec_into(*level, &mut out);
            let mut msgl = lit_msg_vec();
            out.append(&mut msgl);
            escape_into(message.as_slice(), &mut out);
            out.push('"' as u8);
            let mut funcl = lit_func_vec();
            out.append(&mut funcl);
            escape_into(func_name.as_slice(), &mut out);
            out.push('"' as u8);
            let mut pathl = lit_path_vec();
            out.append(&mut pathl);
            escape_into(pathname.as_slice(), &mut out);
            out.push('"' as u8);
            let mut linenol = lit_lineno_vec();
            out.append(&mut linenol);
            dec_into(*lineno, &mut out);
            out.push('}' as u8);
            out.push('}' as u8);
            proof {
                assert(out@ =~= request_text(req@));
            }
        },
        Request::Result { json } => {
            let mut name = lit_result_vec();
            out.append(&mut name);
            out.push('"' as u8);
            let mut param = lit_param_vec();
            out.append(&mut param);
            let mut raw = json.clone();
            out.append(&mut raw);
            out.push('}' as u8);
            proof {
                assert(out@ =~= request_text(req@));
            }
        },
    }
    out
}

/// Encoding is lossless: two requests with the same canonical text are the
/// same request.
pub proof fn lemma_request_text_injective(a: ReqView, b: ReqView)
    requires
        request_text(a) == request_text(b),
    ensures
        a == b,
{
    lemma_request_round_trip(a);
    lemma_request_round_trip(b);
}

/// A text on which the request parser fails is the canonical text of no
/// request at all.
pub proof fn lemma_no_parse_no_text(line: Seq<u8>)
    requires
        parse_request(line) is None,
    ensures
        forall|v: ReqView| line != request_text(v),
{
    assert forall|v: ReqView| line != request_text(v) by {
        if line == request_text(v) {
            lemma_request_round_trip(v);
        }
    }
}

fn decode_flag(line: &[u8], i: usize) -> (r: Result<Request, ChannelError>)
    requires
        i <= line@.len(),
    ensures
        match r {
            Ok(req) => parse_flag(line@.skip(i as int)) == Some(req@),
            Err(e) => e == ChannelError::Decode && parse_flag(line@.skip(i as int)) is None,
        },
{
    let n: usize = line.len();
    let ghost t = line@.skip(i as int);
    let fopen = lit_flag_open_vec();
    if !match_at(line, i, fopen.as_slice()) {
        return Err(ChannelError::Decode);
    }
    proof {
        assert(t.skip(12) =~= line@.skip(i + 12));
    }
    match parse_str_exec(line, i + 12) {
        None => Err(ChannelError::Decode),
        Some((payload, j1)) => {
            let tickl = lit_tick_vec();
            if !match_at(line, j1, tickl.as_slice()) {
                return Err(ChannelError::Decode);
            }
            proof {
                assert(line@.skip(j1 as int).skip(8) =~= line@.skip(j1 + 8));
            }
            match parse_u32_exec(line, j1 + 8) {
                None => Err(ChannelError::Decode),
                Some((tick, j2)) => {
                    if line.len() - j2 == 2 && line[j2] == '}' as u8 && line[j2 + 1] == '}' as u8 {
                        proof {
                            assert(line@.skip(j2 as int) =~= lit_close2());
                        }
                        Ok(Request::Flag { tick, payload })
                    } else {
                        proof {
                            if line@.skip(j2 as int) == lit_close2() {
                                assert(line@.skip(j2 as int).len() == 2);
                                assert(line@[j2 as int] == line@.skip(j2 as int)[0]);
                                assert(line@[j2 + 1] == line@.skip(j2 as int)[1]);
                                assert(false);
                            }
                        }
                        Err(ChannelError::Decode)
                    }
                },
            }
        },
    }
}

fn decode_store(line: &[u8], i: usize) -> (r: Result<Request, ChannelError>)
    requires
        i <= line@.len(),
    ensures
        match r {
            Ok(req) => parse_store(line@.skip(i as int)) == Some(req@),
            Err(e) => e == ChannelError::Decode && parse_store(line@.skip(i as int)) is None,
        },
{
    let n: usize = line.len();
    let ghost t = line@.skip(i as int);
    let sopen = lit_store_open_vec();
    if !match_at(line, i, sopen.as_slice()) {
        return Err(ChannelError::Decode);
    }
    proof {
        assert(t.skip(8) =~= line@.skip(i + 8));
    }
    match parse_str_exec(line, i + 8) {
        None => Err(ChannelError::Decode),
        Some((key, j1)) => {
            let datal = lit_data_vec();
            if !match_at(line, j1, datal.as_slice()) {
                return Err(ChannelError::Decode);
            }
            proof {
                assert(line@.skip(j1 as int).skip(9) =~= line@.skip(j1 + 9));
            }
            match parse_str_exec(line, j1 + 9) {
                None => Err(ChannelError::Decode),
                Some((data, j2)) => {
                    if line.len() - j2 == 2 && line[j2] == '}' as u8 && line[j2 + 1] == '}' as u8 {
                        proof {
                            assert(line@.skip(j2 as int) =~= lit_close2());
                        }
                        Ok(Request::Store { key, data })
                    } else {
                        proof {
                            if line@.skip(j2 as int) == lit_close2() {
                                assert(line@.skip(j2 as int).len() == 2);
                                assert(line@[j2 as int] == line@.skip(j2 as int)[0]);
                                assert(line@[j2 + 1] == line@.skip(j2 as int)[1]);
                                assert(false);
                            }
                        }
                        Err(ChannelError::Decode)
                    }
                },
            }
        },
    }
}

fn decode_load(line: &[u8], i: usize) -> (r: Result<Request, ChannelError>)
    requires
        i <= line@.len(),
    ensures
        match r {
            Ok(req) => parse_load(line@.skip(i as int)) == Some(req@),
            Err(e) => e == ChannelError::Decode && parse_load(line@.skip(i as int)) is None,
        },
{
    let ghost t = line@.skip(i as int);
    if i == line.len() || line[i] != '"' as u8 {
        return Err(ChannelError::Decode);
    }
    proof {
        assert(t.first() == line@[i as int]);
        assert(t.skip(1) =~= line@.skip(i + 1));
    }
    match parse_str_exec(line, i + 1) {
        None => Err(ChannelError::Decode),
        Some((key, j1)) => {
            if line.len() - j1 == 1 && line[j1] == '}' as u8 {
                proof {
                    assert(line@.skip(j1 as int) =~= lit_close1());
                }
                Ok(Request::Load { key })
            } else {
                proof {
                    if line@.skip(j1 as int) == lit_close1() {
                        assert(line@.skip(j1 as int).len() == 1);
                        assert(line@[j1 as int] == line@.skip(j1 as int)[0]);
                        assert(false);
                    }
                }
                Err(ChannelError::Decode)
            }
        },
    }
}

fn decode_log(line: &[u8], i: usize) -> (r: Result<Request, ChannelError>)
    requires
        i <= line@.len(),
    ensures
        match r {
            Ok(req) => parse_log(line@.skip(i as int)) == Some(req@),
            Err(e) => e == ChannelError::Decode && parse_log(line@.skip(i as int)) is None,
        },
{
    let n: usize = line.len();
    let ghost t = line@.skip(i as int);
    let lopen = lit_log_open_vec();
    if !match_at(line, i, lopen.as_slice()) {
        return Err(ChannelError::Decode);
    }
    proof {
        assert(t.skip(9) =~= line@.skip(i + 9));
    }
    match parse_u32_exec(line, i + 9) {
        None => Err(ChannelError::Decode),
        Some((level, j1)) => {
            let msgl = lit_msg_vec();
            if !match_at(line, j1, msgl.as_slice()) {
                return Err(ChannelError::Decode);
            }
            proof {
                assert(line@.skip(j1 as int).skip(12) =~= line@.skip(j1 + 12));
            }
            match parse_str_exec(line, j1 + 12) {
                None => Err(ChannelError::Decode),
                Some((message, j2)) => {
                    let funcl = lit_func_vec();
                    if !match_at(line, j2, funcl.as_slice()) {
                        return Err(ChannelError::Decode);
                    }
                    proof {
                        assert(line@.skip(j2 as int).skip(13) =~= line@.skip(j2 + 13));
                    }
                    match parse_str_exec(line, j2 + 13) {
                        None => Err(ChannelError::Decode),
                        Some((func_name, j3)) => {
                            let pathl = lit_path_vec();
                            if !match_at(line, j3, pathl.as_slice()) {
                                return Err(ChannelError::Decode);
                            }
                            proof {
                                assert(line@.skip(j3 as int).skip(13) =~= line@.skip(j3 + 13));
                            }
                            match parse_str_exec(line, j3 + 13) {
                                None => Err(ChannelError::Decode),
                                Some((pathname, j4)) => {
                                    let linenol = lit_lineno_vec();
                                    if !match_at(line, j4, linenol.as_slice()) {
                                        return Err(ChannelError::Decode);
                                    }
                                    proof {
                                        assert(line@.skip(j4 as int).skip(10) =~= line@.skip(
                                            j4 + 10,
                                        ));
                                    }
                                    match parse_u32_exec(line, j4 + 10) {
                                        None => Err(ChannelError::Decode),
                                        Some((lineno, j5)) => {
                                            if line.len() - j5 == 2 && line[j5] == '}' as u8
                                                && line[j5 + 1] == '}' as u8 {
                                                proof {
                                                    assert(line@.skip(j5 as int) =~= lit_close2());
                                                }
                                                Ok(
                                                    Request::Log {
                                                        level,
                                                        message,
                                                        func_name,
                                                        pathname,
                                                        lineno,
                                                    },
                                                )
                                            } else {
                                                proof {
                                                    if line@.skip(j5 as int) == lit_close2() {
                                                        assert(line@.skip(j5 as int).len() == 2);
                                                        assert(line@[j5 as int] == line@.skip(
                                                            j5 as int,
                                                        )[0]);
                                                        assert(line@[j5 + 1] == line@.skip(
                                                            j5 as int,
                                                        )[1]);
                                                        assert(false);
                                                    }
                                                }
                                                Err(ChannelError::Decode)
                                            }
                                        },
                                    }
                                },
                            }
                        },
                    }
                },
            }
        },
    }
}

fn decode_result(line: &[u8], i: usize) -> (r: Result<Request, ChannelError>)
    requires
        i <= line@.len(),
    ensures
        match r {
            Ok(req) => parse_result(line@.skip(i as int)) == Some(req@),
            Err(e) => e == ChannelError::Decode && parse_result(line@.skip(i as int)) is None,
        },
{
    let ghost t = line@.skip(i as int);
    if line.len() - i >= 1 && line[line.len() - 1] == '}' as u8 {
        proof {
            assert(t.last() == line@[line@.len() - 1]);
        }
        let json = vstd::slice::slice_to_vec(&line[i..line.len() - 1]);
        proof {
            assert(json@ =~= t.drop_last());
        }
        Ok(Request::Result { json })
    } else {
        proof {
            if t.len() >= 1 {
                assert(t.last() == line@[line@.len() - 1]);
            }
        }
        Err(ChannelError::Decode)
    }
}

/// Decodes one request document. Succeeds exactly on the canonical text of
/// a request and returns that request; every other text is a `Decode`
/// error. Together with [`encode_request`] this is the lossless round trip
/// of the envelope.
#[verifier::rlimit(100)]
pub fn decode_request(line: &[u8]) -> (r: Result<Request, ChannelError>)
    ensures
        match r {
            Ok(req) => line@ == request_text(req@) && parse_request(line@) == Some(req@),
            Err(e) => e == ChannelError::Decode && parse_request(line@) is None && forall|
                v: ReqView,
            |
                line@ != request_text(v),
        },
{
    let n: usize = line.len();
    let ghost ll = line@;
    proof {
        assert(ll.skip(0) =~= ll);
    }
    let head = lit_head_vec();
    if !match_at(line, 0, head.as_slice()) {
        proof {
            lemma_no_parse_no_text(ll);
        }
        return Err(ChannelError::Decode);
    }
    let named = parse_str_exec(line, 11);
    match named {
        None => {
            proof {
                assert(ll.skip(11) =~= ll.skip(lit_head().len() as int));
                lemma_no_parse_no_text(ll);
            }
            Err(ChannelError::Decode)
        },
        Some((name, i1)) => {
            proof {
                assert(ll.skip(11) =~= ll.skip(lit_head().len() as int));
            }
            let param = lit_param_vec();
            if !match_at(line, i1, param.as_slice()) {
                proof {
                    lemma_no_parse_no_text(ll);
                }
                return Err(ChannelError::Decode);
            }
            let i2 = i1 + 9;
            proof {
                assert(ll.skip(i1 as int).skip(9) =~= ll.skip(i2 as int));
            }
            let flagn = lit_flag_vec();
            let storen = lit_store_vec();
            let loadn = lit_load_vec();
            let logn = lit_log_vec();
            let resultn = lit_result_vec();
            let r: Result<Request, ChannelError> = if name.len() == 4 && match_at(
                name.as_slice(),
                0,
                flagn.as_slice(),
            ) {
                proof {
                    assert(name@.skip(0) =~= name@);
                    assert(name@ =~= lit_flag());
                }
                decode_flag(line, i2)
            } else if name.len() == 5 && match_at(name.as_slice(), 0, storen.as_slice()) {
                proof {
                    assert(name@.skip(0) =~= name@);
                    assert(name@ =~= lit_store());
                }
                decode_store(line, i2)
            } else if name.len() == 4 && match_at(name.as_slice(), 0, loadn.as_slice()) {
                proof {
                    assert(name@.skip(0) =~= name@);
                    assert(name@ =~= lit_load());
                }
                decode_load(line, i2)
            } else if name.len() == 3 && match_at(name.as_slice(), 0, logn.as_slice()) {
                proof {
                    assert(name@.skip(0) =~= name@);
                    assert(name@ =~= lit_log());
                }
                decode_log(line, i2)
            } else if name.len() == 6 && match_at(name.as_slice(), 0, resultn.as_slice()) {
                proof {
                    assert(name@.skip(0) =~= name@);
                    assert(name@ =~= lit_result());
                }
                decode_result(line, i2)
            } else {
                proof {
                    assert(name@.skip(0) =~= name@);
                    if name@ == lit_flag() {
                        assert(starts_with(name@, lit_flag()) && name@.len() == 4);
                    }
                    if name@ == lit_store() {
                        assert(starts_with(name@, lit_store()) && name@.len() == 5);
                    }
                    if name@ == lit_load() {
                        assert(starts_with(name@, lit_load()) && name@.len() == 4);
                    }
                    if name@ == lit_log() {
                        assert(starts_with(name@, lit_log()) && name@.len() == 3);
                    }
                    if name@ == lit_result() {
                        assert(starts_with(name@, lit_result()) && name@.len() == 6);
                    }
                }
                Err(ChannelError::Decode)
            };
            proof {
                if r is Err {
                    lemma_no_parse_no_text(ll);
                }
                if r is Ok {
                    lemma_parse_request_sound(ll, r.unwrap()@);
                }
            }
            r
        },
    }
}


/// The canonical text of a response envelope around a raw value text: what
/// the supervisor writes when it spells the document with no whitespace.
pub open spec fn resp_text(v: Seq<u8>) -> Seq<u8> {
    lit_resp() + v + lit_close1()
}

/// `response` — the envelope's one member name.
pub open spec fn lit_resp_key() -> Seq<u8> {
    seq![
        'r' as u8,
        'e' as u8,
        's' as u8,
        'p' as u8,
        'o' as u8,
        'n' as u8,
        's' as u8,
        'e' as u8,
    ]
}

/// The canonical text of a string-typed response value.
pub open spec fn str_value_text(s: Seq<u8>) -> Seq<u8> {
    seq![qu()] + esc(s) + seq![qu()]
}

/// Parses a response line into the raw text of its `response` value, in the
/// generality the supervisor is allowed: any JSON document
/// `{"response": v}` — insignificant whitespace between tokens and after
/// the document (a newline or carriage-return terminator included), and the
/// member name in any string spelling. `None` exactly where the line is not
/// of that shape. The value's own text is handed through raw, trimmed of
/// the whitespace around it, for the caller to read by its expected shape.
pub open spec fn parse_response(line: Seq<u8>) -> Option<Seq<u8>> {
    let t1 = ws_skip(line);
    if t1.len() == 0 || t1.first() != '{' as u8 {
        None
    } else {
        let t2 = ws_skip(t1.drop_first());
        if t2.len() == 0 || t2.first() != qu() {
            None
        } else {
            match json_str_body(t2.drop_first()) {
                None => None,
                Some((key, ka)) => if key != lit_resp_key() {
                    None
                } else {
                    let t3 = ws_skip(ka);
                    if t3.len() == 0 || t3.first() != ':' as u8 {
                        None
                    } else {
                        let t4 = ws_skip(t3.drop_first());
                        let t5 = rstrip_ws(t4);
                        if t5.len() == 0 || t5.last() != '}' as u8 {
                            None
                        } else {
                            let v = rstrip_ws(t5.drop_last());
                            if v.len() == 0 {
                                None
                            } else {
                                Some(v)
                            }
                        }
                    }
                },
            }
        }
    }
}

/// Parses a response line whose value is a JSON string, into the bytes that
/// string denotes: `None` where the line is not a response envelope around
/// a string value, in any spelling the grammar allows.
pub open spec fn parse_string_response(line: Seq<u8>) -> Option<Seq<u8>> {
    match parse_response(line) {
        None => None,
        Some(v) => if v.first() == qu() {
            match json_str_body(v.drop_first()) {
                Some((s, rest)) => if rest.len() == 0 {
                    Some(s)
                } else {
                    None
                },
                None => None,
            }
        } else {
            None
        },
    }
}

/// The response parser accepts the whitespace-free spelling of an envelope
/// around any value text that neither starts nor ends in whitespace.
pub proof fn lemma_parse_response_canonical(v: Seq<u8>)
    requires
        v.len() > 0,
        !is_ws(v.first()),
        !is_ws(v.last()),
    ensures
        parse_response(resp_text(v)) == Some(v),
{
    let t = resp_text(v);
    assert(t.first() == '{' as u8);
    assert(ws_prefix_len(t) == 0);
    let t1 = ws_skip(t);
    assert(t1 =~= t);
    let rest0 = seq![':' as u8] + v + lit_close1();
    assert(t1.drop_first() =~= seq![qu()] + (lit_resp_key() + seq![qu()] + rest0));
    let t2p = lit_resp_key() + seq![qu()] + rest0;
    assert(!is_ws(t1.drop_first().first()));
    assert(ws_prefix_len(t1.drop_first()) == 0);
    let t2 = ws_skip(t1.drop_first());
    assert(t2 =~= t1.drop_first());
    assert(t2.first() == qu());
    assert(t2.drop_first() =~= t2p);
    assert(forall|i: int| 0 <= i < lit_resp_key().len() ==> is_plain(#[trigger] lit_resp_key()[i]));
    lemma_esc_plain(lit_resp_key());
    lemma_parse_str_complete(lit_resp_key(), rest0);
    assert(esc(lit_resp_key()) + seq![qu()] + rest0 =~= t2p);
    lemma_json_str_extends_canonical(t2p, lit_resp_key(), rest0);
    assert(json_str_body(t2.drop_first()) == Some((lit_resp_key(), rest0)));
    assert(!is_ws(rest0.first()));
    assert(ws_prefix_len(rest0) == 0);
    let t3 = ws_skip(rest0);
    assert(t3 =~= rest0);
    assert(t3.first() == ':' as u8);
    assert(t3.drop_first() =~= v + lit_close1());
    assert((v + lit_close1()).first() == v.first());
    assert(ws_prefix_len(v + lit_close1()) == 0);
    let t4 = ws_skip(t3.drop_first());
    assert(t4 =~= v + lit_close1());
    assert(t4.last() == '}' as u8);
    assert(!is_ws(t4.last()));
    let t5 = rstrip_ws(t4);
    assert(t5 =~= t4);
    assert(t5.drop_last() =~= v);
    assert(rstrip_ws(v) =~= v);
}

/// The string-response parser accepts the crate's own canonical spelling of
/// a string envelope: the completeness half of the response round trip.
pub proof fn lemma_parse_string_response_canonical(s: Seq<u8>)
    ensures
        parse_string_response(resp_text(str_value_text(s))) == Some(s),
{
    let v = str_value_text(s);
    assert(v.first() == qu());
    assert(v.last() == v[v.len() - 1] && v[v.len() - 1] == qu());
    lemma_parse_response_canonical(v);
    assert(v.drop_first() =~= esc(s) + seq![qu()] + Seq::<u8>::empty());
    lemma_parse_str_complete(s, Seq::<u8>::empty());
    lemma_json_str_extends_canonical(v.drop_first(), s, Seq::<u8>::empty());
}

/// Decodes a response line into the raw text of its value, to be read by
/// the caller in whatever shape it expects. Succeeds exactly on JSON
/// documents `{"response": v}` in any spelling — whitespace between tokens
/// and any terminator included — and fails with a `Decode` error on
/// everything else.
#[verifier::rlimit(100)]
pub fn decode_response(line: &[u8]) -> (r: Result<Vec<u8>, ChannelError>)
    ensures
        match r {
            Ok(v) => parse_response(line@) == Some(v@),
            Err(e) => e == ChannelError::Decode && parse_response(line@) is None,
        },
{
    let n: usize = line.len();
    let i0 = skip_ws_exec(line, 0);
    proof {
        assert(line@.skip(0) =~= line@);
        assert(ws_skip(line@) =~= line@.skip(i0 as int));
    }
    let ghost t1 = ws_skip(line@);
    if i0 == n {
        return Err(ChannelError::Decode);
    }
    proof {
        assert(t1.first() == line@[i0 as int]);
    }
    if line[i0] != '{' as u8 {
        return Err(ChannelError::Decode);
    }
    let i1 = skip_ws_exec(line, i0 + 1);
    proof {
        assert(t1.drop_first() =~= line@.skip(i0 + 1));
        assert(ws_skip(t1.drop_first()) =~= line@.skip(i1 as int));
    }
    let ghost t2 = ws_skip(t1.drop_first());
    if i1 == n {
        return Err(ChannelError::Decode);
    }
    proof {
        assert(t2.first() == line@[i1 as int]);
    }
    if line[i1] != '"' as u8 {
        return Err(ChannelError::Decode);
    }
    proof {
        assert(t2.drop_first() =~= line@.skip(i1 + 1));
    }
    let parsed_key = json_str_exec(line, i1 + 1);
    match parsed_key {
        None => Err(ChannelError::Decode),
        Some((key, j)) => {
            let keyv = lit_resp_key_vec();
            if !(key.len() == 8 && match_at(key.as_slice(), 0, keyv.as_slice())) {
                proof {
                    assert(key@.skip(0) =~= key@);
                    if key@ == lit_resp_key() {
                        assert(starts_with(key@, lit_resp_key()) && key@.len() == 8);
                    }
                }
                return Err(ChannelError::Decode);
            }
            proof {
                assert(key@.skip(0) =~= key@);
                assert(key@ =~= lit_resp_key());
            }
            let ghost ka = line@.skip(j as int);
            let j2 = skip_ws_exec(line, j);
            proof {
                assert(ws_skip(ka) =~= line@.skip(j2 as int));
            }
            let ghost t3 = ws_skip(ka);
            if j2 == n {
                return Err(ChannelError::Decode);
            }
            proof {
                assert(t3.first() == line@[j2 as int]);
            }
            if line[j2] != ':' as u8 {
                return Err(ChannelError::Decode);
            }
            let j3 = skip_ws_exec(line, j2 + 1);
            proof {
                assert(t3.drop_first() =~= line@.skip(j2 + 1));
                assert(ws_skip(t3.drop_first()) =~= line@.skip(j3 as int));
            }
            let ghost t4 = ws_skip(t3.drop_first());
            let k0 = rstrip_ws_exec(line, j3, n);
            proof {
                assert(t4 =~= line@.subrange(j3 as int, n as int));
                assert(rstrip_ws(t4) =~= line@.subrange(j3 as int, k0 as int));
            }
            let ghost t5 = rstrip_ws(t4);
            if k0 == j3 {
                return Err(ChannelError::Decode);
            }
            proof {
                assert(t5.last() == line@[k0 - 1]);
            }
            if line[k0 - 1] != '}' as u8 {
                return Err(ChannelError::Decode);
            }
            let k1 = rstrip_ws_exec(line, j3, k0 - 1);
            proof {
                assert(t5.drop_last() =~= line@.subrange(j3 as int, k0 - 1));
                assert(rstrip_ws(t5.drop_last()) =~= line@.subrange(j3 as int, k1 as int));
            }
            if k1 == j3 {
                return Err(ChannelError::Decode);
            }
            let v = vstd::slice::slice_to_vec(&line[j3..k1]);
            proof {
                assert(v@ =~= rstrip_ws(t5.drop_last()));
            }
            Ok(v)
        },
    }
}

fn lit_resp_key_vec() -> (v: Vec<u8>)
    ensures
        v@ == lit_resp_key(),
{
    let mut v: Vec<u8> = Vec::new();
    v.push('r' as u8);
    v.push('e' as u8);
    v.push('s' as u8);
    v.push('p' as u8);
    v.push('o' as u8);
    v.push('n' as u8);
    v.push('s' as u8);
    v.push('e' as u8);
    proof {
        assert(v@ =~= lit_resp_key());
    }
    v
}

/// Decodes a response line whose value is a JSON string, as the flag-check
/// and load operations expect, into the bytes that string denotes — in any
/// spelling the grammar allows, escapes and whitespace included. Anything
/// else — an empty line, a closed-endpoint stub, a value of another shape —
/// is a `Decode` error, never a silently made-up value.
pub fn decode_string_response(line: &[u8]) -> (r: Result<Vec<u8>, ChannelError>)
    ensures
        match r {
            Ok(s) => parse_string_response(line@) == Some(s@),
            Err(e) => e == ChannelError::Decode && parse_string_response(line@) is None,
        },
{
    let raw = decode_response(line);
    match raw {
        Err(e) => Err(e),
        Ok(v) => {
            if v.len() >= 1 && v[0] == '"' as u8 {
                proof {
                    assert(v@.first() == qu());
                }
                match json_str_exec(v.as_slice(), 1) {
                    Some((s, j)) => {
                        if j == v.len() {
                            proof {
                                assert(v@.skip(j as int).len() == 0);
                            }
                            Ok(s)
                        } else {
                            proof {
                                assert(v@.skip(j as int).len() != 0);
                            }
                            Err(ChannelError::Decode)
                        }
                    },
                    None => Err(ChannelError::Decode),
                }
            } else {
                Err(ChannelError::Decode)
            }
        },
    }
}

} // verus!
