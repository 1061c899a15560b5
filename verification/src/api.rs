//! The HTTPS API: what it answers and what it logs.
use vstd::prelude::*;
use vstd::string::*;
use vstd::utf8::*;
use crate::certs;
use crate::certs::CertSet;
use crate::clock;
use crate::clock::Moment;
use crate::crypto;
use crate::report;
use crate::text;

verus! {

/// The focus while no certificate set has it.
pub const NO_FOCUS: usize = usize::MAX;

/// How many lines the log keeps.
pub const MAX_LOG_LINES: usize = 500;

/// How the API server is to run.
#[derive(Debug)]
pub struct ApiConfig {
    /// The address to listen at.
    pub bind: String,
    pub tls_cert: Option<String>,
    pub tls_key: Option<String>,
}

/// The newest lines of a log, as many as it keeps.
pub open spec fn newest(log: Seq<String>) -> Seq<String> {
    if log.len() > MAX_LOG_LINES {
        log.skip(log.len() - MAX_LOG_LINES)
    } else {
        log
    }
}

/// Appends a line to a log; the oldest lines leave it where it gets too long.
pub fn log_line(log: &mut Vec<String>, line: String)
    ensures
        final(log)@ == newest(old(log)@.push(line)),
        final(log)@.len() <= MAX_LOG_LINES,
        final(log)@.last() == line,
{
    log.push(line);
    let len: usize = log.len();
    if len > MAX_LOG_LINES {
        let rest: Vec<String> = log.split_off(len - MAX_LOG_LINES);
        *log = rest;
        assert(log@ =~= newest(old(log)@.push(line)));
    }
}

/// The pieces of `s` between ampersands.
pub open spec fn params(s: Seq<char>) -> Seq<Seq<char>>
    decreases s.len(),
{
    match text::first_of(s, "&"@, 0) {
        Some(i) => {
            proof {
                text::lemma_first_of(s, "&"@, 0);
            }
            seq![s.take(i)] + params(s.skip(i + 1))
        },
        None => seq![s],
    }
}

/// The value of a parameter, if it is the format.
pub open spec fn format_value(param: Seq<char>) -> Option<Seq<char>> {
    match text::first_of(param, "="@, 0) {
        Some(i) => if param.take(i) == "format"@ {
            Some(param.skip(i + 1))
        } else {
            None
        },
        None => None,
    }
}

/// The first format among some parameters; PEM, where there is none.
pub open spec fn first_format(params: Seq<Seq<char>>) -> Seq<char>
    decreases params.len(),
{
    if params.len() == 0 {
        "pem"@
    } else {
        match format_value(params[0]) {
            Some(v) => v,
            None => first_format(params.drop_first()),
        }
    }
}

/// The format that a URI asks for.
pub open spec fn format_of(uri: Seq<char>) -> Seq<char> {
    match text::first_of(uri, "?"@, 0) {
        Some(q) => first_format(params(uri.skip(q + 1))),
        None => "pem"@,
    }
}

/// The format that a URI asks for in its query; PEM, where it asks for none.
pub fn parse_format(uri: &str) -> (r: String)
    ensures
        r@ == format_of(uri@),
{
    let cs: Vec<char> = text::chars_of(uri);
    let amp: Vec<char> = text::chars_of("&");
    let equals: Vec<char> = text::chars_of("=");
    let size: usize = cs.len();
    let mut from: usize = match text::find_any(&cs, &text::chars_of("?"), 0) {
        Some(q) => {
            proof {
                text::lemma_first_of(cs@, "?"@, 0);
            }
            q + 1
        },
        None => return "pem".to_string(),
    };
    loop
        invariant
            size == cs@.len(),
            from <= size,
            amp@ == "&"@,
            equals@ == "="@,
            first_format(params(cs@.skip(from as int))) == format_of(uri@),
        decreases size - from,
    {
        let ghost rest = cs@.skip(from as int);
        proof {
            lemma_first_of_skip(cs@, "&"@, from as int);
            text::lemma_first_of(cs@, "&"@, from as int);
        }
        let stop: Option<usize> = text::find_any(&cs, &amp, from);
        let end: usize = match stop {
            Some(i) => i,
            None => size,
        };
        let param: Vec<char> = text::chars_of(&text::slice_of(&cs, from, end));
        assert(param@ =~= rest.take(end - from));
        assert(rest.take(rest.len() as int) =~= rest);
        assert(params(rest)[0] == param@);
        if let Some(i) = text::find_any(&param, &equals, 0) {
            proof {
                text::lemma_first_of(param@, "="@, 0);
            }
            let name: String = text::slice_of(&param, 0, i);
            assert(name@ =~= param@.take(i as int));
            if text::str_eq(&name, "format") {
                let value: String = text::slice_of(&param, i + 1, param.len());
                assert(value@ =~= param@.skip(i + 1));
                return value;
            }
        }
        if stop.is_none() {
            assert(params(rest).drop_first() =~= Seq::empty());
            assert(first_format(params(rest).drop_first()) == "pem"@);
            return "pem".to_string();
        }
        assert(rest.skip(end - from + 1) =~= cs@.skip(end + 1));
        assert(params(rest).drop_first() =~= params(cs@.skip(end + 1)));
        from = end + 1;
    }
}

proof fn lemma_first_of_skip(s: Seq<char>, set: Seq<char>, from: int)
    requires
        0 <= from <= s.len(),
    ensures
        text::first_of(s, set, from) == match text::first_of(s.skip(from), set, 0) {
            Some(i) => Some(i + from),
            None => None,
        },
{
    lemma_first_of_shift(s, set, from, 0);
}

proof fn lemma_first_of_shift(s: Seq<char>, set: Seq<char>, by: int, from: int)
    requires
        0 <= by <= s.len(),
        0 <= from,
    ensures
        text::first_of(s, set, from + by) == match text::first_of(s.skip(by), set, from) {
            Some(i) => Some(i + by),
            None => None,
        },
    decreases s.len() - by - from,
{
    if from + by < s.len() {
        lemma_first_of_shift(s, set, by, from + 1);
    }
}

/// What the endpoints without state answer: status and body.
pub open spec fn route_of(method: Seq<char>, path: Seq<char>) -> (u16, Seq<char>) {
    if path == "/ping"@ {
        if method == "GET"@ || method == "HEAD"@ {
            (200, "pong"@)
        } else {
            (405, "method not allowed"@)
        }
    } else {
        (404, "not found"@)
    }
}

/// Answers for the endpoints without state.
pub fn route(method: &str, path: &str) -> (r: (u16, &'static str))
    ensures
        (r.0, r.1@) == route_of(method@, path@),
{
    if text::str_eq(path, "/ping") {
        if text::str_eq(method, "GET") || text::str_eq(method, "HEAD") {
            (200, "pong")
        } else {
            (405, "method not allowed")
        }
    } else {
        (404, "not found")
    }
}

/// Whether `r` is where a set with the number stands; sets whose number cannot be read have none.
pub open spec fn is_numbered(ids: Seq<Option<usize>>, id: usize, r: Option<usize>) -> bool {
    match r {
        Some(i) => i < ids.len() && ids[i as int] == Some(id) && forall|j: int|
            0 <= j < i ==> #[trigger] ids[j] != Some(id),
        None => forall|j: int| 0 <= j < ids.len() ==> #[trigger] ids[j] != Some(id),
    }
}

/// Finds the set with a number.
pub fn find_set(ids: &Vec<Option<usize>>, id: usize) -> (r: Option<usize>)
    ensures
        is_numbered(ids@, id, r),
{
    let mut i: usize = 0;
    while i < ids.len()
        invariant
            i <= ids@.len(),
            forall|j: int| 0 <= j < i ==> #[trigger] ids@[j] != Some(id),
        decreases ids.len() - i,
    {
        if let Some(n) = ids[i] {
            if n == id {
                return Some(i);
            }
        }
        i += 1;
    }
    None
}

/// Whether `r` is where the set with the focus stands.
pub open spec fn is_focused(ids: Seq<Option<usize>>, focus: usize, r: Option<usize>) -> bool {
    if focus == NO_FOCUS {
        r is None
    } else {
        is_numbered(ids, focus, r)
    }
}

/// Finds the set with the focus.
pub fn focused_set(ids: &Vec<Option<usize>>, focus: usize) -> (r: Option<usize>)
    ensures
        is_focused(ids@, focus, r),
        if focus == NO_FOCUS {
            r is None
        } else {
            is_numbered(ids@, focus, r)
        },
{
    if focus == NO_FOCUS {
        None
    } else {
        find_set(ids, focus)
    }
}

/// What there is to serve from.
pub enum Focused<'a> {
    /// No set has the focus.
    Nobody,
    /// The set that has the focus cannot be read.
    Broken,
    /// This set has the focus.
    On(&'a CertSet),
}

/// An answer, and the line that the log gets.
#[derive(Debug)]
pub struct Reply {
    pub status: u16,
    pub body: String,
    pub content_type: &'static str,
    pub log: Option<String>,
}

/// The contents of an answer.
pub struct Answer {
    pub status: u16,
    pub body: Seq<char>,
    pub content_type: Seq<char>,
    pub log: Option<Seq<char>>,
}

impl View for Reply {
    type V = Answer;

    open spec fn view(&self) -> Answer {
        Answer {
            status: self.status,
            body: self.body@,
            content_type: self.content_type@,
            log: crypto::text_option(self.log),
        }
    }
}

/// The content type of plain text.
pub open spec fn plain_type() -> Seq<char> {
    "text/plain; charset=utf-8"@
}

/// What the log says about a request.
pub open spec fn request_line(method: Seq<char>, target: Seq<char>, peer: Seq<char>) -> Seq<char> {
    method + " "@ + target + " from "@ + peer + " -> "@
}

/// Status, body and content type for an export that is served as `kind`.
pub open spec fn served(export: Result<Seq<char>, Seq<char>>, kind: Seq<char>) -> (
    u16,
    Seq<char>,
    Seq<char>,
) {
    match export {
        Ok(t) => (200, t, kind),
        Err(e) => (404, e, plain_type()),
    }
}

/// Status, body and content type that a set gives for a path and a format.
pub open spec fn data_of(set: CertSet, path: Seq<char>, format: Seq<char>, now: Moment) -> (
    u16,
    Seq<char>,
    Seq<char>,
) {
    let pem = "application/x-pem-file"@;
    if path == "/certificate"@ {
        if format == "text"@ {
            served(certs::leaf_text_export(set.leaf, now), plain_type())
        } else {
            served(certs::leaf_pem_export(set.leaf), pem)
        }
    } else if path == "/intermediate"@ {
        if format == "text"@ {
            served(certs::intermediates_text_export(set.intermediates@, now), plain_type())
        } else {
            served(certs::intermediates_pem_export(set.intermediates@), pem)
        }
    } else if path == "/key"@ {
        if format == "text"@ {
            served(certs::key_text_export(set.key), plain_type())
        } else {
            served(certs::key_pem_export(set.key), pem)
        }
    } else {
        (404, "not found"@, plain_type())
    }
}

/// The answer to a request at the moment `now`.
pub open spec fn answer(
    method: Seq<char>,
    uri: Seq<char>,
    path: Seq<char>,
    peer: Seq<char>,
    focused: Focused,
    now: Moment,
) -> Answer {
    let (status, body) = route_of(method, path);
    let line = request_line(method, path, peer);
    if status != 404 {
        Answer {
            status,
            body,
            content_type: plain_type(),
            log: Some(line + text::decimal(status as nat)),
        }
    } else if method != "GET"@ && method != "HEAD"@ {
        Answer {
            status: 405,
            body: "method not allowed"@,
            content_type: plain_type(),
            log: Some(line + "405"@),
        }
    } else {
        match focused {
            Focused::Nobody => Answer {
                status: 404,
                body: "no focused certificate set"@,
                content_type: plain_type(),
                log: Some(line + "404 (no focused set)"@),
            },
            Focused::Broken => Answer {
                status: 500,
                body: "internal error"@,
                content_type: plain_type(),
                log: None,
            },
            Focused::On(set) => {
                let format = format_of(uri);
                let (status, body, content_type) = data_of(*set, path, format, now);
                Answer {
                    status,
                    body,
                    content_type,
                    log: Some(
                        request_line(method, path + "?format="@ + format, peer) + text::decimal(
                            status as nat,
                        ),
                    ),
                }
            },
        }
    }
}

fn line_for(method: &str, target: &str, peer: &str, outcome: &str) -> (r: String)
    ensures
        r@ == request_line(method@, target@, peer@) + outcome@,
{
    let mut line: String = method.to_string();
    line.append(" ");
    line.append(target);
    line.append(" from ");
    line.append(peer);
    line.append(" -> ");
    line.append(outcome);
    line
}

fn serve_export(export: Result<String, &'static str>, kind: &'static str) -> (r: (
    u16,
    String,
    &'static str,
))
    ensures
        (r.0, r.1@, r.2@) == served(certs::export_view(export), kind@),
{
    match export {
        Ok(t) => (200, t, kind),
        Err(e) => (404, e.to_string(), "text/plain; charset=utf-8"),
    }
}

/// Whether a body that is not text for people carries what the path names: whoever reads it finds the
/// leaf certificate, the intermediates or the private key of the set again.
pub open spec fn carries(set: CertSet, path: Seq<char>, format: Seq<char>, body: Seq<char>) -> bool {
    format != "text"@ ==> {
        &&& path == "/certificate"@ && crypto::fits(encode_utf8(body)) ==> crypto::x509_of_pem(encode_utf8(body))
            == crypto::x509_of_der(set.leaf->0.der@)
        &&& path == "/intermediate"@ ==> exists|parts: Seq<Seq<u8>>|
            encode_utf8(body) == parts.flatten() && #[trigger] certs::read_back(
                parts,
                set.intermediates@,
            )
        &&& path == "/key"@ && crypto::fits(encode_utf8(body)) ==> crypto::private_key_of_pem(encode_utf8(body))
            == crypto::private_key_of_der(set.key->0.der@)
    }
}

proof fn lemma_paths_differ()
    ensures
        "/certificate"@ != "/intermediate"@,
        "/certificate"@ != "/key"@,
        "/intermediate"@ != "/key"@,
{
    reveal_strlit("/certificate");
    reveal_strlit("/intermediate");
    reveal_strlit("/key");
    assert("/certificate"@.len() == 12);
    assert("/intermediate"@.len() == 13);
    assert("/key"@.len() == 4);
}

fn serve_data(set: &CertSet, path: &str, format: &str, now: Moment) -> (r: (
    u16,
    String,
    &'static str,
))
    ensures
        (r.0, r.1@, r.2@) == data_of(*set, path@, format@, now),
        r.0 == 200 ==> carries(*set, path@, format@, r.1@),
{
    proof {
        lemma_paths_differ();
    }
    let as_text: bool = text::str_eq(format, "text");
    if text::str_eq(path, "/certificate") {
        if as_text {
            serve_export(certs::leaf_text_at(set, now), "text/plain; charset=utf-8")
        } else {
            serve_export(certs::leaf_pem(set), "application/x-pem-file")
        }
    } else if text::str_eq(path, "/intermediate") {
        if as_text {
            serve_export(certs::intermediates_text_at(set, now), "text/plain; charset=utf-8")
        } else {
            serve_export(certs::intermediates_pem(set), "application/x-pem-file")
        }
    } else if text::str_eq(path, "/key") {
        if as_text {
            serve_export(certs::key_text(set), "text/plain; charset=utf-8")
        } else {
            serve_export(certs::key_pem(set), "application/x-pem-file")
        }
    } else {
        (404, "not found".to_string(), "text/plain; charset=utf-8")
    }
}

/// Answers a request as of the moment `now`. Data that is served carries what it stands for.
pub fn handle_at(
    method: &str,
    uri: &str,
    path: &str,
    peer: &str,
    focused: Focused,
    now: Moment,
) -> (r: Reply)
    ensures
        r@ == answer(method@, uri@, path@, peer@, focused, now),
        focused matches Focused::On(set) ==> (r.status == 200 && path@ != "/ping"@ ==> carries(
            *set,
            path@,
            format_of(uri@),
            r.body@,
        )),
{
    let (status, body) = route(method, path);
    if status != 404 {
        let log: String = line_for(method, path, peer, &text::dec_u64(status as u64));
        return Reply {
            status,
            body: body.to_string(),
            content_type: "text/plain; charset=utf-8",
            log: Some(log),
        };
    }
    if !text::str_eq(method, "GET") && !text::str_eq(method, "HEAD") {
        return Reply {
            status: 405,
            body: "method not allowed".to_string(),
            content_type: "text/plain; charset=utf-8",
            log: Some(line_for(method, path, peer, "405")),
        };
    }
    match focused {
        Focused::Nobody => Reply {
            status: 404,
            body: "no focused certificate set".to_string(),
            content_type: "text/plain; charset=utf-8",
            log: Some(line_for(method, path, peer, "404 (no focused set)")),
        },
        Focused::Broken => Reply {
            status: 500,
            body: "internal error".to_string(),
            content_type: "text/plain; charset=utf-8",
            log: None,
        },
        Focused::On(set) => {
            let format: String = parse_format(uri);
            let (status, body, content_type) = serve_data(set, path, &format, now);
            let mut target: String = path.to_string();
            target.append("?format=");
            target.append(&format);
            let log: String = line_for(method, &target, peer, &text::dec_u64(status as u64));
            Reply { status, body, content_type, log: Some(log) }
        },
    }
}

/// Answers a request as of some moment. Data that is served carries what it stands for.
pub fn handle(method: &str, uri: &str, path: &str, peer: &str, focused: Focused) -> (r: Reply)
    ensures
        exists|now: Moment| r@ == #[trigger] answer(method@, uri@, path@, peer@, focused, now),
        focused matches Focused::On(set) ==> (r.status == 200 && path@ != "/ping"@ ==> carries(
            *set,
            path@,
            format_of(uri@),
            r.body@,
        )),
{
    handle_at(method, uri, path, peer, focused, clock::now())
}

/// What the log says when the server has begun to listen.
pub open spec fn listening_lines(bind: Seq<char>) -> Seq<Seq<char>> {
    seq![
        "API listening on https://"@ + bind,
        "GET /ping -> pong"@,
        "GET /certificate -> leaf cert (pem)"@,
        "GET /certificate?format=text -> leaf cert (text)"@,
        "GET /intermediate -> intermediate certs (pem)"@,
        "GET /key -> private key (pem)"@,
        "serves the currently focused certificate set"@,
    ]
}

/// The lines for the log when the server has begun to listen at an address.
pub fn startup_lines(bind: &str) -> (r: Vec<String>)
    ensures
        text::texts(r@) == listening_lines(bind@),
{
    let mut first: String = "API listening on https://".to_string();
    first.append(bind);
    let mut lines: Vec<String> = Vec::new();
    text::push_text(&mut lines, first);
    text::push_text(&mut lines, "GET /ping -> pong".to_string());
    text::push_text(&mut lines, "GET /certificate -> leaf cert (pem)".to_string());
    text::push_text(&mut lines, "GET /certificate?format=text -> leaf cert (text)".to_string());
    text::push_text(&mut lines, "GET /intermediate -> intermediate certs (pem)".to_string());
    text::push_text(&mut lines, "GET /key -> private key (pem)".to_string());
    text::push_text(&mut lines, "serves the currently focused certificate set".to_string());
    assert(text::texts(lines@) =~= listening_lines(bind@));
    lines
}

/// Only reading is allowed: any other method gets the answer that it is not, and the log says so.
pub proof fn only_reads_are_allowed(
    method: Seq<char>,
    uri: Seq<char>,
    path: Seq<char>,
    peer: Seq<char>,
    focused: Focused,
    now: Moment,
)
    requires
        method != "GET"@,
        method != "HEAD"@,
    ensures
        answer(method, uri, path, peer, focused, now).status == 405,
        answer(method, uri, path, peer, focused, now).body == "method not allowed"@,
        answer(method, uri, path, peer, focused, now).log == Some(
            request_line(method, path, peer) + "405"@,
        ),
{
    reveal_strlit("405");
    reveal_with_fuel(text::decimal, 3);
    assert(text::decimal(405) =~= "405"@);
}

/// Without focus no data is served: all but the ping is not found.
pub proof fn nothing_is_served_without_focus(
    method: Seq<char>,
    uri: Seq<char>,
    path: Seq<char>,
    peer: Seq<char>,
    now: Moment,
)
    requires
        path != "/ping"@,
        method == "GET"@ || method == "HEAD"@,
    ensures
        answer(method, uri, path, peer, Focused::Nobody, now).status == 404,
        answer(method, uri, path, peer, Focused::Nobody, now).body == "no focused certificate set"@,
{
}

/// A path that is not known is not found, whatever has the focus and can be read.
pub proof fn unknown_paths_are_not_found(
    method: Seq<char>,
    uri: Seq<char>,
    path: Seq<char>,
    peer: Seq<char>,
    focused: Focused,
    now: Moment,
)
    requires
        method == "GET"@ || method == "HEAD"@,
        path != "/ping"@,
        path != "/certificate"@,
        path != "/intermediate"@,
        path != "/key"@,
        focused !is Broken,
    ensures
        answer(method, uri, path, peer, focused, now).status == 404,
{
}

/// A request for the head alone is answered as the one for the data: they differ in the log only.
pub proof fn heads_are_answered_alike(
    uri: Seq<char>,
    path: Seq<char>,
    peer: Seq<char>,
    focused: Focused,
    now: Moment,
)
    ensures
        ({
            let get = answer("GET"@, uri, path, peer, focused, now);
            let head = answer("HEAD"@, uri, path, peer, focused, now);
            &&& get.status == head.status
            &&& get.body == head.body
            &&& get.content_type == head.content_type
        }),
{
}

/// What a path gives is a function of its own component of the set: leaf, intermediates or key.
pub proof fn endpoints_keep_apart(a: CertSet, b: CertSet, format: Seq<char>, now: Moment)
    ensures
        a.leaf == b.leaf ==> data_of(a, "/certificate"@, format, now) == data_of(
            b,
            "/certificate"@,
            format,
            now,
        ),
        a.intermediates@ == b.intermediates@ ==> data_of(a, "/intermediate"@, format, now)
            == data_of(b, "/intermediate"@, format, now),
        a.key == b.key ==> data_of(a, "/key"@, format, now) == data_of(b, "/key"@, format, now),
{
    lemma_paths_differ();
}

/// The readable part on one intermediate: its title with its number and its path, and the report on it.
pub open spec fn intermediate_part(v: Seq<(String, crypto::Certificate)>, k: int, now: Moment) -> Seq<char> {
    "Intermediate #"@ + text::decimal((k + 1) as nat) + " ("@ + v[k].0@ + ")\n"@
        + report::certificate_text(v[k].1, now)
}

proof fn lemma_parts_in_order(v: Seq<(String, crypto::Certificate)>, now: Moment)
    requires
        v.len() > 0,
    ensures
        certs::intermediates_report(v, now) == text::joined(
            Seq::new(v.len(), |k: int| intermediate_part(v, k, now)),
            "\n"@,
        ),
    decreases v.len(),
{
    reveal_strlit("\n");
    let n = v.len() - 1;
    let rest = v.drop_last();
    let parts = Seq::new(v.len(), |k: int| intermediate_part(v, k, now));
    let fewer = Seq::new(rest.len(), |k: int| intermediate_part(rest, k, now));
    assert(parts.drop_last() =~= fewer) by {
        assert forall|k: int| 0 <= k < n implies parts[k] == fewer[k] by {
            assert(v[k] == rest[k]);
        }
    }
    assert(parts.last() == intermediate_part(v, n, now));
    let number = text::decimal(v.len());
    let path = v.last().0@;
    let block = report::certificate_text(v.last().1, now);
    let last = "Intermediate #"@ + number + " ("@ + path + ")\n"@ + block;
    assert(parts.last() == last);
    let before = certs::intermediates_report(rest, now);
    lemma_title_after(before, "Intermediate #"@, number, " ("@, path, ")\n"@, block);
    if n > 0 {
        lemma_parts_in_order(rest, now);
    } else {
        assert(before == Seq::<char>::empty());
        assert(parts[0] == parts.last());
    }
}

proof fn lemma_title_after(
    before: Seq<char>,
    a: Seq<char>,
    b: Seq<char>,
    c: Seq<char>,
    d: Seq<char>,
    e: Seq<char>,
    f: Seq<char>,
)
    ensures
        before.push('\n') + a + b + c + d + e + f == before + "\n"@ + (a + b + c + d + e + f),
        Seq::<char>::empty() + a + b + c + d + e + f == a + b + c + d + e + f,
{
    reveal_strlit("\n");
    assert(before.push('\n') + a + b + c + d + e + f =~= before + "\n"@ + (a + b + c + d + e + f));
    assert(Seq::<char>::empty() + a + b + c + d + e + f =~= a + b + c + d + e + f);
}

/// A request for text is answered with plain text: the report on the certificate, on the private key, or
/// on every intermediate in order, each under a title with its number and its path. Where the component
/// is missing, the answer is that it was not found.
pub proof fn text_is_served_as_text(
    method: Seq<char>,
    uri: Seq<char>,
    path: Seq<char>,
    peer: Seq<char>,
    set: CertSet,
    now: Moment,
)
    requires
        method == "GET"@ || method == "HEAD"@,
        format_of(uri) == "text"@,
    ensures
        ({
            let a = answer(method, uri, path, peer, Focused::On(&set), now);
            &&& path == "/certificate"@ || path == "/intermediate"@ || path == "/key"@
                ==> a.content_type == "text/plain; charset=utf-8"@
            &&& path == "/certificate"@ ==> match set.leaf {
                Some(c) => a.status == 200 && a.body == report::certificate_text(c, now),
                None => a.status == 404 && a.body == "no certificate loaded"@,
            }
            &&& path == "/intermediate"@ ==> if set.intermediates@.len() > 0 {
                let v = set.intermediates@;
                a.status == 200 && a.body == text::joined(
                    Seq::new(v.len(), |k: int| intermediate_part(v, k, now)),
                    "\n"@,
                )
            } else {
                a.status == 404 && a.body == "no intermediate certificates loaded"@
            }
            &&& path == "/key"@ ==> match set.key {
                Some(k) => a.status == 200 && a.body == report::private_key_text(
                    k,
                    "PRIVATE KEY"@,
                    false,
                ),
                None => a.status == 404 && a.body == "no private key loaded"@,
            }
        }),
{
    lemma_paths_differ();
    lemma_not_ping();
    if set.intermediates@.len() > 0 {
        lemma_parts_in_order(set.intermediates@, now);
    }
}

proof fn lemma_not_ping()
    ensures
        "/certificate"@ != "/ping"@,
        "/intermediate"@ != "/ping"@,
        "/key"@ != "/ping"@,
{
    reveal_strlit("/ping");
    reveal_strlit("/certificate");
    reveal_strlit("/intermediate");
    reveal_strlit("/key");
    assert("/ping"@.len() == 5);
    assert("/certificate"@.len() == 12);
    assert("/intermediate"@.len() == 13);
    assert("/key"@.len() == 4);
}

proof fn lemma_bundle_in_order(v: Seq<(String, crypto::Certificate)>)
    ensures
        match certs::pem_bundle(v) {
            Some(b) => {
                &&& forall|k: int| 0 <= k < v.len() ==> crypto::x509_pem((#[trigger] v[k]).1.der@) is Some
                &&& b == Seq::new(v.len(), |k: int| crypto::x509_pem(v[k].1.der@)->0).flatten()
            },
            None => exists|k: int|
                0 <= k < v.len() && crypto::x509_pem((#[trigger] v[k]).1.der@) is None,
        },
    decreases v.len(),
{
    let parts = Seq::new(v.len(), |k: int| crypto::x509_pem(v[k].1.der@)->0);
    if v.len() > 0 {
        let rest = v.drop_last();
        lemma_bundle_in_order(rest);
        let fewer = Seq::new(rest.len(), |k: int| crypto::x509_pem(rest[k].1.der@)->0);
        assert(parts.drop_last() =~= fewer);
        if certs::pem_bundle(rest) is None {
            let k = choose|k: int|
                0 <= k < rest.len() && crypto::x509_pem((#[trigger] rest[k]).1.der@) is None;
            assert(v[k] == rest[k]);
        } else if crypto::x509_pem(v.last().1.der@) is None {
            assert(crypto::x509_pem(v[v.len() - 1].1.der@) is None);
        } else {
            assert forall|k: int| 0 <= k < v.len() implies crypto::x509_pem(
                (#[trigger] v[k]).1.der@,
            ) is Some by {
                if k < rest.len() {
                    assert(rest[k] == v[k]);
                }
            }
            parts.lemma_flatten_and_flatten_alt_are_equivalent();
            fewer.lemma_flatten_and_flatten_alt_are_equivalent();
            assert(parts.last() == crypto::x509_pem(v.last().1.der@)->0);
        }
    }
}

/// A request for anything but text is answered with PEM, as such: the encoding of the certificate or of
/// the private key, or the encodings of all intermediates in a row.
pub proof fn data_is_served_as_pem(
    method: Seq<char>,
    uri: Seq<char>,
    path: Seq<char>,
    peer: Seq<char>,
    set: CertSet,
    now: Moment,
)
    requires
        method == "GET"@ || method == "HEAD"@,
        format_of(uri) != "text"@,
        path == "/certificate"@ || path == "/intermediate"@ || path == "/key"@,
        answer(method, uri, path, peer, Focused::On(&set), now).status == 200,
    ensures
        ({
            let a = answer(method, uri, path, peer, Focused::On(&set), now);
            &&& a.content_type == "application/x-pem-file"@
            &&& path == "/certificate"@ ==> set.leaf is Some && crypto::x509_pem(set.leaf->0.der@)
                == Some(encode_utf8(a.body))
            &&& path == "/key"@ ==> set.key is Some && crypto::private_key_pem(set.key->0.der@) == Some(
                encode_utf8(a.body),
            )
            &&& path == "/intermediate"@ ==> {
                let v = set.intermediates@;
                &&& v.len() > 0
                &&& encode_utf8(a.body) == Seq::new(
                    v.len(),
                    |k: int| crypto::x509_pem(v[k].1.der@)->0,
                ).flatten()
            }
        }),
{
    broadcast use decode_utf8_encode_utf8;

    lemma_paths_differ();
    lemma_not_ping();
    lemma_bundle_in_order(set.intermediates@);
}

proof fn lemma_first_at(s: Seq<char>, set: Seq<char>, from: int, i: int)
    requires
        0 <= from <= i < s.len(),
        set.contains(s[i]),
        forall|j: int| from <= j < i ==> !set.contains(#[trigger] s[j]),
    ensures
        text::first_of(s, set, from) == Some(i),
    decreases i - from,
{
    if from < i {
        assert(!set.contains(s[from]));
        lemma_first_at(s, set, from + 1, i);
    }
}

proof fn lemma_first_none(s: Seq<char>, set: Seq<char>, from: int)
    requires
        0 <= from,
        forall|j: int| from <= j < s.len() ==> !set.contains(#[trigger] s[j]),
    ensures
        text::first_of(s, set, from) is None,
    decreases s.len() - from,
{
    if from < s.len() {
        assert(!set.contains(s[from]));
        lemma_first_none(s, set, from + 1);
    }
}

proof fn lemma_only(c: char, s: Seq<char>)
    requires
        s.len() == 1,
        s[0] == c,
    ensures
        forall|d: char| #[trigger] s.contains(d) <==> d == c,
{
    assert forall|d: char| #[trigger] s.contains(d) <==> d == c by {
        if d == c {
            assert(s[0] == d);
        }
    }
}

proof fn lemma_query(path: Seq<char>, query: Seq<char>)
    requires
        !path.contains('?'),
    ensures
        format_of(path + "?"@ + query) == first_format(params(query)),
{
    reveal_strlit("?");
    lemma_only('?', "?"@);
    let uri = path + "?"@ + query;
    assert forall|j: int| 0 <= j < path.len() implies !"?"@.contains(#[trigger] uri[j]) by {
        assert(uri[j] == path[j]);
    }
    lemma_first_at(uri, "?"@, 0, path.len() as int);
    assert(uri.skip((path.len() + 1) as int) =~= query);
}

/// A URI without a query asks for PEM. One whose query begins with a format asks for that format, whatever
/// parameters come after it; any other parameter at the start of a query does not count.
pub proof fn first_format_counts(path: Seq<char>, value: Seq<char>, other: Seq<char>, rest: Seq<char>)
    requires
        !path.contains('?'),
        !value.contains('&'),
        !other.contains('&'),
        !text::begins(other, "format="@),
    ensures
        format_of(path) == "pem"@,
        format_of(path + "?"@ + ("format="@ + value)) == value,
        format_of(path + "?"@ + ("format="@ + value + "&"@ + rest)) == value,
        format_of(path + "?"@ + (other + "&"@ + rest)) == format_of(path + "?"@ + rest),
        format_of(path + "?"@ + other) == "pem"@,
{
    reveal_strlit("?");
    reveal_strlit("&");
    reveal_strlit("=");
    reveal_strlit("format");
    reveal_strlit("format=");
    lemma_only('?', "?"@);
    lemma_only('&', "&"@);
    lemma_only('=', "="@);
    assert forall|j: int| 0 <= j < path.len() implies !"?"@.contains(#[trigger] path[j]) by {}
    lemma_first_none(path, "?"@, 0);
    let one = "format="@ + value;
    lemma_query(path, one);
    lemma_query(path, one + "&"@ + rest);
    lemma_query(path, other + "&"@ + rest);
    lemma_query(path, rest);
    lemma_query(path, other);
    lemma_param_value(value);
    assert forall|j: int| 0 <= j < one.len() implies !"&"@.contains(#[trigger] one[j]) by {
        if j >= 7 {
            assert(one[j] == value[j - 7]);
        }
    }
    lemma_params_split(one, rest);
    lemma_params_split(other, rest);
    lemma_no_format(other);
    assert(params(one + "&"@ + rest)[0] == one);
    assert(params(one)[0] == one);
    assert((seq![other] + params(rest)).drop_first() =~= params(rest));
    assert(seq![other].drop_first() =~= Seq::empty());
    assert(first_format(seq![other].drop_first()) == "pem"@);
}

proof fn lemma_params_split(one: Seq<char>, rest: Seq<char>)
    requires
        !one.contains('&'),
    ensures
        params(one) == seq![one],
        params(one + "&"@ + rest) == seq![one] + params(rest),
{
    reveal_strlit("&");
    lemma_only('&', "&"@);
    assert forall|j: int| 0 <= j < one.len() implies !"&"@.contains(#[trigger] one[j]) by {}
    lemma_first_none(one, "&"@, 0);
    let all = one + "&"@ + rest;
    assert forall|j: int| 0 <= j < one.len() implies !"&"@.contains(#[trigger] all[j]) by {
        assert(all[j] == one[j]);
    }
    lemma_first_at(all, "&"@, 0, one.len() as int);
    assert(all.take(one.len() as int) =~= one);
    assert(all.skip((one.len() + 1) as int) =~= rest);
}

proof fn lemma_param_value(value: Seq<char>)
    ensures
        format_value("format="@ + value) == Some(value),
{
    reveal_strlit("=");
    reveal_strlit("format");
    reveal_strlit("format=");
    lemma_only('=', "="@);
    let one = "format="@ + value;
    assert forall|j: int| 0 <= j < 6 implies !"="@.contains(#[trigger] one[j]) by {}
    lemma_first_at(one, "="@, 0, 6);
    assert(one.take(6) =~= "format"@);
    assert(one.skip(7) =~= value);
}

proof fn lemma_no_format(other: Seq<char>)
    requires
        !text::begins(other, "format="@),
    ensures
        format_value(other) is None,
{
    reveal_strlit("=");
    reveal_strlit("format");
    reveal_strlit("format=");
    lemma_only('=', "="@);
    if let Some(i) = text::first_of(other, "="@, 0) {
        text::lemma_first_of(other, "="@, 0);
        lemma_first_is(other, "="@, 0);
        if other.take(i) == "format"@ {
            assert(other.take(i).len() == 6);
            assert forall|k: int| 0 <= k < 6 implies other[k] == "format="@[k] by {
                assert(other.take(i)[k] == "format"@[k]);
            }
            assert(other.subrange(0, 7) =~= "format="@);
        }
    }
}

proof fn lemma_first_is(s: Seq<char>, set: Seq<char>, from: int)
    requires
        text::first_of(s, set, from) is Some,
    ensures
        set.contains(s[text::first_of(s, set, from)->0]),
    decreases s.len() - from,
{
    if 0 <= from < s.len() && !set.contains(s[from]) {
        lemma_first_is(s, set, from + 1);
    }
}

/// The log keeps the newest lines in their order: after a line is added it is the last one, and before
/// it stand the latest of the others, as many as there is room for.
pub proof fn log_keeps_newest(log: Seq<String>, line: String, k: int)
    requires
        0 <= k < newest(log.push(line)).len(),
    ensures
        ({
            let kept = newest(log.push(line));
            &&& kept.len() == if log.len() + 1 <= 500 {
                log.len() + 1
            } else {
                500
            }
            &&& kept.last() == line
            &&& k + 1 < kept.len() ==> kept[k] == log[log.len() + 1 - kept.len() + k]
        }),
{
}

/// The line for the log tells who asked for what by which method, and with which status it was answered.
pub proof fn log_tells_request(
    method: Seq<char>,
    uri: Seq<char>,
    path: Seq<char>,
    peer: Seq<char>,
    focused: Focused,
    now: Moment,
)
    ensures
        ({
            let a = answer(method, uri, path, peer, focused, now);
            &&& (a.log is None) ==> a.status == 500
            &&& a.log matches Some(l) ==> {
                &&& text::begins(l, method + " "@ + path)
                &&& text::within(l, " from "@ + peer + " -> "@ + text::decimal(a.status as nat))
            }
        }),
{
    let a = answer(method, uri, path, peer, focused, now);
    if let Some(l) = a.log {
        reveal_strlit("404 (no focused set)");
        reveal_strlit("405");
        reveal_with_fuel(text::decimal, 4);
        assert(text::decimal(405) =~= "405"@);
        assert("404 (no focused set)"@ =~= text::decimal(404) + "404 (no focused set)"@.skip(3));
        let target = if focused is On && route_of(method, path).0 == 404 && (method == "GET"@ || method
            == "HEAD"@) {
            path + "?format="@ + format_of(uri)
        } else {
            path
        };
        let status = text::decimal(a.status as nat);
        let rest = if focused is Nobody && route_of(method, path).0 == 404 && (method == "GET"@ || method
            == "HEAD"@) {
            "404 (no focused set)"@.skip(3)
        } else {
            Seq::empty()
        };
        let start = method + " "@ + path;
        let answered = " from "@ + peer + " -> "@ + status;
        assert(l =~= method + " "@ + target + " from "@ + peer + " -> "@ + status + rest);
        assert(l =~= (method + " "@ + target) + answered + rest);
        text::lemma_within(method + " "@ + target, answered, rest);
        assert(l.subrange(0, start.len() as int) =~= start);
    }
}

/// The ping is answered to whoever asks, whatever has the focus; a set that cannot be read is an error of
/// the server, of which the log says nothing.
pub proof fn ping_is_answered(
    method: Seq<char>,
    uri: Seq<char>,
    path: Seq<char>,
    peer: Seq<char>,
    focused: Focused,
    now: Moment,
)
    requires
        method == "GET"@ || method == "HEAD"@,
    ensures
        ({
            let a = answer(method, uri, path, peer, focused, now);
            &&& path == "/ping"@ ==> a.status == 200 && a.body == "pong"@ && a.content_type
                == "text/plain; charset=utf-8"@
            &&& path != "/ping"@ && focused is Broken ==> a.status == 500 && a.body
                == "internal error"@ && a.log is None
        }),
{
}

/// A request for PEM is answered with success exactly if the component is there and OpenSSL encodes it,
/// every intermediate among them, as UTF-8. Where a component is missing, the answer says which.
pub proof fn data_is_owed(
    method: Seq<char>,
    uri: Seq<char>,
    peer: Seq<char>,
    set: CertSet,
    now: Moment,
)
    requires
        method == "GET"@ || method == "HEAD"@,
        format_of(uri) != "text"@,
    ensures
        ({
            let a = answer(method, uri, "/certificate"@, peer, Focused::On(&set), now);
            let encoded = crypto::x509_pem(set.leaf->0.der@);
            &&& (a.status == 200) == (set.leaf is Some && encoded is Some && valid_utf8(encoded->0))
            &&& a.status != 200 ==> a.status == 404 && a.content_type == "text/plain; charset=utf-8"@
            &&& set.leaf is None ==> a.body == "no certificate loaded"@
        }),
        ({
            let a = answer(method, uri, "/key"@, peer, Focused::On(&set), now);
            let encoded = crypto::private_key_pem(set.key->0.der@);
            &&& (a.status == 200) == (set.key is Some && encoded is Some && valid_utf8(encoded->0))
            &&& a.status != 200 ==> a.status == 404 && a.content_type == "text/plain; charset=utf-8"@
            &&& set.key is None ==> a.body == "no private key loaded"@
        }),
        ({
            let a = answer(method, uri, "/intermediate"@, peer, Focused::On(&set), now);
            let v = set.intermediates@;
            let encoded = Seq::new(v.len(), |k: int| crypto::x509_pem(v[k].1.der@)->0).flatten();
            &&& (a.status == 200) == (v.len() > 0 && (forall|k: int|
                0 <= k < v.len() ==> crypto::x509_pem((#[trigger] v[k]).1.der@) is Some) && valid_utf8(
                encoded,
            ))
            &&& a.status != 200 ==> a.status == 404 && a.content_type == "text/plain; charset=utf-8"@
            &&& v.len() == 0 ==> a.body == "no intermediate certificates loaded"@
        }),
{
    lemma_paths_differ();
    lemma_not_ping();
    lemma_bundle_in_order(set.intermediates@);
}

/// When the server has begun to listen, the log first tells the address and then every endpoint.
pub proof fn address_is_told(bind: Seq<char>)
    ensures
        listening_lines(bind).len() == 7,
        text::ends(listening_lines(bind)[0], "https://"@ + bind),
        forall|k: int| 1 <= k < 6 ==> text::begins(#[trigger] listening_lines(bind)[k], "GET /"@),
{
    reveal_strlit("API listening on https://");
    reveal_strlit("https://");
    reveal_strlit("GET /");
    reveal_strlit("GET /ping -> pong");
    reveal_strlit("GET /certificate -> leaf cert (pem)");
    reveal_strlit("GET /certificate?format=text -> leaf cert (text)");
    reveal_strlit("GET /intermediate -> intermediate certs (pem)");
    reveal_strlit("GET /key -> private key (pem)");
    let l = listening_lines(bind);
    let tail = "https://"@ + bind;
    let t = l[0];
    assert(t.subrange(t.len() - tail.len(), t.len() as int) =~= tail);
    assert forall|k: int| 1 <= k < 6 implies text::begins(#[trigger] l[k], "GET /"@) by {
        assert(l[k].subrange(0, 5) =~= "GET /"@);
    }
}

/// A number leads to one set at most: the first that has it. A set that has the number is found.
pub proof fn numbers_are_unambiguous(ids: Seq<Option<usize>>, id: usize, r: Option<usize>, q: Option<usize>)
    requires
        is_numbered(ids, id, r),
        is_numbered(ids, id, q),
    ensures
        r == q,
        ids.contains(Some(id)) == (r is Some),
        r matches Some(i) ==> ids[i as int] == Some(id),
{
    if ids.contains(Some(id)) {
        let j = choose|j: int| 0 <= j < ids.len() && ids[j] == Some(id);
        assert(ids[j] == Some(id));
    }
    if let Some(i) = r {
        assert(ids[i as int] == Some(id));
    }
    if let Some(j) = q {
        assert(ids[j as int] == Some(id));
    }
}

/// The focus leads to the set that has its number, and to none while no set has the focus.
pub proof fn focus_leads_to_set(ids: Seq<Option<usize>>, focus: usize, r: Option<usize>)
    requires
        is_focused(ids, focus, r),
    ensures
        focus == usize::MAX ==> r is None,
        r matches Some(i) ==> i < ids.len() && ids[i as int] == Some(focus),
        focus != usize::MAX && ids.contains(Some(focus)) ==> r is Some,
{
    if focus != NO_FOCUS {
        numbers_are_unambiguous(ids, focus, r, r);
    }
}

} // verus!
