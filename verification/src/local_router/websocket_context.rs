//! Sockets: which requests open one, how long one lives, and which upstreams are left alone for a
//! while. Times are milliseconds on one clock.
use std::collections::VecDeque;
use crate::digest::Fingerprint;
use crate::json::{Json, JsonV, string_view};
use crate::keymap::{Key, KeyMap, kept_keys};
use crate::local_router::adapt::{add_capped, capped_sum};
use crate::local_router::errors::{Failure, FailureV, fail};
use crate::local_router::history::{UpstreamWebSocketAuthIdentity, print_view};
use crate::local_router::request_log_tap::{lossy_text, text_lossy};
use crate::local_router::routing::{
    RouteTarget, RouteTargetV, RouterSnapshot, header_bytes, route_id,
};
use crate::text::{
    Sep, char_is_alnum, chars_of, cut_at, eq_ignoring_case, find_sep, head, is_alnum,
    same_ignoring_case, split, split_once, split_text, split_words, str_eq, text_of, texts, trim,
    trimmed, utf8_text, words,
};
use crate::textmap::{
    TextMap, distinct, lemma_absent, lemma_with_key_absent, lookup, lookup_at, lookup_place,
    remove_then_look, set_then_look, with_key, without_key,
};
use vstd::prelude::*;
use vstd::string::*;
use vstd::utf8::*;

verus! {

pub const MAX_HEADER_BYTES: usize = 65_536;

pub const MAX_UPSTREAM_WEBSOCKET_BACKOFFS: usize = 128;

pub const UPSTREAM_WEBSOCKET_UNSUPPORTED_TTL: u64 = 3_600_000;

pub const UPSTREAM_WEBSOCKET_HEARTBEAT_INTERVAL: u64 = 25_000;

pub const UPSTREAM_WEBSOCKET_PONG_TIMEOUT: u64 = 10_000;

pub const UPSTREAM_WEBSOCKET_MAX_REUSE_AGE: u64 = 3_300_000;

/// The longest pause between two tries.
pub const UPSTREAM_WEBSOCKET_LONGEST_BACKOFF: u64 = 60_000;

/// What the first bytes of a connection say.
#[derive(Clone, Copy, Debug, PartialEq, Eq, Structural)]
pub enum Sniffed {
    /// More bytes are needed.
    Unknown,
    Socket,
    Request,
    /// The request line is no text.
    Invalid,
}

/// The position of the first line end, or the length.
pub open spec fn line_end(b: Seq<u8>, from: int) -> int
    decreases b.len() - from,
{
    if from < 0 || from + 1 >= b.len() {
        b.len() as int
    } else if b[from] == 13 && b[from + 1] == 10 {
        from
    } else {
        line_end(b, from + 1)
    }
}

/// The position of the empty line that ends the header lines, or the length.
pub open spec fn header_end(b: Seq<u8>, from: int) -> int
    decreases b.len() - from,
{
    if from < 0 || from + 3 >= b.len() {
        b.len() as int
    } else if b[from] == 13 && b[from + 1] == 10 && b[from + 2] == 13 && b[from + 3] == 10 {
        from
    } else {
        header_end(b, from + 1)
    }
}

/// The path of a request line without its query.
pub open spec fn plain_path(path: Seq<char>) -> Seq<char> {
    split(path, Sep::Char('?'))[0]
}

pub open spec fn word_at(words: Seq<Seq<char>>, i: int) -> Seq<char> {
    if 0 <= i < words.len() {
        words[i]
    } else {
        Seq::empty()
    }
}

/// The request line asks for the responses socket.
pub open spec fn asks_socket(line: Seq<char>) -> bool {
    let w = words(line);
    let path = plain_path(word_at(w, 1));
    word_at(w, 0) == "GET"@ && (path == "/v1/responses"@ || path == "/responses"@)
}

/// Some part of a list is the word `upgrade`.
pub open spec fn lists_upgrade(value: Seq<char>) -> bool {
    let parts = split(value, Sep::CommaOrSpace);
    exists|i: int|
        0 <= i < parts.len() && same_ignoring_case(trim(#[trigger] parts[i]), "upgrade"@)
}

/// Header lines so far: the connection is to be upgraded, and to a socket.
pub open spec fn upgrade_flags(lines: Seq<Seq<char>>, n: int) -> (bool, bool)
    decreases n,
{
    if n <= 0 {
        (false, false)
    } else {
        let (connection, socket) = upgrade_flags(lines, n - 1);
        match cut_at(lines[n - 1], ':') {
            None => (connection, socket),
            Some((name, value)) => if same_ignoring_case(trim(name), "connection"@) {
                (lists_upgrade(value), socket)
            } else if same_ignoring_case(trim(name), "upgrade"@) {
                (connection, same_ignoring_case(trim(value), "websocket"@))
            } else {
                (connection, socket)
            },
        }
    }
}

/// The position of the next carriage return with a line feed behind it, or the length.
pub open spec fn return_at(text: Seq<char>, from: int) -> int
    decreases text.len() - from,
{
    if from < 0 || from + 1 >= text.len() {
        text.len() as int
    } else if text[from] == '\r' && text[from + 1] == '\n' {
        from
    } else {
        return_at(text, from + 1)
    }
}

/// The lines of a text from a position on. A line ends with a carriage return and a line feed;
/// neither alone ends one.
pub open spec fn lines_from(text: Seq<char>, from: int) -> Seq<Seq<char>>
    decreases text.len() - from,
{
    let end = return_at(text, from);
    if from < 0 || from > text.len() {
        Seq::empty()
    } else if from <= end && end + 2 <= text.len() {
        seq![text.subrange(from, end)] + lines_from(text, end + 2)
    } else {
        seq![text.subrange(from, text.len() as int)]
    }
}

/// The header lines of a text.
pub open spec fn header_lines(text: Seq<char>) -> Seq<Seq<char>> {
    lines_from(text, 0)
}

/// The header lines ask for a socket.
pub open spec fn upgrades(text: Seq<char>) -> bool {
    let lines = header_lines(text);
    let (connection, socket) = upgrade_flags(lines, lines.len() as int);
    connection && socket
}

/// What the first bytes of a connection say.
pub open spec fn sniffed(b: Seq<u8>) -> Sniffed {
    let end = line_end(b, 0);
    let head = header_end(b, 0);
    if !(0 <= end < b.len()) {
        Sniffed::Unknown
    } else if !valid_utf8(b.subrange(0, end)) {
        Sniffed::Invalid
    } else if !asks_socket(decode_utf8(b.subrange(0, end))) {
        Sniffed::Request
    } else if !(0 <= head < b.len()) {
        Sniffed::Unknown
    } else if end + 2 <= head && upgrades(lossy_text(b.subrange(end + 2, head))) {
        Sniffed::Socket
    } else {
        Sniffed::Request
    }
}

fn find_line_end(b: &Vec<u8>) -> (r: usize)
    ensures
        r == line_end(b@, 0),
        r <= b.len(),
{
    let mut i: usize = 0;
    while b.len() >= 2 && i < b.len() - 1
        invariant
            i <= b.len(),
            line_end(b@, 0) == line_end(b@, i as int),
        decreases b.len() - i,
    {
        if b[i] == 13 && b[i + 1] == 10 {
            return i;
        }
        i = i + 1;
    }
    b.len()
}

/// The position of the empty line that ends the header lines, or the length.
pub fn find_header_end(b: &Vec<u8>) -> (r: usize)
    ensures
        r == header_end(b@, 0),
        r <= b.len(),
{
    let mut i: usize = 0;
    while b.len() >= 4 && i < b.len() - 3
        invariant
            i <= b.len(),
            header_end(b@, 0) == header_end(b@, i as int),
        decreases b.len() - i,
    {
        if b[i] == 13 && b[i + 1] == 10 && b[i + 2] == 13 && b[i + 3] == 10 {
            return i;
        }
        i = i + 1;
    }
    b.len()
}

proof fn lemma_pieces(s: Seq<char>, sep: Sep)
    ensures
        split(s, sep).len() >= 1,
    decreases s.len(),
{
    let i = find_sep(s, sep);
    if 0 <= i < s.len() {
        lemma_pieces(s.subrange(i + 1, s.len() as int), sep);
    }
}

fn line_asks_socket(line: &str) -> (r: bool)
    ensures
        r == asks_socket(line@),
{
    let w = split_words(line);
    proof {
        assert(texts(w@).len() == w.len());
        reveal_strlit("GET");
        reveal_strlit("/v1/responses");
        reveal_strlit("/responses");
        assert("GET"@.len() == 3);
    }
    if w.len() == 0 || !str_eq(w[0].as_str(), "GET") {
        return false;
    }
    let raw = if w.len() > 1 {
        w[1].clone()
    } else {
        String::new()
    };
    let pieces = split_text(raw.as_str(), Sep::Char('?'));
    proof {
        lemma_pieces(raw@, Sep::Char('?'));
        assert(texts(pieces@).len() == pieces.len());
    }
    let path = pieces[0].as_str();
    str_eq(path, "/v1/responses") || str_eq(path, "/responses")
}

fn value_lists_upgrade(value: &str) -> (r: bool)
    ensures
        r == lists_upgrade(value@),
{
    let parts = split_text(value, Sep::CommaOrSpace);
    let ghost all = texts(parts@);
    let mut i: usize = 0;
    while i < parts.len()
        invariant
            i <= parts.len(),
            all == texts(parts@),
            all == split(value@, Sep::CommaOrSpace),
            forall|j: int|
                0 <= j < i ==> !same_ignoring_case(trim(#[trigger] all[j]), "upgrade"@),
        decreases parts.len() - i,
    {
        proof {
            assert(all[i as int] == parts@[i as int]@);
        }
        if eq_ignoring_case(trimmed(parts[i].as_str()).as_str(), "upgrade") {
            return true;
        }
        i = i + 1;
    }
    false
}

fn find_return(v: &Vec<char>, from: usize) -> (r: usize)
    requires
        from <= v.len(),
    ensures
        r == return_at(v@, from as int),
        from <= r <= v.len(),
        r < v.len() ==> r + 2 <= v.len(),
{
    let mut i = from;
    while v.len() >= 2 && i < v.len() - 1
        invariant
            from <= i <= v.len(),
            return_at(v@, from as int) == return_at(v@, i as int),
        decreases v.len() - i,
    {
        if v[i] == '\r' && v[i + 1] == '\n' {
            return i;
        }
        i = i + 1;
    }
    v.len()
}

fn split_header_lines(text: &str) -> (r: Vec<String>)
    ensures
        texts(r@) == header_lines(text@),
{
    let v = chars_of(text);
    let mut out: Vec<String> = Vec::new();
    let mut from: usize = 0;
    let mut end = find_return(&v, 0);
    proof {
        assert(texts(out@) + lines_from(v@, 0) =~= lines_from(v@, 0));
    }
    while end < v.len()
        invariant
            from <= end <= v.len(),
            end < v.len() ==> end + 2 <= v.len(),
            end == return_at(v@, from as int),
            lines_from(v@, 0) == texts(out@) + lines_from(v@, from as int),
        decreases v.len() - end,
    {
        let line = text_of(&v, from, end);
        let ghost before = out@;
        let ghost tail = lines_from(v@, end + 2);
        out.push(line);
        proof {
            assert(texts(out@) + tail =~= texts(before) + (seq![line@] + tail));
        }
        from = end + 2;
        end = find_return(&v, from);
    }
    let line = text_of(&v, from, v.len());
    let ghost before = out@;
    out.push(line);
    proof {
        assert(texts(out@) =~= texts(before) + seq![line@]);
    }
    out
}

fn text_upgrades(text: &str) -> (r: bool)
    ensures
        r == upgrades(text@),
{
    let raw = split_header_lines(text);
    let ghost lines = header_lines(text@);
    let mut connection = false;
    let mut socket = false;
    let mut i: usize = 0;
    while i < raw.len()
        invariant
            i <= raw.len(),
            texts(raw@) == lines,
            lines == header_lines(text@),
            upgrade_flags(lines, i as int) == (connection, socket),
        decreases raw.len() - i,
    {
        proof {
            assert(texts(raw@)[i as int] == raw@[i as int]@);
        }
        if let Some((name, value)) = split_once(raw[i].as_str(), ':') {
            let name = trimmed(name.as_str());
            if eq_ignoring_case(name.as_str(), "connection") {
                connection = value_lists_upgrade(value.as_str());
            } else if eq_ignoring_case(name.as_str(), "upgrade") {
                socket = eq_ignoring_case(trimmed(value.as_str()).as_str(), "websocket");
            }
        }
        i = i + 1;
    }
    proof {
        assert(texts(raw@).len() == raw.len());
    }
    connection && socket
}

fn part_of(b: &Vec<u8>, from: usize, to: usize) -> (r: Vec<u8>)
    requires
        from <= to <= b.len(),
    ensures
        r@ == b@.subrange(from as int, to as int),
{
    let mut out: Vec<u8> = Vec::new();
    let mut i = from;
    while i < to
        invariant
            from <= i <= to <= b.len(),
            out@ == b@.subrange(from as int, i as int),
        decreases to - i,
    {
        out.push(b[i]);
        i = i + 1;
        proof {
            assert(out@ =~= b@.subrange(from as int, i as int));
        }
    }
    out
}

/// What the first bytes of a connection say.
pub fn request_looks_like_responses_websocket(bytes: &Vec<u8>) -> (r: Sniffed)
    ensures
        r == sniffed(bytes@),
{
    let end = find_line_end(bytes);
    if end >= bytes.len() {
        return Sniffed::Unknown;
    }
    let line_bytes = part_of(bytes, 0, end);
    match utf8_text(line_bytes.as_slice()) {
        None => {
            return Sniffed::Invalid;
        },
        Some(line) => {
            if !line_asks_socket(line) {
                return Sniffed::Request;
            }
        },
    }
    let head = find_header_end(bytes);
    if head >= bytes.len() {
        return Sniffed::Unknown;
    }
    if head < end || head - end < 2 {
        return Sniffed::Request;
    }
    let header_bytes = part_of(bytes, end + 2, head);
    if text_upgrades(text_lossy(header_bytes.as_slice()).as_str()) {
        Sniffed::Socket
    } else {
        Sniffed::Request
    }
}

/// How many bytes to look at next, once `current` were not enough; nothing where more than that is
/// too many.
pub fn next_peek_length(current: usize) -> (r: Option<usize>)
    ensures
        r == if current >= MAX_HEADER_BYTES + 4 {
            None
        } else if 2 * current < MAX_HEADER_BYTES + 4 {
            Some((2 * current) as usize)
        } else {
            Some((MAX_HEADER_BYTES + 4) as usize)
        },
{
    if current >= MAX_HEADER_BYTES + 4 {
        None
    } else if 2 * current < MAX_HEADER_BYTES + 4 {
        Some(2 * current)
    } else {
        Some(MAX_HEADER_BYTES + 4)
    }
}

/// The characters that an id of a stream may hold.
pub open spec fn is_stream_char(c: char) -> bool {
    is_alnum(c) || c == '_' || c == '-' || c == '.'
}

/// The id of a stream on a socket, where the message has one.
pub open spec fn stream_id(body: JsonV) -> Result<Option<Seq<char>>, FailureV> {
    match body.get("stream_id"@) {
        None => Ok(None),
        Some(JsonV::Str(id)) => if 0 < id.len() <= 256 && forall|i: int|
            0 <= i < id.len() ==> is_stream_char(#[trigger] id[i]) {
            Ok(Some(id))
        } else {
            Err(FailureV::Text("必须为 1–256 个字母、数字、下划线、连字符或句点"@))
        },
        Some(_) => Err(FailureV::Text("stream_id 必须是字符串"@)),
    }
}

/// The id of a stream on a socket.
pub fn responses_websocket_stream_id(body: &Json) -> (r: Result<Option<String>, Failure>)
    ensures
        match r {
            Ok(id) => stream_id(body@) == Ok::<Option<Seq<char>>, FailureV>(string_view(id)),
            Err(e) => stream_id(body@) == Err::<Option<Seq<char>>, FailureV>(e@),
        },
{
    let id = match body.get("stream_id") {
        None => {
            return Ok(None);
        },
        Some(v) => match v.as_str() {
            None => {
                return Err(fail("stream_id 必须是字符串"));
            },
            Some(s) => s,
        },
    };
    let v = chars_of(id);
    if v.len() == 0 || v.len() > 256 {
        return Err(fail("必须为 1–256 个字母、数字、下划线、连字符或句点"));
    }
    let mut i: usize = 0;
    while i < v.len()
        invariant
            i <= v.len(),
            v@ == id@,
            body@.get("stream_id"@) == Some(JsonV::Str(id@)),
            forall|j: int| 0 <= j < i ==> is_stream_char(#[trigger] id@[j]),
        decreases v.len() - i,
    {
        let c = v[i];
        if !(char_is_alnum(c) || c == '_' || c == '-' || c == '.') {
            return Err(fail("必须为 1–256 个字母、数字、下划线、连字符或句点"));
        }
        i = i + 1;
    }
    Ok(Some(id.to_owned()))
}

/// What is to be done with an idle socket.
#[derive(Clone, Copy, Debug, PartialEq, Eq, Structural)]
pub enum UpstreamWebSocketMaintenanceAction {
    Wait,
    SendPing,
    Drop,
}

/// When a socket was opened, last heard of, and last asked whether it is alive.
#[derive(Clone, Copy, Debug)]
pub struct UpstreamWebSocketLiveness {
    pub connected_at: u64,
    pub last_activity_at: u64,
    pub heartbeat_sent_at: Option<u64>,
}

/// A point in time after another; the clock does not go further than its largest number.
pub open spec fn later(time: u64, by: u64) -> u64 {
    capped_sum(time as int, by as int)
}

impl UpstreamWebSocketLiveness {
    pub fn new(now: u64) -> (r: UpstreamWebSocketLiveness)
        ensures
            r == (UpstreamWebSocketLiveness {
                connected_at: now,
                last_activity_at: now,
                heartbeat_sent_at: None,
            }),
    {
        UpstreamWebSocketLiveness {
            connected_at: now,
            last_activity_at: now,
            heartbeat_sent_at: None,
        }
    }

    pub fn record_activity(&mut self, now: u64)
        ensures
            *final(self) == (UpstreamWebSocketLiveness { last_activity_at: now, ..*old(self) }),
    {
        self.last_activity_at = now;
    }

    pub fn record_pong(&mut self, now: u64)
        ensures
            *final(self) == (UpstreamWebSocketLiveness {
                last_activity_at: now,
                heartbeat_sent_at: None,
                ..*old(self)
            }),
    {
        self.last_activity_at = now;
        self.heartbeat_sent_at = None;
    }

    pub fn record_heartbeat_sent(&mut self, now: u64)
        ensures
            *final(self) == (UpstreamWebSocketLiveness {
                heartbeat_sent_at: Some(now),
                ..*old(self)
            }),
    {
        self.heartbeat_sent_at = Some(now);
    }

    /// When the socket has to be looked at.
    pub open spec fn deadline(self) -> u64 {
        let alive = match self.heartbeat_sent_at {
            Some(sent) => later(sent, UPSTREAM_WEBSOCKET_PONG_TIMEOUT),
            None => later(self.last_activity_at, UPSTREAM_WEBSOCKET_HEARTBEAT_INTERVAL),
        };
        let age = later(self.connected_at, UPSTREAM_WEBSOCKET_MAX_REUSE_AGE);
        if age < alive {
            age
        } else {
            alive
        }
    }

    /// What is to be done with the socket at a time.
    pub open spec fn action_at(self, now: u64) -> UpstreamWebSocketMaintenanceAction {
        if now >= later(self.connected_at, UPSTREAM_WEBSOCKET_MAX_REUSE_AGE) {
            UpstreamWebSocketMaintenanceAction::Drop
        } else {
            match self.heartbeat_sent_at {
                Some(sent) => if now >= later(sent, UPSTREAM_WEBSOCKET_PONG_TIMEOUT) {
                    UpstreamWebSocketMaintenanceAction::Drop
                } else {
                    UpstreamWebSocketMaintenanceAction::Wait
                },
                None => if now >= later(
                    self.last_activity_at,
                    UPSTREAM_WEBSOCKET_HEARTBEAT_INTERVAL,
                ) {
                    UpstreamWebSocketMaintenanceAction::SendPing
                } else {
                    UpstreamWebSocketMaintenanceAction::Wait
                },
            }
        }
    }

    pub fn maintenance_deadline(&self) -> (r: u64)
        ensures
            r == self.deadline(),
    {
        let alive = match self.heartbeat_sent_at {
            Some(sent) => add_capped(sent, UPSTREAM_WEBSOCKET_PONG_TIMEOUT),
            None => add_capped(self.last_activity_at, UPSTREAM_WEBSOCKET_HEARTBEAT_INTERVAL),
        };
        let age = add_capped(self.connected_at, UPSTREAM_WEBSOCKET_MAX_REUSE_AGE);
        if age < alive {
            age
        } else {
            alive
        }
    }

    pub fn maintenance_action(&self, now: u64) -> (r: UpstreamWebSocketMaintenanceAction)
        ensures
            r == self.action_at(now),
    {
        if now >= add_capped(self.connected_at, UPSTREAM_WEBSOCKET_MAX_REUSE_AGE) {
            return UpstreamWebSocketMaintenanceAction::Drop;
        }
        match self.heartbeat_sent_at {
            Some(sent) => if now >= add_capped(sent, UPSTREAM_WEBSOCKET_PONG_TIMEOUT) {
                UpstreamWebSocketMaintenanceAction::Drop
            } else {
                UpstreamWebSocketMaintenanceAction::Wait
            },
            None => if now >= add_capped(
                self.last_activity_at,
                UPSTREAM_WEBSOCKET_HEARTBEAT_INTERVAL,
            ) {
                UpstreamWebSocketMaintenanceAction::SendPing
            } else {
                UpstreamWebSocketMaintenanceAction::Wait
            },
        }
    }
}

/// Before its deadline there is nothing to do with a socket, and from its deadline on there is.
pub proof fn nothing_to_do_before_the_deadline(socket: UpstreamWebSocketLiveness, now: u64)
    ensures
        socket.action_at(now) == UpstreamWebSocketMaintenanceAction::Wait <==> now
            < socket.deadline(),
{
}

/// What tells one socket's address from another: the route and its settings, the address, the
/// logins.
#[derive(Debug)]
pub struct UpstreamWebSocketBackoffKey {
    pub route_id: String,
    pub url: String,
    pub authorization: Option<Fingerprint>,
    pub account_id: Option<Fingerprint>,
    pub config_identity: Fingerprint,
}

#[verifier::ext_equal]
pub struct BackoffKeyV {
    pub route_id: Seq<char>,
    pub url: Seq<char>,
    pub authorization: Option<Seq<u8>>,
    pub account_id: Option<Seq<u8>>,
    pub config_identity: Seq<u8>,
}

impl View for UpstreamWebSocketBackoffKey {
    type V = BackoffKeyV;

    open spec fn view(&self) -> BackoffKeyV {
        BackoffKeyV {
            route_id: self.route_id@,
            url: self.url@,
            authorization: print_view(self.authorization),
            account_id: print_view(self.account_id),
            config_identity: self.config_identity@,
        }
    }
}

fn same_print(a: &Option<Fingerprint>, b: &Option<Fingerprint>) -> (r: bool)
    ensures
        r == (print_view(*a) == print_view(*b)),
{
    match (a, b) {
        (Some(x), Some(y)) => x.same(y),
        (None, None) => true,
        _ => false,
    }
}

fn copy_print(p: &Option<Fingerprint>) -> (r: Option<Fingerprint>)
    ensures
        print_view(r) == print_view(*p),
{
    match p {
        Some(f) => Some(f.copy()),
        None => None,
    }
}

impl Key for UpstreamWebSocketBackoffKey {
    fn same(&self, other: &Self) -> (r: bool) {
        str_eq(self.route_id.as_str(), other.route_id.as_str()) && str_eq(
            self.url.as_str(),
            other.url.as_str(),
        ) && same_print(&self.authorization, &other.authorization) && same_print(
            &self.account_id,
            &other.account_id,
        ) && self.config_identity.same(&other.config_identity)
    }

    fn copy(&self) -> (r: Self) {
        UpstreamWebSocketBackoffKey {
            route_id: self.route_id.clone(),
            url: self.url.clone(),
            authorization: copy_print(&self.authorization),
            account_id: copy_print(&self.account_id),
            config_identity: self.config_identity.copy(),
        }
    }
}

impl UpstreamWebSocketBackoffKey {
    pub fn for_route(route: &RouteTarget, url: &str, auth: &UpstreamWebSocketAuthIdentity) -> (r:
        UpstreamWebSocketBackoffKey)
        ensures
            r@ == (BackoffKeyV {
                route_id: route.provider_id@,
                url: url@,
                authorization: print_view(auth.authorization),
                account_id: print_view(auth.account_id),
                config_identity: route.websocket_config@,
            }),
    {
        UpstreamWebSocketBackoffKey {
            route_id: route.provider_id.clone(),
            url: url.to_owned(),
            authorization: copy_print(&auth.authorization),
            account_id: copy_print(&auth.account_id),
            config_identity: route.websocket_config.copy(),
        }
    }
}

/// How an upstream is left alone.
#[derive(Clone, Copy, Debug, PartialEq, Eq, Structural)]
pub struct UpstreamWebSocketBackoff {
    pub failure_count: u32,
    pub until: u64,
    pub unsupported: bool,
    pub generation: u64,
}

impl View for UpstreamWebSocketBackoff {
    type V = UpstreamWebSocketBackoff;

    open spec fn view(&self) -> UpstreamWebSocketBackoff {
        *self
    }
}

/// A number.
#[derive(Clone, Copy, Debug, PartialEq, Eq, Structural)]
pub struct Ticket {
    pub number: u64,
}

impl View for Ticket {
    type V = u64;

    open spec fn view(&self) -> u64 {
        self.number
    }
}

/// What is known of the upstreams' sockets.
pub struct UpstreamWebSocketBackoffs {
    pub entries: KeyMap<UpstreamWebSocketBackoffKey, UpstreamWebSocketBackoff>,
    pub order: VecDeque<(UpstreamWebSocketBackoffKey, u64)>,
    pub next_generation: u64,
    /// The routes with sockets, each with what its sockets depend on. None until they are known.
    pub routes: Option<TextMap<Fingerprint>>,
    /// How often the routes have changed.
    pub changes: u64,
    pub probing: KeyMap<UpstreamWebSocketBackoffKey, Ticket>,
    pub supported: KeyMap<UpstreamWebSocketBackoffKey, Ticket>,
}

#[verifier::ext_equal]
pub struct BackoffsV {
    pub entries: Seq<(BackoffKeyV, UpstreamWebSocketBackoff)>,
    pub order: Seq<(BackoffKeyV, u64)>,
    pub generation: u64,
    pub routes: Option<Seq<(Seq<char>, Seq<u8>)>>,
    pub changes: u64,
    pub probing: Seq<(BackoffKeyV, u64)>,
    pub supported: Seq<(BackoffKeyV, u64)>,
}

pub open spec fn queue_view(order: Seq<(UpstreamWebSocketBackoffKey, u64)>) -> Seq<
    (BackoffKeyV, u64),
> {
    Seq::new(order.len(), |i: int| (order[i].0@, order[i].1))
}

/// The route still has the settings that the key was made with.
pub open spec fn is_current(
    routes: Option<Seq<(Seq<char>, Seq<u8>)>>,
    route_id: Seq<char>,
    identity: Seq<u8>,
) -> bool {
    match routes {
        None => true,
        Some(r) => lookup(r, route_id) == Some(identity),
    }
}

/// The upstream is to be left alone.
pub open spec fn backing_off(
    entries: Seq<(BackoffKeyV, UpstreamWebSocketBackoff)>,
    key: BackoffKeyV,
    now: u64,
) -> bool {
    lookup(entries, key) matches Some(e) && e.until > now
}

/// The pause after so many failures: 5, 15, 30 and then always 60 seconds.
pub open spec fn pause_after(failure_count: u32) -> u64 {
    if failure_count <= 1 {
        5_000
    } else if failure_count == 2 {
        15_000
    } else if failure_count == 3 {
        30_000
    } else {
        UPSTREAM_WEBSOCKET_LONGEST_BACKOFF
    }
}

/// The pause after so many failures.
pub fn upstream_websocket_backoff_duration(failure_count: u32) -> (r: u64)
    ensures
        r == pause_after(failure_count),
{
    if failure_count <= 1 {
        5_000
    } else if failure_count == 2 {
        15_000
    } else if failure_count == 3 {
        30_000
    } else {
        UPSTREAM_WEBSOCKET_LONGEST_BACKOFF
    }
}

/// The entry of the queue is that of the key's present entry.
pub open spec fn is_present(
    entries: Seq<(BackoffKeyV, UpstreamWebSocketBackoff)>,
    item: (BackoffKeyV, u64),
) -> bool {
    lookup(entries, item.0) matches Some(e) && e.generation == item.1
}

/// The oldest entries are given up until few enough are left.
pub open spec fn given_up(
    entries: Seq<(BackoffKeyV, UpstreamWebSocketBackoff)>,
    order: Seq<(BackoffKeyV, u64)>,
) -> (Seq<(BackoffKeyV, UpstreamWebSocketBackoff)>, Seq<(BackoffKeyV, u64)>)
    decreases order.len(),
{
    if entries.len() <= MAX_UPSTREAM_WEBSOCKET_BACKOFFS || order.len() == 0 {
        (entries, order)
    } else if is_present(entries, order[0]) {
        given_up(without_key(entries, order[0].0), order.subrange(1, order.len() as int))
    } else {
        given_up(entries, order.subrange(1, order.len() as int))
    }
}

pub open spec fn present_only(
    entries: Seq<(BackoffKeyV, UpstreamWebSocketBackoff)>,
    order: Seq<(BackoffKeyV, u64)>,
) -> Seq<(BackoffKeyV, u64)>
    decreases order.len(),
{
    if order.len() == 0 {
        order
    } else {
        let rest = present_only(entries, order.drop_last());
        if is_present(entries, order.last()) {
            rest.push(order.last())
        } else {
            rest
        }
    }
}

/// The table and its queue within their limits.
pub open spec fn limited(b: BackoffsV) -> BackoffsV {
    let (entries, order) = given_up(b.entries, b.order);
    BackoffsV {
        entries,
        order: if order.len() > MAX_UPSTREAM_WEBSOCKET_BACKOFFS * 4 {
            present_only(entries, order)
        } else {
            order
        },
        ..b
    }
}

pub open spec fn next_number(n: u64) -> u64 {
    if n == u64::MAX {
        0
    } else {
        (n + 1) as u64
    }
}

/// A new entry for a key.
pub open spec fn entered(
    b: BackoffsV,
    key: BackoffKeyV,
    failure_count: u32,
    until: u64,
    unsupported: bool,
) -> BackoffsV {
    let g = next_number(b.generation);
    limited(
        BackoffsV {
            entries: with_key(
                b.entries,
                key,
                UpstreamWebSocketBackoff { failure_count, until, unsupported, generation: g },
            ),
            order: b.order.push((key, g)),
            generation: g,
            ..b
        },
    )
}

/// How many failures there have been, with this one. A pause long past, and an upstream that did
/// not have sockets, start anew.
pub open spec fn failures_with(
    entries: Seq<(BackoffKeyV, UpstreamWebSocketBackoff)>,
    key: BackoffKeyV,
    now: u64,
) -> u32 {
    match lookup(entries, key) {
        Some(e) => if !e.unsupported && now <= later(
            e.until,
            UPSTREAM_WEBSOCKET_LONGEST_BACKOFF,
        ) {
            if e.failure_count == u32::MAX {
                u32::MAX
            } else {
                (e.failure_count + 1) as u32
            }
        } else {
            1
        },
        None => 1,
    }
}

/// A failure. Failures while the upstream is left alone belong to one outage.
pub open spec fn failed(b: BackoffsV, key: BackoffKeyV, now: u64) -> (BackoffsV, (u32, u64)) {
    let doubted = BackoffsV { supported: without_key(b.supported, key), ..b };
    if !is_current(b.routes, key.route_id, key.config_identity) {
        (doubted, (1u32, pause_after(1)))
    } else if backing_off(b.entries, key, now) {
        let e = lookup(b.entries, key)->0;
        (doubted, (e.failure_count, (e.until - now) as u64))
    } else {
        let n = failures_with(b.entries, key, now);
        (entered(doubted, key, n, later(now, pause_after(n)), false), (n, pause_after(n)))
    }
}

/// The upstream has no sockets.
pub open spec fn refused(b: BackoffsV, key: BackoffKeyV, now: u64) -> BackoffsV {
    let doubted = BackoffsV { supported: without_key(b.supported, key), ..b };
    if !is_current(b.routes, key.route_id, key.config_identity) {
        doubted
    } else {
        entered(doubted, key, 0, later(now, UPSTREAM_WEBSOCKET_UNSUPPORTED_TTL), true)
    }
}

/// A socket was opened.
pub open spec fn succeeded(b: BackoffsV, key: BackoffKeyV) -> BackoffsV {
    let cleared = BackoffsV { entries: without_key(b.entries, key), ..b };
    if !is_current(b.routes, key.route_id, key.config_identity) {
        cleared
    } else {
        let known = if b.supported.len() >= MAX_UPSTREAM_WEBSOCKET_BACKOFFS {
            Seq::empty()
        } else {
            b.supported
        };
        BackoffsV { supported: with_key(known, key, 0u64), ..cleared }
    }
}

/// The leave to open a socket: none; one for an upstream that is known to have sockets; or one that
/// nobody else gets until it is given back.
pub open spec fn probe(b: BackoffsV, key: BackoffKeyV, now: u64) -> (BackoffsV, Option<Option<u64>>) {
    if !is_current(b.routes, key.route_id, key.config_identity) || backing_off(
        b.entries,
        key,
        now,
    ) {
        (b, None)
    } else if lookup(b.supported, key) is Some {
        (b, Some(None))
    } else if lookup(b.probing, key) is Some {
        (b, None)
    } else {
        let g = next_number(b.generation);
        (BackoffsV { probing: with_key(b.probing, key, g), generation: g, ..b }, Some(Some(g)))
    }
}

/// The leave is given back.
pub open spec fn probed(b: BackoffsV, key: BackoffKeyV, ticket: Option<u64>) -> BackoffsV {
    match ticket {
        Some(g) => if lookup(b.probing, key) == Some(g) {
            BackoffsV { probing: without_key(b.probing, key), ..b }
        } else {
            b
        },
        None => b,
    }
}

impl UpstreamWebSocketBackoffs {
    pub open spec fn inv(&self) -> bool {
        &&& self.entries.inv()
        &&& self.probing.inv()
        &&& self.supported.inv()
        &&& self.routes matches Some(r) ==> r.inv()
    }

    pub open spec fn state(&self) -> BackoffsV {
        BackoffsV {
            entries: self.entries@,
            order: queue_view(self.order@),
            generation: self.next_generation,
            routes: match self.routes {
                Some(r) => Some(r@),
                None => None,
            },
            changes: self.changes,
            probing: self.probing@,
            supported: self.supported@,
        }
    }

    pub fn new() -> (r: UpstreamWebSocketBackoffs)
        ensures
            r.inv(),
            r.state() == (BackoffsV {
                entries: Seq::empty(),
                order: Seq::empty(),
                generation: 0,
                routes: None,
                changes: 0,
                probing: Seq::empty(),
                supported: Seq::empty(),
            }),
    {
        let r = UpstreamWebSocketBackoffs {
            entries: KeyMap::new(),
            order: VecDeque::new(),
            next_generation: 0,
            routes: None,
            changes: 0,
            probing: KeyMap::new(),
            supported: KeyMap::new(),
        };
        proof {
            assert(queue_view(r.order@) =~= Seq::<(BackoffKeyV, u64)>::empty());
        }
        r
    }

    pub fn route_is_current(&self, route_id: &str, identity: &Fingerprint) -> (r: bool)
        requires
            self.inv(),
        ensures
            r == is_current(self.state().routes, route_id@, identity@),
    {
        match &self.routes {
            None => true,
            Some(routes) => match routes.get(route_id) {
                Some(known) => known.same(identity),
                None => false,
            },
        }
    }

    pub fn is_backing_off(&self, key: &UpstreamWebSocketBackoffKey, now: u64) -> (r: bool)
        requires
            self.inv(),
        ensures
            r == backing_off(self.entries@, key@, now),
    {
        match self.entries.get(key) {
            Some(e) => e.until > now,
            None => false,
        }
    }

    fn holds(&self, key: &UpstreamWebSocketBackoffKey, generation: u64) -> (r: bool)
        requires
            self.inv(),
        ensures
            r == is_present(self.entries@, (key@, generation)),
    {
        match self.entries.get(key) {
            Some(e) => e.generation == generation,
            None => false,
        }
    }

    /// Brings the table and its queue within their limits.
    pub fn enforce_limit(&mut self)
        requires
            old(self).inv(),
        ensures
            final(self).inv(),
            final(self).state() == limited(old(self).state()),
    {
        while self.entries.len() > MAX_UPSTREAM_WEBSOCKET_BACKOFFS && self.order.len() > 0
            invariant
                self.inv(),
                given_up(self.entries@, queue_view(self.order@)) == given_up(
                    old(self).entries@,
                    queue_view(old(self).order@),
                ),
                self.next_generation == old(self).next_generation,
                self.routes == old(self).routes,
                self.changes == old(self).changes,
                self.probing == old(self).probing,
                self.supported == old(self).supported,
            decreases self.order.len(),
        {
            let ghost order = queue_view(self.order@);
            if let Some((key, generation)) = self.order.pop_front() {
                proof {
                    assert(order[0] == (key@, generation));
                    assert(queue_view(self.order@) =~= order.subrange(1, order.len() as int));
                }
                if self.holds(&key, generation) {
                    let _ = self.entries.remove(&key);
                }
            }
        }
        if self.order.len() > MAX_UPSTREAM_WEBSOCKET_BACKOFFS * 4 {
            self.drop_stale();
        }
    }

    fn drop_stale(&mut self)
        requires
            old(self).inv(),
        ensures
            final(self).inv(),
            final(self).state() == (BackoffsV {
                order: present_only(old(self).entries@, queue_view(old(self).order@)),
                ..old(self).state()
            }),
    {
        let ghost all = queue_view(self.order@);
        let mut kept: VecDeque<(UpstreamWebSocketBackoffKey, u64)> = VecDeque::new();
        let mut i: usize = 0;
        proof {
            assert(queue_view(kept@) =~= present_only(self.entries@, all.subrange(0, 0)));
        }
        while i < self.order.len()
            invariant
                i <= all.len(),
                self.inv(),
                *self == *old(self),
                all == queue_view(self.order@),
                queue_view(kept@) == present_only(self.entries@, all.subrange(0, i as int)),
            decreases all.len() - i,
        {
            proof {
                assert(all.subrange(0, i + 1).drop_last() =~= all.subrange(0, i as int));
                assert(all.subrange(0, i + 1).last() == all[i as int]);
            }
            let item = &self.order[i];
            if self.holds(&item.0, item.1) {
                let ghost before = kept@;
                kept.push_back((item.0.copy(), item.1));
                proof {
                    assert(queue_view(kept@) =~= queue_view(before).push(all[i as int]));
                }
            }
            i = i + 1;
        }
        proof {
            assert(all.subrange(0, i as int) =~= all);
        }
        self.order = kept;
    }

    fn enter(
        &mut self,
        key: &UpstreamWebSocketBackoffKey,
        failure_count: u32,
        until: u64,
        unsupported: bool,
    )
        requires
            old(self).inv(),
        ensures
            final(self).inv(),
            final(self).state() == entered(
                old(self).state(),
                key@,
                failure_count,
                until,
                unsupported,
            ),
    {
        let generation: u64 = if self.next_generation == u64::MAX {
            0
        } else {
            self.next_generation + 1
        };
        self.next_generation = generation;
        self.entries.insert(
            key,
            UpstreamWebSocketBackoff { failure_count, until, unsupported, generation },
        );
        let ghost before = self.order@;
        self.order.push_back((key.copy(), generation));
        proof {
            assert(queue_view(self.order@) =~= queue_view(before).push((key@, generation)));
        }
        self.enforce_limit();
    }

    /// Notes a failure. Says how many there have been and how long to wait.
    pub fn record_failure(&mut self, key: &UpstreamWebSocketBackoffKey, now: u64) -> (r: (u32, u64))
        requires
            old(self).inv(),
        ensures
            final(self).inv(),
            (final(self).state(), r) == failed(old(self).state(), key@, now),
    {
        let _ = self.supported.remove(key);
        if !self.route_is_current(key.route_id.as_str(), &key.config_identity) {
            return (1, upstream_websocket_backoff_duration(1));
        }
        let mut count: u32 = 1;
        if let Some(e) = self.entries.get(key) {
            if e.until > now {
                return (e.failure_count, e.until - now);
            }
            if !e.unsupported && now <= add_capped(e.until, UPSTREAM_WEBSOCKET_LONGEST_BACKOFF) {
                count = if e.failure_count == u32::MAX {
                    u32::MAX
                } else {
                    e.failure_count + 1
                };
            }
        }
        let pause = upstream_websocket_backoff_duration(count);
        self.enter(key, count, add_capped(now, pause), false);
        (count, pause)
    }

    /// Notes that an upstream has no sockets.
    pub fn record_unsupported(&mut self, key: &UpstreamWebSocketBackoffKey, now: u64)
        requires
            old(self).inv(),
        ensures
            final(self).inv(),
            final(self).state() == refused(old(self).state(), key@, now),
    {
        let _ = self.supported.remove(key);
        if self.route_is_current(key.route_id.as_str(), &key.config_identity) {
            self.enter(key, 0, add_capped(now, UPSTREAM_WEBSOCKET_UNSUPPORTED_TTL), true);
        }
    }

    /// Notes that a socket was opened.
    pub fn record_success(&mut self, key: &UpstreamWebSocketBackoffKey)
        requires
            old(self).inv(),
        ensures
            final(self).inv(),
            final(self).state() == succeeded(old(self).state(), key@),
    {
        let _ = self.entries.remove(key);
        if self.route_is_current(key.route_id.as_str(), &key.config_identity) {
            if self.supported.len() >= MAX_UPSTREAM_WEBSOCKET_BACKOFFS {
                self.supported = KeyMap::new();
            }
            self.supported.insert(key, Ticket { number: 0 });
        }
    }

    /// Asks for leave to open a socket.
    pub fn acquire_probe(&mut self, key: &UpstreamWebSocketBackoffKey, now: u64) -> (r: Option<
        Option<u64>,
    >)
        requires
            old(self).inv(),
        ensures
            final(self).inv(),
            (final(self).state(), r) == probe(old(self).state(), key@, now),
    {
        if !self.route_is_current(key.route_id.as_str(), &key.config_identity)
            || self.is_backing_off(key, now) {
            return None;
        }
        if self.supported.has(key) {
            return Some(None);
        }
        if self.probing.has(key) {
            return None;
        }
        let generation: u64 = if self.next_generation == u64::MAX {
            0
        } else {
            self.next_generation + 1
        };
        self.next_generation = generation;
        self.probing.insert(key, Ticket { number: generation });
        Some(Some(generation))
    }

    /// Gives the leave back.
    pub fn release_probe(&mut self, key: &UpstreamWebSocketBackoffKey, ticket: Option<u64>)
        requires
            old(self).inv(),
        ensures
            final(self).inv(),
            final(self).state() == probed(old(self).state(), key@, ticket),
    {
        if let Some(g) = ticket {
            let held = match self.probing.get(key) {
                Some(t) => t.number == g,
                None => false,
            };
            if held {
                let _ = self.probing.remove(key);
            }
        }
    }
}

/// While an upstream is tried, nobody else tries it; once it has been given back, it is free again.
pub proof fn one_probe_at_a_time(b: BackoffsV, key: BackoffKeyV, now: u64, later_on: u64)
    requires
        probe(b, key, now).1 matches Some(t) && t is Some,
    ensures
        probe(probe(b, key, now).0, key, later_on).1 is None,
        lookup(probed(probe(b, key, now).0, key, probe(b, key, now).1->0).probing, key) is None,
{
    let g = next_number(b.generation);
    set_then_look(b.probing, key, g, key);
    remove_then_look(with_key(b.probing, key, g), key, key);
}

/// After a failure that was not during a pause, the upstream is left alone for as long as was said,
/// unless its entry had to be given up for others.
pub proof fn a_failure_is_followed_by_a_pause(b: BackoffsV, key: BackoffKeyV, now: u64, at: u64)
    requires
        is_current(b.routes, key.route_id, key.config_identity),
        !backing_off(b.entries, key, now),
        b.entries.len() < MAX_UPSTREAM_WEBSOCKET_BACKOFFS,
        now <= at < later(now, failed(b, key, now).1.1),
    ensures
        backing_off(failed(b, key, now).0.entries, key, at),
        probe(failed(b, key, now).0, key, at).1 is None,
{
    let n = failures_with(b.entries, key, now);
    let g = next_number(b.generation);
    let e = UpstreamWebSocketBackoff {
        failure_count: n,
        until: later(now, pause_after(n)),
        unsupported: false,
        generation: g,
    };
    set_then_look(b.entries, key, e, key);
}

/// The routes with sockets of a route table.
pub open spec fn socket_routes(routes: Seq<(Seq<char>, RouteTargetV)>, n: int) -> Seq<
    (Seq<char>, Seq<u8>),
>
    decreases n,
{
    if n <= 0 {
        Seq::empty()
    } else {
        let rest = socket_routes(routes, n - 1);
        let (id, t) = routes[n - 1];
        if t.supports_websockets {
            with_key(rest, id, t.websocket_config)
        } else {
            rest
        }
    }
}

/// Two tables say the same of every route.
pub open spec fn same_routes(a: Seq<(Seq<char>, Seq<u8>)>, b: Seq<(Seq<char>, Seq<u8>)>) -> bool {
    forall|id: Seq<char>| #[trigger] lookup(a, id) == lookup(b, id)
}

fn contains_routes(a: &TextMap<Fingerprint>, b: &TextMap<Fingerprint>) -> (r: bool)
    requires
        a.inv(),
        b.inv(),
    ensures
        r == forall|id: Seq<char>| #[trigger]
            lookup(a@, id) is Some ==> lookup(b@, id) == lookup(a@, id),
{
    let mut i: usize = 0;
    while i < a.len()
        invariant
            i <= a@.len(),
            a.inv(),
            b.inv(),
            forall|j: int|
                0 <= j < i ==> lookup(b@, (#[trigger] a@[j]).0) == Some(a@[j].1),
        decreases a@.len() - i,
    {
        proof {
            lookup_at(a@, i as int);
        }
        let same = match b.get(a.key_at(i)) {
            Some(v) => v.same(a.value_at(i)),
            None => false,
        };
        if !same {
            proof {
                assert(lookup(a@, a@[i as int].0) is Some);
            }
            return false;
        }
        i = i + 1;
    }
    proof {
        assert forall|id: Seq<char>| #[trigger] lookup(a@, id) is Some implies lookup(b@, id)
            == lookup(a@, id) by {
            lookup_place(a@, id);
            let j = choose|j: int| 0 <= j < a@.len() && (#[trigger] a@[j]).0 == id;
            lookup_at(a@, j);
        }
    }
    true
}

/// The keys whose routes still have the settings that they were made with.
pub open spec fn current_only<V>(pairs: Seq<(BackoffKeyV, V)>, routes: Seq<(Seq<char>, Seq<u8>)>) -> Seq<
    (BackoffKeyV, V),
> {
    kept_keys(
        pairs,
        |k: BackoffKeyV| lookup(routes, k.route_id) == Some(k.config_identity),
    )
}

/// The routes have changed: what is known of sockets that no longer exist is forgotten.
pub open spec fn rerouted(b: BackoffsV, routes: Seq<(Seq<char>, Seq<u8>)>) -> BackoffsV {
    if b.routes matches Some(known) && same_routes(known, routes) {
        b
    } else {
        BackoffsV {
            entries: current_only(b.entries, routes),
            order: current_only(b.order, routes),
            routes: Some(routes),
            changes: next_number(b.changes),
            probing: current_only(b.probing, routes),
            supported: current_only(b.supported, routes),
            ..b
        }
    }
}

fn key_is_current(routes: &TextMap<Fingerprint>, key: &UpstreamWebSocketBackoffKey) -> (r: bool)
    requires
        routes.inv(),
    ensures
        r == (lookup(routes@, key@.route_id) == Some(key@.config_identity)),
{
    match routes.get(key.route_id.as_str()) {
        Some(known) => known.same(&key.config_identity),
        None => false,
    }
}

proof fn lemma_kept_distinct<V>(pairs: Seq<(BackoffKeyV, V)>, keep: spec_fn(BackoffKeyV) -> bool)
    requires
        distinct(pairs),
    ensures
        forall|key: BackoffKeyV| lookup(pairs, key) is None ==> #[trigger] lookup(
            kept_keys(pairs, keep),
            key,
        ) is None,
    decreases pairs.len(),
{
    if pairs.len() > 0 {
        let rest = pairs.drop_last();
        assert(distinct(rest)) by {
            assert forall|a: int, b: int| 0 <= a < b < rest.len() implies (#[trigger] rest[a]).0
                != (#[trigger] rest[b]).0 by {
                assert(pairs[a].0 != pairs[b].0);
            }
        }
        lemma_kept_distinct(rest, keep);
        let after = kept_keys(pairs, keep);
        assert forall|key: BackoffKeyV| lookup(pairs, key) is None implies #[trigger] lookup(
            after,
            key,
        ) is None by {
            assert(lookup(rest, key) is None);
            assert(lookup(kept_keys(rest, keep), key) is None);
            if keep(pairs.last().0) {
                assert(after.drop_last() =~= kept_keys(rest, keep));
            }
        }
    }
}

fn keep_current<T: View + Copy>(
    map: &KeyMap<UpstreamWebSocketBackoffKey, T>,
    routes: &TextMap<Fingerprint>,
) -> (r: KeyMap<UpstreamWebSocketBackoffKey, T>)
    requires
        map.inv(),
        routes.inv(),
    ensures
        r.inv(),
        r@ == current_only(map@, routes@),
{
    let ghost all = map@;
    let ghost keep = |k: BackoffKeyV| lookup(routes@, k.route_id) == Some(k.config_identity);
    let mut out: KeyMap<UpstreamWebSocketBackoffKey, T> = KeyMap::new();
    let mut i: usize = 0;
    proof {
        assert(out@ =~= kept_keys(all.subrange(0, 0), keep));
    }
    while i < map.len()
        invariant
            i <= all.len(),
            all == map@,
            map.inv(),
            routes.inv(),
            out.inv(),
            keep == (|k: BackoffKeyV| lookup(routes@, k.route_id) == Some(k.config_identity)),
            out@ == kept_keys(all.subrange(0, i as int), keep),
        decreases all.len() - i,
    {
        proof {
            lemma_next_is_new(all, i as int, keep);
        }
        let key = map.key_at(i);
        if key_is_current(routes, key) {
            proof {
                lemma_with_key_absent(out@, key@, all[i as int].1);
            }
            out.insert(key, *map.value_at(i));
        }
        i = i + 1;
    }
    proof {
        assert(all.subrange(0, i as int) =~= all);
    }
    out
}

proof fn lemma_next_is_new<V>(pairs: Seq<(BackoffKeyV, V)>, i: int, keep: spec_fn(BackoffKeyV) -> bool)
    requires
        distinct(pairs),
        0 <= i < pairs.len(),
    ensures
        pairs.subrange(0, i + 1).drop_last() == pairs.subrange(0, i),
        pairs.subrange(0, i + 1).last() == pairs[i],
        lookup(kept_keys(pairs.subrange(0, i), keep), pairs[i].0) is None,
{
    let before = pairs.subrange(0, i);
    assert(pairs.subrange(0, i + 1).drop_last() =~= before);
    assert(distinct(before)) by {
        assert forall|a: int, b: int| 0 <= a < b < before.len() implies (#[trigger] before[a]).0
            != (#[trigger] before[b]).0 by {
            assert(pairs[a].0 != pairs[b].0);
        }
    }
    assert forall|j: int| 0 <= j < before.len() implies (#[trigger] before[j]).0
        != pairs[i].0 by {
        assert(pairs[j].0 != pairs[i].0);
    }
    lemma_absent(before, pairs[i].0);
    lemma_kept_distinct(before, keep);
}

fn keep_current_order(
    order: &VecDeque<(UpstreamWebSocketBackoffKey, u64)>,
    routes: &TextMap<Fingerprint>,
) -> (r: VecDeque<(UpstreamWebSocketBackoffKey, u64)>)
    requires
        routes.inv(),
    ensures
        queue_view(r@) == current_only(queue_view(order@), routes@),
{
    let ghost all = queue_view(order@);
    let ghost keep = |k: BackoffKeyV| lookup(routes@, k.route_id) == Some(k.config_identity);
    let mut out: VecDeque<(UpstreamWebSocketBackoffKey, u64)> = VecDeque::new();
    let mut i: usize = 0;
    proof {
        assert(queue_view(out@) =~= kept_keys(all.subrange(0, 0), keep));
    }
    while i < order.len()
        invariant
            i <= all.len(),
            all == queue_view(order@),
            routes.inv(),
            keep == (|k: BackoffKeyV| lookup(routes@, k.route_id) == Some(k.config_identity)),
            queue_view(out@) == kept_keys(all.subrange(0, i as int), keep),
        decreases all.len() - i,
    {
        proof {
            assert(all.subrange(0, i + 1).drop_last() =~= all.subrange(0, i as int));
            assert(all.subrange(0, i + 1).last() == all[i as int]);
        }
        let item = &order[i];
        if key_is_current(routes, &item.0) {
            let ghost before = out@;
            out.push_back((item.0.copy(), item.1));
            proof {
                assert(queue_view(out@) =~= queue_view(before).push(all[i as int]));
            }
        }
        i = i + 1;
    }
    proof {
        assert(all.subrange(0, i as int) =~= all);
    }
    out
}

/// The routes with sockets of a route table.
pub fn routes_with_sockets(snapshot: &RouterSnapshot) -> (r: TextMap<Fingerprint>)
    ensures
        r.inv(),
        r@ == socket_routes(snapshot.routes@, snapshot.routes@.len() as int),
{
    let mut out: TextMap<Fingerprint> = TextMap::new();
    let mut i: usize = 0;
    while i < snapshot.routes.len()
        invariant
            i <= snapshot.routes@.len(),
            out.inv(),
            out@ == socket_routes(snapshot.routes@, i as int),
        decreases snapshot.routes@.len() - i,
    {
        let t = snapshot.routes.value_at(i);
        if t.supports_websockets {
            out.insert(snapshot.routes.key_at(i), t.websocket_config.copy());
        }
        i = i + 1;
    }
    out
}

impl UpstreamWebSocketBackoffs {
    /// Takes in the routes of a new table.
    pub fn update_routes(&mut self, snapshot: &RouterSnapshot)
        requires
            old(self).inv(),
        ensures
            final(self).inv(),
            final(self).state() == rerouted(
                old(self).state(),
                socket_routes(snapshot.routes@, snapshot.routes@.len() as int),
            ),
    {
        let routes = routes_with_sockets(snapshot);
        let unchanged = match &self.routes {
            Some(known) => contains_routes(known, &routes) && contains_routes(&routes, known),
            None => false,
        };
        proof {
            if let Some(known) = &self.routes {
                let a = known@;
                let b = routes@;
                if unchanged {
                    assert forall|id: Seq<char>| #[trigger] lookup(a, id) == lookup(b, id) by {
                        if lookup(a, id) is None && lookup(b, id) is Some {
                            assert(lookup(a, id) == lookup(b, id));
                        }
                    }
                }
                if same_routes(a, b) {
                    assert(unchanged);
                }
            }
        }
        if unchanged {
            return ;
        }
        self.entries = keep_current(&self.entries, &routes);
        self.order = keep_current_order(&self.order, &routes);
        self.probing = keep_current(&self.probing, &routes);
        self.supported = keep_current(&self.supported, &routes);
        self.routes = Some(routes);
        self.changes = if self.changes == u64::MAX {
            0
        } else {
            self.changes + 1
        };
    }
}

proof fn lemma_entered(
    b: BackoffsV,
    key: BackoffKeyV,
    failure_count: u32,
    until: u64,
    unsupported: bool,
    other: BackoffKeyV,
)
    requires
        b.entries.len() < MAX_UPSTREAM_WEBSOCKET_BACKOFFS,
    ensures
        ({
            let after = entered(b, key, failure_count, until, unsupported);
            &&& lookup(after.entries, key) matches Some(e) && e.failure_count == failure_count
                && e.until == until && e.unsupported == unsupported
            &&& other != key ==> lookup(after.entries, other) == lookup(b.entries, other)
            &&& after.routes == b.routes
            &&& after.supported == b.supported
        }),
{
    let e = UpstreamWebSocketBackoff {
        failure_count,
        until,
        unsupported,
        generation: next_number(b.generation),
    };
    set_then_look(b.entries, key, e, key);
    set_then_look(b.entries, key, e, other);
}

/// The first failure of an upstream is followed by a pause of five seconds. A failure during a pause
/// belongs to the same outage: it counts for nothing and does not make the pause longer.
pub proof fn a_first_failure_pauses_briefly(b: BackoffsV, key: BackoffKeyV, now: u64, at: u64)
    requires
        is_current(b.routes, key.route_id, key.config_identity),
        lookup(b.entries, key) is None,
        b.entries.len() < MAX_UPSTREAM_WEBSOCKET_BACKOFFS,
        now + 5_000 <= u64::MAX,
        now <= at < now + 5_000,
    ensures
        failed(b, key, now).1 == (1u32, 5_000u64),
        failed(failed(b, key, now).0, key, at).1 == (1u32, (now + 5_000 - at) as u64),
        lookup(failed(failed(b, key, now).0, key, at).0.entries, key) == lookup(
            failed(b, key, now).0.entries,
            key,
        ),
{
    let doubted = BackoffsV { supported: without_key(b.supported, key), ..b };
    lemma_entered(doubted, key, 1, later(now, 5_000), false, key);
}

/// The next failure, once the pause is over and not long past, is one more, and its pause is longer:
/// fifteen seconds, thirty, and then always sixty. Long after the pause it counts as the first.
pub proof fn a_further_failure_pauses_longer(b: BackoffsV, key: BackoffKeyV, now: u64, at: u64)
    requires
        is_current(b.routes, key.route_id, key.config_identity),
        !backing_off(b.entries, key, now),
        b.entries.len() < MAX_UPSTREAM_WEBSOCKET_BACKOFFS,
        failed(b, key, now).1.0 < u32::MAX,
        now + 120_000 <= u64::MAX,
        now + failed(b, key, now).1.1 <= at,
    ensures
        ({
            let (after, (count, pause)) = failed(b, key, now);
            let (_, (next, next_pause)) = failed(after, key, at);
            let soon = at <= now + pause + 60_000;
            &&& soon ==> next == count + 1 && next_pause >= pause
            &&& soon && count == 1 ==> next_pause == 15_000
            &&& soon && count == 2 ==> next_pause == 30_000
            &&& soon && count >= 3 ==> next_pause == 60_000
            &&& !soon ==> next == 1 && next_pause == 5_000
        }),
{
    let doubted = BackoffsV { supported: without_key(b.supported, key), ..b };
    let n = failures_with(b.entries, key, now);
    lemma_entered(doubted, key, n, later(now, pause_after(n)), false, key);
}

/// A socket that was opened ends every pause of its upstream, and the upstream is known to have sockets:
/// anyone may open one at once.
pub proof fn a_success_ends_the_pause(b: BackoffsV, key: BackoffKeyV, now: u64)
    requires
        is_current(b.routes, key.route_id, key.config_identity),
    ensures
        !backing_off(succeeded(b, key).entries, key, now),
        probe(succeeded(b, key), key, now).1 == Some(None::<u64>),
{
    remove_then_look(b.entries, key, key);
    let known = if b.supported.len() >= MAX_UPSTREAM_WEBSOCKET_BACKOFFS {
        Seq::empty()
    } else {
        b.supported
    };
    set_then_look(known, key, 0u64, key);
}

/// An upstream without sockets is left alone until it may have changed, and a failure then counts as
/// the first.
pub proof fn an_upstream_without_sockets_is_left_alone(
    b: BackoffsV,
    key: BackoffKeyV,
    now: u64,
    at: u64,
)
    requires
        is_current(b.routes, key.route_id, key.config_identity),
        b.entries.len() < MAX_UPSTREAM_WEBSOCKET_BACKOFFS,
        now <= at,
    ensures
        at < later(now, UPSTREAM_WEBSOCKET_UNSUPPORTED_TTL) ==> probe(refused(b, key, now), key, at).1 is None,
        at >= later(now, UPSTREAM_WEBSOCKET_UNSUPPORTED_TTL) ==> failed(
            refused(b, key, now),
            key,
            at,
        ).1 == (1u32, 5_000u64),
{
    let doubted = BackoffsV { supported: without_key(b.supported, key), ..b };
    lemma_entered(doubted, key, 0, later(now, UPSTREAM_WEBSOCKET_UNSUPPORTED_TTL), true, key);
}

/// What happens to one upstream is nothing to another.
pub proof fn other_upstreams_are_not_touched(
    b: BackoffsV,
    key: BackoffKeyV,
    other: BackoffKeyV,
    now: u64,
    at: u64,
)
    requires
        other != key,
        b.entries.len() < MAX_UPSTREAM_WEBSOCKET_BACKOFFS,
    ensures
        backing_off(failed(b, key, now).0.entries, other, at) == backing_off(b.entries, other, at),
        backing_off(refused(b, key, now).entries, other, at) == backing_off(b.entries, other, at),
        backing_off(succeeded(b, key).entries, other, at) == backing_off(b.entries, other, at),
{
    let doubted = BackoffsV { supported: without_key(b.supported, key), ..b };
    let n = failures_with(b.entries, key, now);
    lemma_entered(doubted, key, n, later(now, pause_after(n)), false, other);
    lemma_entered(doubted, key, 0, later(now, UPSTREAM_WEBSOCKET_UNSUPPORTED_TTL), true, other);
    remove_then_look(b.entries, key, other);
}

/// A route that has changed is not tried under its old settings.
pub proof fn old_settings_are_not_tried(b: BackoffsV, key: BackoffKeyV, now: u64)
    requires
        b.routes is Some,
        lookup(b.routes->0, key.route_id) != Some(key.config_identity),
    ensures
        probe(b, key, now).1 is None,
        failed(b, key, now).0.entries == b.entries,
        refused(b, key, now).entries == b.entries,
{
}

proof fn lemma_kept_keys<V>(
    pairs: Seq<(BackoffKeyV, V)>,
    keep: spec_fn(BackoffKeyV) -> bool,
    key: BackoffKeyV,
)
    ensures
        lookup(kept_keys(pairs, keep), key) == if keep(key) {
            lookup(pairs, key)
        } else {
            None
        },
    decreases pairs.len(),
{
    if pairs.len() > 0 {
        let rest = pairs.drop_last();
        lemma_kept_keys(rest, keep, key);
        if keep(pairs.last().0) {
            let after = kept_keys(pairs, keep);
            assert(after.drop_last() =~= kept_keys(rest, keep));
            assert(after.last() == pairs.last());
        }
    }
}

/// When the routes change, what is known of a socket is kept exactly where its route still has the
/// settings that the socket was made with; every other socket is forgotten.
pub proof fn changed_routes_are_forgotten(
    b: BackoffsV,
    routes: Seq<(Seq<char>, Seq<u8>)>,
    key: BackoffKeyV,
)
    requires
        !(b.routes is Some && same_routes(b.routes->0, routes)),
    ensures
        ({
            let after = rerouted(b, routes);
            let kept = lookup(routes, key.route_id) == Some(key.config_identity);
            &&& after.routes == Some(routes)
            &&& kept ==> lookup(after.entries, key) == lookup(b.entries, key) && lookup(
                after.supported,
                key,
            ) == lookup(b.supported, key) && lookup(after.probing, key) == lookup(b.probing, key)
            &&& !kept ==> lookup(after.entries, key) is None && lookup(after.supported, key) is None
                && lookup(after.probing, key) is None
            &&& after.changes != b.changes
        }),
{
    let keep = |k: BackoffKeyV| lookup(routes, k.route_id) == Some(k.config_identity);
    lemma_kept_keys(b.entries, keep, key);
    lemma_kept_keys(b.supported, keep, key);
    lemma_kept_keys(b.probing, keep, key);
}

/// Routes that say the same as before change nothing.
pub proof fn the_same_routes_change_nothing(b: BackoffsV, routes: Seq<(Seq<char>, Seq<u8>)>)
    requires
        b.routes is Some,
        same_routes(b.routes->0, routes),
    ensures
        rerouted(b, routes) == b,
{
}

} // verus!
