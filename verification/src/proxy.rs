//! The decisions of the proxy: which connections are decrypted and which are passed on, where
//! each one goes, and what is sent ahead.

use crate::authority;
use crate::fields;
use crate::head;
use crate::hosts;
use crate::hosts::{HostSet, RouteTable};
use crate::text;
use crate::text::CharClass;
use vstd::prelude::*;
use vstd::slice::slice_subrange;
use vstd::string::StringExecFns;

verus! {

/// Traffic so far, in bytes.
#[derive(Debug)]
pub struct ProxyStats {
    pub up: u64,
    pub down: u64,
}

impl Default for ProxyStats {
    fn default() -> (r: ProxyStats)
        ensures
            r.up == 0,
            r.down == 0,
    {
        ProxyStats { up: 0, down: 0 }
    }
}

/// A counter after `moved` more bytes; it wraps round.
pub open spec fn counted(counter: u64, moved: u64) -> int {
    (counter + moved) % 0x1_0000_0000_0000_0000
}

impl ProxyStats {
    /// The bytes uploaded and downloaded.
    pub fn total(&self) -> (r: (u64, u64))
        ensures
            r == (self.up, self.down),
    {
        (self.up, self.down)
    }

    /// Counts what went from a client to its upstream, whether or not the relay then failed.
    pub fn add_up(&mut self, moved: u64)
        ensures
            final(self).up == counted(old(self).up, moved),
            final(self).down == old(self).down,
    {
        self.up = self.up.wrapping_add(moved);
    }

    /// Counts what went from an upstream to its client, whether or not the relay then failed.
    pub fn add_down(&mut self, moved: u64)
        ensures
            final(self).down == counted(old(self).down, moved),
            final(self).up == old(self).up,
    {
        self.down = self.down.wrapping_add(moved);
    }
}

/// What a finished relay reports: the bytes counted between two readings of the totals, or
/// nothing where none were.
pub fn relay_report(before: (u64, u64), after: (u64, u64)) -> (r: Option<(u64, u64)>)
    requires
        before.0 <= after.0,
        before.1 <= after.1,
    ensures
        r == (if before == after {
            None
        } else {
            Some(((after.0 - before.0) as u64, (after.1 - before.1) as u64))
        }),
{
    let up: u64 = after.0 - before.0;
    let down: u64 = after.1 - before.1;
    if up > 0 || down > 0 {
        Some((up, down))
    } else {
        None
    }
}

/// What the proxy is set up with.
#[derive(Debug)]
pub struct ProxyConfig {
    pub port: u16,
    /// The hosts whose traffic is decrypted, in lower case and without ports.
    pub hosts: HostSet,
    /// For some hosts, the `host:port` that tunnels and plain requests are sent to in their place.
    /// Decrypted traffic does not follow routes: it goes to the host itself.
    pub routes: RouteTable,
}

impl Clone for ProxyConfig {
    fn clone(&self) -> (r: ProxyConfig)
        ensures
            r.port == self.port,
            r.hosts@ == self.hosts@,
            r.routes@ == self.routes@,
    {
        ProxyConfig { port: self.port, hosts: self.hosts.clone(), routes: self.routes.clone() }
    }
}

/// The proxy. `ca` and `stats` are its handles on the certificate authority and on the traffic
/// counters, which it shares with the rest of the program; its decisions rest on `cfg` alone.
pub struct Proxy<C, S> {
    pub cfg: ProxyConfig,
    pub ca: C,
    pub stats: S,
}

/// What a client is told once its tunnel is open.
pub const CONNECT_ESTABLISHED: &'static str = "HTTP/1.1 200 Connection Established\r\n\r\n";

/// The port of a tunnel that names none.
pub const TUNNEL_PORT: u16 = 443;

/// The port, or `default` where there is none.
pub open spec fn port_or(port: Option<u16>, default: u16) -> u16 {
    match port {
        Some(p) => p,
        None => default,
    }
}

/// Where a connection to `host` goes: to the target of its route, at the default port if that
/// names none, or to the host itself.
pub open spec fn upstream(
    routes: Map<Seq<char>, Seq<char>>,
    host: Seq<char>,
    default_port: u16,
) -> (Seq<char>, u16) {
    if routes.contains_key(host) {
        let (h, p) = authority::host_port(routes[host]);
        (h, port_or(p, default_port))
    } else {
        (host, default_port)
    }
}

/// How a tunnel is served.
#[derive(Debug)]
pub enum ConnectRoute {
    /// Decrypted, and sent on over the shared upstream connection of its host.
    Mitm,
    /// Passed through as it is.
    Tunnel { host: String, port: u16 },
}

/// What becomes of a `CONNECT` request.
#[derive(Debug)]
pub struct ConnectPlan {
    /// The canonical name of the host asked for.
    pub host: String,
    /// The port asked for.
    pub port: u16,
    pub route: ConnectRoute,
}

/// A `ConnectPlan` as a mathematical value; the upstream is `None` for decrypted tunnels.
pub struct ConnectView {
    pub host: Seq<char>,
    pub port: u16,
    pub upstream: Option<(Seq<char>, u16)>,
}

impl View for ConnectPlan {
    type V = ConnectView;

    open spec fn view(&self) -> ConnectView {
        ConnectView {
            host: self.host@,
            port: self.port,
            upstream: match self.route {
                ConnectRoute::Mitm => None,
                ConnectRoute::Tunnel { host, port } => Some((host@, port)),
            },
        }
    }
}

/// The plan for a tunnel to `target`: hosts that are accelerated are decrypted, all others
/// passed through to their upstream.
pub open spec fn connect_plan(
    hosts: Set<Seq<char>>,
    routes: Map<Seq<char>, Seq<char>>,
    target: Seq<char>,
) -> ConnectView {
    let (asked, p) = authority::host_port(target);
    let host = authority::canonical(asked);
    let port = port_or(p, TUNNEL_PORT);
    ConnectView {
        host,
        port,
        upstream: if hosts::accelerated(hosts, host) {
            None
        } else {
            Some(upstream(routes, host, port))
        },
    }
}

/// The target that the first line of a `CONNECT` request names: its second word.
pub open spec fn connect_target(line: Seq<char>) -> Seq<char> {
    text::word_or(line, 1, ""@)
}

/// The plan is the one that the start of the line gives, wherever that is valid UTF-8 and holds
/// the target with white space behind it: what follows does not matter.
pub open spec fn follows_line_start(
    hosts: Set<Seq<char>>,
    routes: Map<Seq<char>, Seq<char>>,
    line: Seq<u8>,
    plan: ConnectView,
) -> bool {
    forall|k: int|
        0 <= k <= line.len() && #[trigger] vstd::utf8::valid_utf8(line.take(k)) && holds_target(
            vstd::utf8::decode_utf8(line.take(k)),
        ) ==> plan == connect_plan(
            hosts,
            routes,
            connect_target(vstd::utf8::decode_utf8(line.take(k))),
        )
}

/// The text holds a target, with white space behind it or behind what follows it.
pub open spec fn holds_target(s: Seq<char>) -> bool {
    s.len() > 0 && text::is_white_space(s.last()) && text::word_at(s, 1) is Some
}

/// The bytes before the first line feed.
pub open spec fn first_line(head: Seq<u8>) -> Seq<u8> {
    match text::first_occurrence(head, seq![head::LF]) {
        Some(i) => head.take(i),
        None => head,
    }
}

/// What becomes of a request that is not a `CONNECT`.
#[derive(Debug)]
pub struct PlainPlan {
    pub method: String,
    /// The canonical name of the host asked for.
    pub hostname: String,
    /// Where to connect to.
    pub up_host: String,
    pub up_port: u16,
    /// What to send before the rest of the connection is relayed.
    pub bytes: Vec<u8>,
}

/// A `PlainPlan` as a mathematical value.
pub struct PlainView {
    pub method: Seq<char>,
    pub hostname: Seq<char>,
    pub upstream: (Seq<char>, u16),
    pub bytes: Seq<u8>,
}

impl View for PlainPlan {
    type V = PlainView;

    open spec fn view(&self) -> PlainView {
        PlainView {
            method: self.method@,
            hostname: self.hostname@,
            upstream: (self.up_host@, self.up_port),
            bytes: self.bytes@,
        }
    }
}

/// What an optional plan stands for.
pub open spec fn plain_view(plan: Option<PlainPlan>) -> Option<PlainView> {
    match plan {
        Some(p) => Some(p@),
        None => None,
    }
}

/// The default port of a request target.
pub open spec fn scheme_port(target: Seq<char>) -> u16 {
    if text::starts_with(target, "https://"@) {
        443
    } else {
        80
    }
}

/// The method, target and version of a request line, with defaults for what is missing.
pub open spec fn method_of(line: Seq<char>) -> Seq<char> {
    text::word_or(line, 0, "GET"@)
}

/// The target of a request line.
pub open spec fn target_of(line: Seq<char>) -> Seq<char> {
    text::word_or(line, 1, "/"@)
}

/// The version of a request line.
pub open spec fn version_of(line: Seq<char>) -> Seq<char> {
    text::word_or(line, 2, "HTTP/1.1"@)
}

/// A request line with an absolute target in origin-form.
pub open spec fn rewritten_line(line: Seq<char>) -> Seq<char> {
    method_of(line) + seq![' '] + authority::target_path(target_of(line)) + seq![' '] + version_of(
        line,
    )
}

/// What follows the request line in a head, beginning with the end of that line.
pub open spec fn after_request_line(head: Seq<u8>) -> Seq<u8> {
    match text::first_occurrence(head, head::line_end()) {
        Some(i) => head.skip(i),
        None => Seq::empty(),
    }
}

/// What is sent on of a head whose request line reads `line`: with an absolute target, the line
/// in origin-form and a `Host` field for the authority of the target, and all else as it came;
/// with any other target, the head as it came.
pub open spec fn forwarded(line: Seq<char>, head: Seq<u8>) -> Seq<u8> {
    match authority::written_authority(target_of(line)) {
        Some(written) => vstd::utf8::encode_utf8(rewritten_line(line)) + fields::with_host(
            after_request_line(head),
            written,
        ),
        None => head,
    }
}

/// What is sent on of a head whose request line is valid UTF-8.
pub open spec fn sent_head(head: Seq<u8>) -> Seq<u8> {
    forwarded(vstd::utf8::decode_utf8(head::request_line(head)), head)
}

/// The authority that a request names: in its target or, failing that, in a `Host` line.
pub open spec fn request_authority(lines: Seq<Seq<char>>) -> Option<(Seq<char>, Option<u16>)> {
    match authority::target_authority(target_of(lines[0])) {
        Some(a) => Some(a),
        None => authority::header_authority(lines.drop_first()),
    }
}

/// The plan for a request whose head is `head` and reads `content`: it goes to the upstream of
/// the host that it names. A request that names no host has no plan.
pub open spec fn plain_plan(
    routes: Map<Seq<char>, Seq<char>>,
    content: Seq<char>,
    head: Seq<u8>,
) -> Option<PlainView> {
    let lines = text::lines(content);
    let line = lines[0];
    match request_authority(lines) {
        Some((host, port)) => {
            let hostname = authority::canonical(host);
            Some(
                PlainView {
                    method: method_of(line),
                    hostname,
                    upstream: upstream(
                        routes,
                        hostname,
                        port_or(port, scheme_port(target_of(line))),
                    ),
                    bytes: forwarded(line, head),
                },
            )
        },
        None => None,
    }
}

/// The plan is the one that the start of the head gives, wherever that is made of whole lines in
/// valid UTF-8 and names a host: what follows does not matter.
pub open spec fn follows_start(
    routes: Map<Seq<char>, Seq<char>>,
    head: Seq<u8>,
    plan: Option<PlainView>,
) -> bool {
    forall|k: int|
        0 <= k <= head.len() && #[trigger] vstd::utf8::valid_utf8(head.take(k)) && text::ends_line(
            vstd::utf8::decode_utf8(head.take(k)),
        ) && plain_plan(routes, vstd::utf8::decode_utf8(head.take(k)), head) is Some ==> plan
            == plain_plan(routes, vstd::utf8::decode_utf8(head.take(k)), head)
}

/// Whole lines that open a text and name a host give its plan.
proof fn lemma_start_gives_plan(
    routes: Map<Seq<char>, Seq<char>>,
    start: Seq<char>,
    content: Seq<char>,
    head: Seq<u8>,
)
    requires
        text::ends_line(start),
        text::starts_with(content, start),
        plain_plan(routes, start, head) is Some,
    ensures
        plain_plan(routes, content, head) == plain_plan(routes, start, head),
{
    let first = text::lines(start);
    let all = text::lines(content);
    text::lemma_leading_lines(start, content);
    assert(all[0] == first[0]);
    if authority::target_authority(target_of(first[0])) is None {
        let rest = first.drop_first();
        let lines = all.drop_first();
        assert forall|i: int| 0 <= i < rest.len() - 1 implies #[trigger] lines[i] == rest[i] by {
            assert(lines[i] == all[i + 1]);
        }
        authority::lemma_leading_authority(rest, lines);
    }
}

/// Finds what follows the request line in a head.
fn rest_of(head: &[u8]) -> (rest: &[u8])
    ensures
        rest@ == after_request_line(head@),
{
    let end: [u8; 2] = [head::CR, head::LF];
    assert(end@ =~= head::line_end());
    proof {
        text::lemma_first_occurrence(head@, head::line_end());
    }
    match head::find_bytes(head, end.as_slice()) {
        Some(i) => {
            let rest = slice_subrange(head, i, head.len());
            assert(rest@ =~= head@.skip(i as int));
            rest
        },
        None => {
            let rest = slice_subrange(head, 0, 0);
            assert(rest@ =~= Seq::<u8>::empty());
            rest
        },
    }
}

/// What becomes of a connection once its head has been read.
#[derive(Debug)]
pub enum StreamPlan {
    /// It asks for a tunnel.
    Connect(ConnectPlan),
    /// It asks for something else.
    Plain(PlainPlan),
    /// Nothing can be done with it.
    Close,
}

impl<C, S> Proxy<C, S> {
    /// A proxy with the given setup.
    pub fn new(cfg: ProxyConfig, ca: C, stats: S) -> (r: Proxy<C, S>)
        ensures
            r.cfg == cfg,
            r.ca == ca,
            r.stats == stats,
    {
        Proxy { cfg, ca, stats }
    }

    /// The name under which a host is looked up.
    pub fn canonical_host(authority: &str) -> (r: String)
        ensures
            r@ == authority::canonical(authority@),
    {
        authority::normalize_host(authority)
    }

    /// Where a connection to `host` goes.
    pub fn upstream_for(&self, host: &str, default_port: u16) -> (r: (String, u16))
        ensures
            (r.0@, r.1) == upstream(self.cfg.routes@, host@, default_port),
    {
        if let Some(route) = self.cfg.routes.get(host) {
            let (h, p) = authority::split_host_port(route.as_str(), default_port);
            return (
                h,
                match p {
                    Some(port) => port,
                    None => default_port,
                },
            );
        }
        (host.to_owned(), default_port)
    }

    /// Whether `host` is one of the accelerated hosts or a subdomain of one.
    pub fn is_accel_host(&self, host: &str) -> (b: bool)
        ensures
            b == hosts::accelerated(self.cfg.hosts@, host@),
    {
        self.cfg.hosts.covers_host(host)
    }

    /// Decides on a `CONNECT` request whose first line is `line`.
    pub fn connect_to(&self, line: &str) -> (r: ConnectPlan)
        ensures
            r@ == connect_plan(self.cfg.hosts@, self.cfg.routes@, connect_target(line@)),
    {
        let cs = text::chars_of(line);
        let target = text::nth_word_or(cs.as_slice(), 1, "");
        let (asked, p) = authority::split_host_port(target.as_str(), TUNNEL_PORT);
        let port: u16 = match p {
            Some(port) => port,
            None => TUNNEL_PORT,
        };
        let host = Proxy::<C, S>::canonical_host(asked.as_str());
        let route = if self.is_accel_host(host.as_str()) {
            ConnectRoute::Mitm
        } else {
            let (up_host, up_port) = self.upstream_for(host.as_str(), port);
            ConnectRoute::Tunnel { host: up_host, port: up_port }
        };
        ConnectPlan { host, port, route }
    }

    /// Decides on a `CONNECT` request.
    pub fn handle_connect(&self, head: &[u8]) -> (r: ConnectPlan)
        ensures
            r@ == connect_plan(
                self.cfg.hosts@,
                self.cfg.routes@,
                connect_target(text::lossy(first_line(head@))),
            ),
            follows_line_start(self.cfg.hosts@, self.cfg.routes@, first_line(head@), r@),
    {
        let feed: [u8; 1] = [head::LF];
        assert(feed@ =~= seq![head::LF]);
        proof {
            text::lemma_first_occurrence(head@, seq![head::LF]);
        }
        let line = match head::find_bytes(head, feed.as_slice()) {
            Some(i) => slice_subrange(head, 0, i),
            None => head,
        };
        assert(line@ =~= first_line(head@));
        let content = text::from_utf8_lossy(line);
        assert forall|k: int|
            0 <= k <= line@.len() && #[trigger] vstd::utf8::valid_utf8(line@.take(k))
                && holds_target(vstd::utf8::decode_utf8(line@.take(k))) implies connect_target(
            content@,
        ) == connect_target(vstd::utf8::decode_utf8(line@.take(k))) by {
            text::lemma_leading_words(vstd::utf8::decode_utf8(line@.take(k)), content@, 1);
        }
        self.connect_to(content.as_str())
    }

    /// Decides on a request other than `CONNECT`, whose head is `head` and reads `content`.
    pub fn forward(&self, content: &str, head: &[u8]) -> (r: Option<PlainPlan>)
        ensures
            plain_view(r) == plain_plan(self.cfg.routes@, content@, head@),
    {
        let cs = text::chars_of(content);
        let lines = text::split_lines(cs.as_slice());
        let ghost all = text::lines(content@);
        assert(all.len() > 0);
        let line = lines[0].as_str();
        assert(line@ == all[0]);
        let rest = slice_subrange(lines.as_slice(), 1, lines.len());
        assert(text::views(rest@) =~= all.drop_first());
        let words = text::chars_of(line);
        let method = text::nth_word_or(words.as_slice(), 0, "GET");
        let target = text::nth_word_or(words.as_slice(), 1, "/");
        let version = text::nth_word_or(words.as_slice(), 2, "HTTP/1.1");
        let in_target = authority::absolute_target_authority(target.as_str());
        let named = match in_target {
            Some(a) => Some(a),
            None => authority::host_from_header(rest),
        };
        let (host, port) = match named {
            Some(a) => a,
            None => return None,
        };
        let hostname = Proxy::<C, S>::canonical_host(host.as_str());
        let target_chars = text::chars_of(target.as_str());
        let secure = text::strip_prefix(target_chars.as_slice(), "https://").is_some();
        let default_port: u16 = if secure {
            443
        } else {
            80
        };
        let p: u16 = match port {
            Some(p) => p,
            None => default_port,
        };
        let (up_host, up_port) = self.upstream_for(hostname.as_str(), p);
        let bytes = match authority::authority_in_target(target.as_str()) {
            Some(written) => {
                let mut new_line = method.clone();
                new_line.push(' ');
                new_line.append(authority::absolute_path(target.as_str()).as_str());
                new_line.push(' ');
                new_line.append(version.as_str());
                assert(new_line@ =~= rewritten_line(line@));
                let mut bytes = vstd::slice::slice_to_vec(new_line.as_str().as_bytes());
                let ghost sent = bytes@;
                let rest = fields::rewrite_host(rest_of(head), written.as_str());
                bytes.extend_from_slice(rest.as_slice());
                assert(bytes@ =~= sent + rest@);
                bytes
            },
            None => vstd::slice::slice_to_vec(head),
        };
        Some(PlainPlan { method, hostname, up_host, up_port, bytes })
    }

    /// Decides on a request other than `CONNECT`.
    pub fn handle_plain(&self, head: &[u8]) -> (r: Option<PlainPlan>)
        ensures
            plain_view(r) == plain_plan(self.cfg.routes@, text::lossy(head@), head@),
            vstd::utf8::valid_utf8(head::request_line(head@)) ==> (r matches Some(plan)
                ==> plan.bytes@ == sent_head(head@)),
            follows_start(self.cfg.routes@, head@, plain_view(r)),
    {
        let content = text::from_utf8_lossy(head);
        proof {
            if vstd::utf8::valid_utf8(head::request_line(head@)) {
                head::lemma_first_line_in_text(head@, content@);
            }
            let routes = self.cfg.routes@;
            assert forall|k: int|
                0 <= k <= head@.len() && #[trigger] vstd::utf8::valid_utf8(head@.take(k))
                    && text::ends_line(vstd::utf8::decode_utf8(head@.take(k))) && plain_plan(
                    routes,
                    vstd::utf8::decode_utf8(head@.take(k)),
                    head@,
                ) is Some implies plain_plan(routes, content@, head@) == plain_plan(
                routes,
                vstd::utf8::decode_utf8(head@.take(k)),
                head@,
            ) by {
                lemma_start_gives_plan(
                    routes,
                    vstd::utf8::decode_utf8(head@.take(k)),
                    content@,
                    head@,
                );
            }
        }
        self.forward(content.as_str(), head)
    }

    /// Decides what becomes of a connection that opens with `head`.
    pub fn handle_stream(&self, head: &[u8]) -> (r: StreamPlan)
        ensures
            match r {
                StreamPlan::Connect(plan) => is_connect(head@)
                    && plan@ == connect_plan(
                    self.cfg.hosts@,
                    self.cfg.routes@,
                    connect_target(text::lossy(first_line(head@))),
                ) && follows_line_start(
                    self.cfg.hosts@,
                    self.cfg.routes@,
                    first_line(head@),
                    plan@,
                ),
                StreamPlan::Plain(plan) => !is_connect(head@)
                    && plain_plan(self.cfg.routes@, text::lossy(head@), head@) == Some(plan@) && (
                vstd::utf8::valid_utf8(head::request_line(head@)) ==> plan.bytes@ == sent_head(
                    head@,
                )) && follows_start(self.cfg.routes@, head@, Some(plan@)),
                StreamPlan::Close => !is_connect(head@)
                    && plain_plan(self.cfg.routes@, text::lossy(head@), head@) is None
                    && follows_start(self.cfg.routes@, head@, None),
            },
    {
        let word = "CONNECT".as_bytes();
        let connect = head::begins_with(head, word) && (head.len() == word.len()
            || head::begins_with_space(slice_subrange(head, word.len(), head.len())));
        assert(connect == is_connect(head@)) by {
            let n = word@.len() as int;
            if n <= head@.len() {
                assert(head@.subrange(n, head@.len() as int) =~= head@.skip(n));
            }
        }
        if connect {
            return StreamPlan::Connect(self.handle_connect(head));
        }
        match self.handle_plain(head) {
            Some(plan) => StreamPlan::Plain(plan),
            None => StreamPlan::Close,
        }
    }
}

/// The bytes of `CONNECT`.
pub open spec fn connect_word() -> Seq<u8> {
    vstd::utf8::encode_utf8("CONNECT"@)
}

/// The method of the request is `CONNECT`: that word opens the head, with white space or nothing
/// behind it.
pub open spec fn is_connect(head: Seq<u8>) -> bool {
    text::starts_with(head, connect_word()) && (head.len() == connect_word().len()
        || head::opens_with_space(head.skip(connect_word().len() as int)))
}

/// A head that opens with text begins with an ASCII word if and only if the text does, and the
/// text behind the word is then what follows it.
proof fn lemma_ascii_start(content: Seq<char>, word: Seq<char>, rest: Seq<u8>)
    requires
        vstd::utf8::is_ascii_chars(word),
        word.len() <= content.len(),
    ensures
        ({
            let head = vstd::utf8::encode_utf8(content) + rest;
            let bytes = vstd::utf8::encode_utf8(word);
            &&& text::starts_with(head, bytes) <==> text::starts_with(content, word)
            &&& text::starts_with(content, word) ==> head.skip(bytes.len() as int)
                == vstd::utf8::encode_utf8(content.skip(word.len() as int)) + rest
        }),
    decreases word.len(),
{
    let head = vstd::utf8::encode_utf8(content) + rest;
    let bytes = vstd::utf8::encode_utf8(word);
    vstd::utf8::is_ascii_chars_encode_utf8(word);
    if word.len() == 0 {
        assert(head.take(0) =~= bytes);
        assert(content.take(0) =~= word);
        assert(head.skip(0) =~= head);
        assert(content.skip(0) =~= content);
    } else {
        let c = content[0];
        let w = word[0];
        let more = content.drop_first();
        let tail = word.drop_first();
        let encoded = vstd::utf8::encode_utf8(content);
        let first = vstd::utf8::encode_scalar(c as u32);
        lemma_ascii_start(more, tail, rest);
        vstd::utf8::is_ascii_chars_encode_utf8(tail);
        vstd::utf8::encode_utf8_first_scalar(content);
        assert(encoded == first + vstd::utf8::encode_utf8(more));
        assert(first.len() > 0 && head[0] == first[0]);
        lemma_first_byte(content);
        let head2 = vstd::utf8::encode_utf8(more) + rest;
        let bytes2 = vstd::utf8::encode_utf8(tail);
        assert(bytes =~= seq![bytes[0]] + bytes2) by {
            assert forall|i: int| 0 < i < bytes.len() implies bytes[i] == bytes2[i - 1] by {
                assert(word[i] as u8 == bytes[i]);
                assert(tail[i - 1] as u8 == bytes2[i - 1]);
            }
        }
        assert(word[0] as u8 == bytes[0]);
        assert('\0' <= word[0] <= '\u{7f}');
        assert(w as u32 == bytes[0]);
        vstd::utf8::char_is_scalar(c);
        vstd::utf8::char_u32_cast(c, c as u32);
        vstd::utf8::char_u32_cast(w, w as u32);
        assert(head[0] == encoded[0]);
        assert(head[0] == bytes[0] <==> c == w);
        if c == w {
            assert(first.len() == 1);
            assert(head =~= seq![bytes[0]] + head2);
            if bytes.len() <= head.len() {
                assert(head.take(bytes.len() as int) =~= seq![bytes[0]] + head2.take(
                    bytes2.len() as int,
                ));
                if head2.take(bytes2.len() as int) != bytes2 {
                    assert(head.take(bytes.len() as int).drop_first() =~= head2.take(
                        bytes2.len() as int,
                    ));
                    assert(bytes.drop_first() =~= bytes2);
                }
            }
            assert(content.take(word.len() as int).drop_first() =~= more.take(tail.len() as int));
            assert(content.take(word.len() as int) =~= seq![c] + more.take(tail.len() as int));
            assert(word =~= seq![w] + tail);
            if text::starts_with(content, word) {
                assert(head.skip(bytes.len() as int) =~= head2.skip(bytes2.len() as int));
            }
            assert(content.skip(word.len() as int) =~= more.skip(tail.len() as int));
        } else {
            if bytes.len() <= head.len() {
                assert(head.take(bytes.len() as int)[0] != bytes[0]);
            }
            assert(content.take(word.len() as int)[0] != word[0]);
        }
    }
}

/// The first byte of text is an ASCII byte exactly where the first character is that character.
proof fn lemma_first_byte(content: Seq<char>)
    requires
        content.len() > 0,
    ensures
        ({
            let b = vstd::utf8::encode_utf8(content)[0];
            let c = content[0];
            &&& vstd::utf8::encode_utf8(content).len() > 0
            &&& b <= 0x7f <==> c as u32 <= 0x7f
            &&& b <= 0x7f ==> c as u32 == b && vstd::utf8::encode_scalar(c as u32).len() == 1
        }),
{
    let encoded = vstd::utf8::encode_utf8(content);
    let c = content[0] as u32;
    vstd::utf8::encode_utf8_first_scalar(content);
    let b = encoded[0];
    assert(b <= 0x7f ==> (b & 0x7f) == b) by (bit_vector);
    assert(c <= 0x7f ==> (c & 0x7f) == c) by (bit_vector);
}

/// A head that opens with text, of which the first character is no white space, asks for a tunnel
/// if and only if the first word of the text is `CONNECT`, whatever white space ends the word and
/// whatever bytes follow the text.
pub proof fn law_method_decides(content: Seq<char>, rest: Seq<u8>)
    requires
        content.len() > 0,
        !text::is_white_space(content[0]),
        text::first_in(content, CharClass::Space) < content.len() || rest.len() == 0,
    ensures
        is_connect(vstd::utf8::encode_utf8(content) + rest) <==> method_of(content) == "CONNECT"@,
{
    let word = "CONNECT"@;
    let head = vstd::utf8::encode_utf8(content) + rest;
    let n = text::first_in(content, CharClass::Space);
    reveal_strlit("CONNECT");
    vstd::utf8::is_ascii_chars_encode_utf8(word);
    text::lemma_first_in(content, CharClass::Space);
    text::lemma_first_in_unique(content, CharClass::NotSpace, 0);
    assert(content.skip(0) =~= content);
    assert(method_of(content) == content.take(n));
    let bytes = connect_word();
    if content.len() < 7 {
        let part = word.take(content.len() as int);
        let part_bytes = vstd::utf8::encode_utf8(part);
        lemma_ascii_start(content, part, rest);
        vstd::utf8::is_ascii_chars_encode_utf8(part);
        if is_connect(head) {
            assert forall|i: int| 0 <= i < part.len() implies part_bytes[i] == bytes[i] by {
                assert(part[i] as u8 == part_bytes[i]);
                assert(word[i] as u8 == bytes[i]);
            }
            assert(head.take(part_bytes.len() as int) =~= part_bytes) by {
                assert(head.take(7) == bytes);
                assert forall|i: int| 0 <= i < part.len() implies head[i] == bytes[i] by {
                    assert(head.take(7)[i] == bytes[i]);
                }
            }
            assert(content =~= content.take(part.len() as int));
            assert(content == part);
            assert(n == content.len()) by {
                if n < content.len() {
                    assert(content[n] == word[n]);
                }
            }
            assert(false);
        }
    } else {
        lemma_ascii_start(content, word, rest);
        if content.take(n) == word {
            assert(content.take(7) =~= word);
        }
        if text::starts_with(content, word) {
            assert forall|i: int| 0 <= i < 7 implies content[i] == word[i] by {
                assert(content.take(7)[i] == word[i]);
            }
            assert(n >= 7) by {
                if n < 7 {
                    assert(content[n] == word[n]);
                }
            }
            if content.len() == 7 {
                assert(content.skip(7) =~= Seq::<char>::empty());
                assert(content.take(7) =~= word);
                assert(head.skip(7).len() == 0);
            } else {
                let more = content.skip(7);
                let encoded = vstd::utf8::encode_utf8(more);
                vstd::utf8::encode_utf8_first_scalar(more);
                vstd::utf8::char_u32_cast(more[0], more[0] as u32);
                let tail = head.skip(7);
                assert(tail == encoded + rest);
                assert(forall|i: int| 0 <= i < encoded.len() ==> tail[i] == encoded[i]);
                assert(vstd::utf8::valid_first_scalar(tail));
                assert(vstd::utf8::decode_first_scalar(tail) == more[0] as u32);
                assert(more[0] == content[7]);
                if n > 7 {
                    assert(!CharClass::Space.holds(content[7]));
                } else {
                    assert(CharClass::Space.holds(content[7]));
                    assert(content.take(n) =~= word);
                }
            }
        }
    }
}

/// A line of words names as its target the second of them.
pub proof fn law_connect_line_names_its_target(
    method: Seq<char>,
    target: Seq<char>,
    rest: Seq<char>,
)
    requires
        text::is_word(method),
        text::is_word(target),
    ensures
        connect_target(method + seq![' '] + target + seq![' '] + rest) == target,
{
    let tail = seq![' '] + rest;
    let words = seq![' '] + (target + tail);
    assert(method + seq![' '] + target + seq![' '] + rest =~= method + words);
    text::lemma_leading_word(method, words);
    text::lemma_leading_space(target + tail);
    text::lemma_leading_word(target, tail);
}

/// A tunnel is decrypted if and only if the host asked for is accelerated, whatever the port.
/// Any other goes to the upstream of the host at the port asked for, and so to the host itself
/// where it has no route.
pub proof fn law_only_accelerated_tunnels_are_decrypted(
    hosts: Set<Seq<char>>,
    routes: Map<Seq<char>, Seq<char>>,
    host: Seq<char>,
    digits: Seq<char>,
    port: u16,
)
    requires
        text::parsed_u16(digits) == Some(port),
    ensures
        ({
            let plan = connect_plan(hosts, routes, host + seq![':'] + digits);
            let name = authority::canonical(host);
            &&& plan.host == name
            &&& plan.port == port
            &&& plan.upstream is None <==> hosts::accelerated(hosts, name)
            &&& plan.upstream is Some ==> plan.upstream == Some(upstream(routes, name, port))
            &&& plan.upstream is Some && !routes.contains_key(name) ==> plan.upstream == Some(
                (name, port),
            )
        }),
{
    authority::law_host_port_round_trip(host, digits, port);
}

/// A route sends its host to its target: to the port that it names or, where it names none, to
/// the port asked for. It affects no other host.
pub proof fn law_routes_redirect(
    routes: Map<Seq<char>, Seq<char>>,
    host: Seq<char>,
    target: Seq<char>,
    digits: Seq<char>,
    port: u16,
    asked: u16,
    other: Seq<char>,
)
    requires
        text::parsed_u16(digits) == Some(port),
        !target.contains(':'),
        other != host,
    ensures
        upstream(routes.insert(host, target + seq![':'] + digits), host, asked) == (target, port),
        upstream(routes.insert(host, target), host, asked) == (target, asked),
        upstream(routes.insert(host, target), other, asked) == upstream(routes, other, asked),
{
    authority::law_host_port_round_trip(target, digits, port);
    assert forall|i: int| 0 <= i < target.len() implies !CharClass::Is(':').holds(
        #[trigger] target[i],
    ) by {
        assert(target.contains(target[i]));
    }
    text::lemma_last_in(target, CharClass::Is(':'));
}

/// A request whose target is in origin-form already is sent on unchanged, byte for byte.
pub proof fn law_origin_form_is_sent_unchanged(
    routes: Map<Seq<char>, Seq<char>>,
    content: Seq<char>,
    head: Seq<u8>,
)
    requires
        authority::target_authority(target_of(text::lines(content)[0])) is None,
    ensures
        plain_plan(routes, content, head) matches Some(plan) ==> plan.bytes == head,
{
}

/// A request with an absolute target is sent on with a request line of three words: its method,
/// a path that begins with a slash, and its version. The first field then is a `Host` field for
/// the authority that the target writes, and no other field is one; all other fields, and what
/// follows them, are sent on as they came.
pub proof fn law_absolute_form_is_rewritten(
    routes: Map<Seq<char>, Seq<char>>,
    content: Seq<char>,
    head: Seq<u8>,
)
    requires
        authority::target_authority(target_of(text::lines(content)[0])) is Some,
    ensures
        ({
            let line = text::lines(content)[0];
            let sent = rewritten_line(line);
            let written = authority::written_authority(target_of(line))->0;
            let rest = after_request_line(head);
            let new_rest = fields::with_host(rest, written);
            let kept = fields::without_host(fields::field_lines(rest));
            &&& text::word_at(sent, 0) == Some(method_of(line))
            &&& text::word_at(sent, 1) == Some(authority::target_path(target_of(line)))
            &&& authority::target_path(target_of(line))[0] == '/'
            &&& text::word_at(sent, 2) == Some(version_of(line))
            &&& text::word_at(sent, 3) is None
            &&& plain_plan(routes, content, head) matches Some(plan) && plan.bytes
                == vstd::utf8::encode_utf8(sent) + new_rest
            &&& rest.len() > 0 ==> {
                &&& fields::field_lines(new_rest) == seq![fields::host_line(written)] + kept
                &&& fields::after_fields(new_rest) == fields::after_fields(rest)
                &&& fields::is_host_line(fields::host_line(written))
                &&& forall|i: int|
                    0 <= i < kept.len() ==> !fields::is_host_line(#[trigger] kept[i])
            }
        }),
{
    let line = text::lines(content)[0];
    let target = target_of(line);
    let path = authority::target_path(target);
    text::lemma_word_shape(line, 0);
    text::lemma_word_shape(line, 1);
    text::lemma_word_shape(line, 2);
    reveal_strlit("GET");
    reveal_strlit("/");
    reveal_strlit("HTTP/1.1");
    authority::law_path_begins_with_slash(target);
    assert(text::is_word(target));
    let after = authority::after_scheme(target)->0;
    let cut = text::first_in(after, CharClass::EndsAuthority);
    let written = authority::written_authority(target)->0;
    text::lemma_first_in(after, CharClass::EndsAuthority);
    let off = target.len() - after.len();
    assert forall|i: int| 0 <= i < after.len() implies !text::is_white_space(
        #[trigger] after[i],
    ) by {
        assert(after[i] == target[off + i]);
    }
    assert forall|i: int| 0 <= i < path.len() implies !text::is_white_space(#[trigger] path[i]) by {
        let tail = after.skip(cut);
        if path == tail {
            assert(path[i] == after[cut + i]);
        } else if i > 0 {
            assert(path[i] == after[cut + i - 1]);
        }
    }
    assert(text::is_word(path));
    if after_request_line(head).len() > 0 {
        text::lemma_first_occurrence(head, head::line_end());
        let i = text::first_occurrence(head, head::line_end())->0;
        assert(after_request_line(head).take(2) =~= head.subrange(i, i + 2));
        assert forall|i: int| 0 <= i < written.len() implies #[trigger] written[i] != '\r' by {
            assert(!text::is_white_space(after[i]));
        }
        fields::law_host_is_written_anew(after_request_line(head), written);
    }
    let method = method_of(line);
    let version = version_of(line);
    let tail2 = seq![' '] + version;
    let tail1 = seq![' '] + path + seq![' '] + version;
    assert(rewritten_line(line) =~= method + tail1);
    assert(tail1 =~= seq![' '] + (path + tail2));
    text::lemma_leading_word(method, tail1);
    text::lemma_leading_space(path + tail2);
    text::lemma_leading_word(path, tail2);
    text::lemma_leading_space(version);
    assert(version + Seq::<char>::empty() =~= version);
    text::lemma_leading_word(version, Seq::<char>::empty());
    assert(text::word_at(Seq::<char>::empty(), 0) is None);
    assert(text::word_at(tail1, 0) == text::word_at(path + tail2, 0));
    assert(text::word_at(tail1, 1) == text::word_at(path + tail2, 1));
    assert(text::word_at(tail1, 2) == text::word_at(path + tail2, 2));
    assert(text::word_at(path + tail2, 1) == text::word_at(tail2, 0));
    assert(text::word_at(path + tail2, 2) == text::word_at(tail2, 1));
    assert(text::word_at(tail2, 0) == text::word_at(version, 0));
    assert(text::word_at(tail2, 1) == text::word_at(version, 1));
    assert(text::word_at(version, 1) == text::word_at(Seq::<char>::empty(), 0));
}

} // verus!
