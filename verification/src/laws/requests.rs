//! Laws of requests: what the bytes that a client sends come to.

use crate::authority;
use crate::fields;
use crate::head;
use crate::hosts;
use crate::laws::parsing;
use crate::proxy;
use crate::text;
use vstd::prelude::*;
use vstd::utf8::{decode_utf8, encode_utf8, valid_utf8};

verus! {

/// The encoding of two texts, one behind the other, is their encodings, one behind the other.
pub proof fn lemma_encode_concat(a: Seq<char>, b: Seq<char>)
    ensures
        encode_utf8(a + b) == encode_utf8(a) + encode_utf8(b),
    decreases a.len(),
{
    if a.len() == 0 {
        assert(a + b =~= b);
        assert(encode_utf8(a) + encode_utf8(b) =~= encode_utf8(b));
    } else {
        lemma_encode_concat(a.drop_first(), b);
        assert((a + b).drop_first() =~= a.drop_first() + b);
        assert(encode_utf8(a + b) =~= encode_utf8(a) + encode_utf8(b));
    }
}

/// Text without an ASCII character is encoded without its byte.
pub proof fn lemma_no_such_byte(s: Seq<char>, b: u8)
    requires
        b < 0x80,
        forall|i: int| 0 <= i < s.len() ==> #[trigger] s[i] as u32 != b,
    ensures
        forall|i: int| 0 <= i < encode_utf8(s).len() ==> #[trigger] encode_utf8(s)[i] != b,
    decreases s.len(),
{
    if s.len() > 0 {
        let c = s[0] as u32;
        let rest = s.drop_first();
        assert forall|i: int| 0 <= i < rest.len() implies #[trigger] rest[i] as u32 != b by {
            assert(rest[i] == s[i + 1]);
        }
        lemma_no_such_byte(rest, b);
        let first = vstd::utf8::encode_scalar(c);
        assert(c <= 0x7f ==> (c & 0x7f) == c) by (bit_vector);
        assert(0x80u8 | (c & 0x3f) as u8 >= 0x80u8) by (bit_vector);
        assert(0x80u8 | ((c >> 6) & 0x3f) as u8 >= 0x80u8) by (bit_vector);
        assert(0x80u8 | ((c >> 12) & 0x3f) as u8 >= 0x80u8) by (bit_vector);
        assert(0xc0u8 | ((c >> 6) & 0x1f) as u8 >= 0x80u8) by (bit_vector);
        assert(0xe0u8 | ((c >> 12) & 0x0f) as u8 >= 0x80u8) by (bit_vector);
        assert(0xf0u8 | ((c >> 18) & 0x07) as u8 >= 0x80u8) by (bit_vector);
        assert forall|i: int| 0 <= i < first.len() implies #[trigger] first[i] != b by {}
        assert forall|i: int| 0 <= i < encode_utf8(s).len() implies #[trigger] encode_utf8(s)[i]
            != b by {
            if i >= first.len() {
                assert(encode_utf8(s)[i] == encode_utf8(rest)[i - first.len()]);
            } else {
                assert(encode_utf8(s)[i] == first[i]);
            }
        }
    }
}

/// Bytes that encode text are read as that text.
pub proof fn lemma_read_back(s: Seq<char>)
    ensures
        valid_utf8(encode_utf8(s)),
        text::lossy(encode_utf8(s)) == s,
{
    vstd::utf8::encode_utf8_valid_utf8(s);
    vstd::utf8::encode_utf8_decode_utf8(s);
}

/// The first line is everything before the first line feed, at its full length.
pub proof fn law_first_line(head: Seq<u8>)
    ensures
        ({
            let line = proxy::first_line(head);
            &&& line.len() <= head.len()
            &&& line == head.take(line.len() as int)
            &&& forall|i: int| 0 <= i < line.len() ==> #[trigger] line[i] != 10
            &&& line.len() == head.len() || head[line.len() as int] == 10
        }),
{
    let feed = seq![head::LF];
    text::lemma_first_occurrence(head, feed);
    let line = proxy::first_line(head);
    assert(head.take(head.len() as int) =~= head);
    assert forall|i: int| 0 <= i < line.len() implies #[trigger] line[i] != 10 by {
        if line[i] == 10 {
            assert(head.subrange(i, i + 1) =~= feed);
            assert(text::occurs_at(head, feed, i));
        }
    }
    if let Some(i) = text::first_occurrence(head, feed) {
        assert(head.subrange(i, i + 1)[0] == head[i]);
    }
}

/// The request line is everything before the first carriage return with a line feed behind it,
/// at its full length, and what follows it is all the rest. It decides, as text, what is sent on.
pub proof fn law_request_line(head: Seq<u8>)
    ensures
        ({
            let line = head::request_line(head);
            let rest = proxy::after_request_line(head);
            &&& line + rest == head
            &&& proxy::sent_head(head) == proxy::forwarded(vstd::utf8::decode_utf8(line), head)
            &&& rest.len() == 0 || (rest.len() >= 2 && rest[0] == 13 && rest[1] == 10)
            &&& forall|i: int|
                0 <= i < line.len() && i + 1 < head.len() ==> !(#[trigger] head[i] == 13 && head[i
                    + 1] == 10)
        }),
{
    let end = head::line_end();
    text::lemma_first_occurrence(head, end);
    let line = head::request_line(head);
    let rest = proxy::after_request_line(head);
    assert(line + rest =~= head);
    assert forall|i: int| 0 <= i < line.len() && i + 1 < head.len() implies !(#[trigger] head[i]
        == 13 && head[i + 1] == 10) by {
        if head[i] == 13 && head[i + 1] == 10 {
            assert(head.subrange(i, i + 2) =~= end);
            assert(text::occurs_at(head, end, i));
        }
    }
    if let Some(i) = text::first_occurrence(head, end) {
        assert(head.subrange(i, i + 2)[0] == head[i]);
        assert(head.subrange(i, i + 2)[1] == head[i + 1]);
    }
}

/// A request that asks for a tunnel: `CONNECT`, a space, the target, a space, the rest of the
/// line, a line end, and any bytes.
pub open spec fn connect_request(target: Seq<char>, rest: Seq<char>, tail: Seq<u8>) -> Seq<u8> {
    encode_utf8("CONNECT "@ + target + " "@ + rest + "\r\n"@) + tail
}

/// Whatever its length, the target of a request for a tunnel is read off its first line as it
/// stands there.
pub proof fn law_connect_reads_its_target(
    hosts: Set<Seq<char>>,
    routes: Map<Seq<char>, Seq<char>>,
    target: Seq<char>,
    rest: Seq<char>,
    tail: Seq<u8>,
)
    requires
        target.len() > 0,
        forall|i: int| 0 <= i < target.len() ==> !text::is_white_space(#[trigger] target[i]),
        forall|i: int| 0 <= i < rest.len() ==> #[trigger] rest[i] != '\n',
    ensures
        ({
            let head = connect_request(target, rest, tail);
            let asked = proxy::connect_target(text::lossy(proxy::first_line(head)));
            &&& proxy::is_connect(head)
            &&& asked == target
            &&& proxy::connect_plan(hosts, routes, asked) == proxy::connect_plan(
                hosts,
                routes,
                target,
            )
        }),
{
    let head = connect_request(target, rest, tail);
    reveal_strlit("CONNECT ");
    reveal_strlit(" ");
    reveal_strlit("\r\n");
    let line = "CONNECT "@ + target + " "@ + rest + seq!['\r'];
    let bytes = encode_utf8(line);
    let whole = "CONNECT "@ + target + " "@ + rest + "\r\n"@;
    assert(whole =~= line + seq!['\n']);
    lemma_encode_concat(line, seq!['\n']);
    assert(vstd::utf8::is_ascii_chars(seq!['\n']));
    vstd::utf8::is_ascii_chars_encode_utf8(seq!['\n']);
    assert(encode_utf8(seq!['\n']) =~= seq![10u8]) by {
        assert(seq!['\n'][0] as u8 == encode_utf8(seq!['\n'])[0]);
    }
    assert(head =~= bytes + seq![10u8] + tail);
    assert forall|i: int| 0 <= i < line.len() implies #[trigger] line[i] as u32 != 10u8 by {
        vstd::utf8::char_is_scalar(line[i]);
        vstd::utf8::char_u32_cast(line[i], line[i] as u32);
        vstd::utf8::char_u32_cast('\n', '\n' as u32);
        if 8 <= i < 8 + target.len() {
            assert(line[i] == target[i - 8]);
            assert(!text::is_white_space(target[i - 8]));
        } else if 9 + target.len() <= i < 9 + target.len() + rest.len() {
            assert(line[i] == rest[i - 9 - target.len()]);
        }
    }
    lemma_no_such_byte(line, 10);
    law_first_line(head);
    let found = proxy::first_line(head);
    assert(found.len() == bytes.len()) by {
        if found.len() < bytes.len() {
            assert(head[found.len() as int] == bytes[found.len() as int]);
        }
        if found.len() > bytes.len() {
            assert(found[bytes.len() as int] == head[bytes.len() as int]);
        }
    }
    assert(found =~= bytes);
    lemma_read_back(line);
    let word = "CONNECT"@;
    reveal_strlit("CONNECT");
    let after = seq![' '] + rest + seq!['\r'];
    let second = seq![' '] + target + after;
    assert(line =~= Seq::<char>::empty() + word + second);
    parsing::law_words(Seq::empty(), word, second, 0);
    parsing::law_words(seq![' '], target, after, 0);
    parsing::law_missing_words(line);
    assert(text::word_at(line, 1) == Some(target));
    // The method.
    let more = line.skip(7);
    assert(line =~= word + more);
    lemma_encode_concat(word, more);
    vstd::utf8::is_ascii_chars_encode_utf8(word);
    let behind = head.skip(7);
    assert(more[0] == ' ');
    vstd::utf8::encode_utf8_first_scalar(more);
    vstd::utf8::char_u32_cast(' ', ' ' as u32);
    let encoded = encode_utf8(more);
    assert(behind =~= encoded + seq![10u8] + tail);
    assert(forall|i: int| 0 <= i < encoded.len() ==> behind[i] == encoded[i]);
    assert(vstd::utf8::valid_first_scalar(behind));
    assert(vstd::utf8::decode_first_scalar(behind) == ' ' as u32);
    assert(head.take(7) =~= proxy::connect_word());
}

/// `name` is `base`, or ends in a dot and `base`.
pub open spec fn is_or_is_under(name: Seq<char>, base: Seq<char>) -> bool {
    name == base || exists|label: Seq<char>| name == #[trigger] (label + seq!['.'] + base)
}

/// A host is accelerated if and only if it is one of the hosts or ends in a dot and one of them.
pub proof fn law_accelerated(set: Set<Seq<char>>, name: Seq<char>)
    ensures
        hosts::accelerated(set, name) <==> exists|base: Seq<char>|
            #[trigger] set.contains(base) && is_or_is_under(name, base),
{
    if hosts::accelerated(set, name) {
        let base = choose|base: Seq<char>| set.contains(base) && #[trigger] hosts::covers(
            base,
            name,
        );
        assert(set![base].contains(base) && hosts::covers(base, name));
        hosts::law_only_whole_labels_match(base, name);
        assert(set.contains(base) && is_or_is_under(name, base));
    }
    if exists|base: Seq<char>| #[trigger] set.contains(base) && is_or_is_under(name, base) {
        let base = choose|base: Seq<char>|
            #[trigger] set.contains(base) && is_or_is_under(name, base);
        hosts::law_only_whole_labels_match(base, name);
        let b = choose|b: Seq<char>| set![base].contains(b) && #[trigger] hosts::covers(b, name);
        assert(set.contains(b) && hosts::covers(b, name));
    }
}

/// Where a connection goes. Without a route it goes to the host, at the port that was asked for;
/// with one, to the host that the route names, at the port that it names or, where it names none,
/// at the port that was asked for.
pub proof fn law_upstream(
    routes: Map<Seq<char>, Seq<char>>,
    host: Seq<char>,
    asked: u16,
)
    ensures
        !routes.contains_key(host) ==> proxy::upstream(routes, host, asked) == (host, asked),
        routes.contains_key(host) ==> ({
            let (h, p) = authority::host_port(routes[host]);
            proxy::upstream(routes, host, asked) == (h, if p is Some {
                p->0
            } else {
                asked
            })
        }),
{
}

/// What becomes of a request for a tunnel to a host and a port, or to a host alone: the host is
/// looked up in lower case and without dots at its end. The tunnel is decrypted if and only if
/// that name is one of the hosts or under one of them; any other goes to where connections to
/// that name go, at the port asked for or, where none was, at 443.
pub proof fn law_connect_plans(
    set: Set<Seq<char>>,
    routes: Map<Seq<char>, Seq<char>>,
    host: Seq<char>,
    digits: Seq<char>,
    target: Seq<char>,
    port: u16,
)
    requires
        vstd::utf8::is_ascii_chars(host),
        forall|i: int| 0 <= i < host.len() ==> #[trigger] host[i] != ':',
        host.len() > 0 ==> host.last() != '.',
        (target == host && port == 443) || (target == host + seq![':'] + digits
            && parsing::all_digits(digits) && text::parsed_u16(digits) == Some(port)),
    ensures
        ({
            let plan = proxy::connect_plan(set, routes, target);
            let name = plan.host;
            &&& name.len() == host.len()
            &&& forall|i: int|
                0 <= i < host.len() ==> #[trigger] name[i] as int == (if 'A' <= host[i] <= 'Z' {
                    host[i] as int + 32
                } else {
                    host[i] as int
                })
            &&& plan.port == port
            &&& plan.upstream is None <==> exists|base: Seq<char>|
                #[trigger] set.contains(base) && is_or_is_under(name, base)
            &&& plan.upstream matches Some(to) ==> to == proxy::upstream(routes, name, port)
        }),
{
    if target == host {
        parsing::law_host_and_port(host, Seq::empty(), host);
    } else {
        assert forall|i: int| 0 <= i < digits.len() implies #[trigger] digits[i] != ':' by {}
        parsing::law_host_and_port(host, digits, host);
    }
    assert(authority::host_port(target).0 == host);
    let none = Seq::<char>::empty();
    assert(host + none + none =~= host);
    parsing::law_canonical(host, none, none);
    law_accelerated(set, authority::canonical(host));
}

/// What a request names, and where it goes: to the host of its target or, failing that, of its
/// first `Host` line; at the port that is named there or, where none is, at 443 for a target that
/// begins with `https://` and at 80 for any other. Routes apply to the host in its canonical
/// form.
pub proof fn law_plain_requests_go(
    routes: Map<Seq<char>, Seq<char>>,
    content: Seq<char>,
    head: Seq<u8>,
)
    ensures
        ({
            let lines = text::lines(content);
            let target = proxy::target_of(lines[0]);
            let absolute = parsing::begins_http(target) || parsing::begins_https(target);
            let named = if absolute {
                authority::target_authority(target)
            } else {
                authority::header_authority(lines.drop_first())
            };
            let plan = proxy::plain_plan(routes, content, head);
            &&& plan is Some <==> named is Some
            &&& named matches Some((host, port)) ==> ({
                let name = authority::canonical(host);
                let asked = if port is Some {
                    port->0
                } else if parsing::begins_https(target) {
                    443u16
                } else {
                    80u16
                };
                &&& plan->0.hostname == name
                &&& plan->0.method == proxy::method_of(lines[0])
                &&& plan->0.upstream == proxy::upstream(routes, name, asked)
                &&& !routes.contains_key(name) ==> plan->0.upstream == (name, asked)
                &&& plan->0.bytes == proxy::forwarded(lines[0], head)
                &&& !absolute ==> plan->0.bytes == head
            })
        }),
{
    let lines = text::lines(content);
    let target = proxy::target_of(lines[0]);
    reveal_strlit("http://");
    reveal_strlit("https://");
    if !parsing::begins_http(target) && !parsing::begins_https(target) {
        parsing::law_other_targets(target);
    }
}

/// A request in origin-form, with a `Host` line somewhere among its lines.
pub open spec fn plain_request(
    method: Seq<char>,
    target: Seq<char>,
    version: Seq<char>,
    host: Seq<char>,
    rest: Seq<char>,
) -> Seq<char> {
    method + " "@ + target + " "@ + version + "\r\n"@ + "Host: "@ + host + "\r\n"@ + rest
}

/// A request in origin-form whose `Host` line names a host alone goes to that host, in lower
/// case, at port 80, and is sent on as it came.
pub proof fn law_origin_form_goes_to_port_80(
    routes: Map<Seq<char>, Seq<char>>,
    method: Seq<char>,
    target: Seq<char>,
    version: Seq<char>,
    host: Seq<char>,
    rest: Seq<char>,
    head: Seq<u8>,
)
    requires
        text::is_word(method),
        text::is_word(target),
        text::is_word(version),
        !parsing::begins_http(target),
        !parsing::begins_https(target),
        text::is_word(host),
        vstd::utf8::is_ascii_chars(host),
        forall|i: int| 0 <= i < host.len() ==> #[trigger] host[i] != ':',
        host.last() != '.',
        !routes.contains_key(text::ascii_lowered(host)),
    ensures
        proxy::plain_plan(
            routes,
            plain_request(method, target, version, host, rest),
            head,
        ) matches Some(plan) && plan.method == method && plan.hostname == text::ascii_lowered(host)
            && plan.upstream == (text::ascii_lowered(host), 80u16) && plan.bytes == head,
{
    let content = plain_request(method, target, version, host, rest);
    reveal_strlit(" ");
    reveal_strlit("\r\n");
    reveal_strlit("Host: ");
    let none = Seq::<char>::empty();
    let line = method + seq![' '] + target + seq![' '] + version;
    let field = "Host: "@ + host;
    let t1 = seq![' '] + target + seq![' '] + version;
    let t2 = seq![' '] + version;
    assert(line =~= none + method + t1);
    assert(t1 =~= seq![' '] + target + t2);
    parsing::law_words(none, method, t1, 0);
    parsing::law_words(none, method, t1, 1);
    parsing::law_words(seq![' '], target, t2, 0);
    parsing::law_words(seq![' '], target, t2, 1);
    assert(t2 =~= seq![' '] + version + none);
    parsing::law_words(seq![' '], version, none, 0);
    parsing::law_missing_words(line);
    assert forall|i: int| 0 <= i < line.len() implies #[trigger] line[i] != '\r' by {
        if i < method.len() {
            assert(line[i] == method[i]);
        } else if method.len() < i < method.len() + 1 + target.len() {
            assert(line[i] == target[i - method.len() - 1]);
        } else if i > method.len() + 1 + target.len() {
            assert(line[i] == version[i - method.len() - target.len() - 2]);
        }
    }
    assert forall|i: int| 0 <= i < field.len() implies #[trigger] field[i] != '\r' by {
        if i >= 6 {
            assert(field[i] == host[i - 6]);
        }
    }
    let behind = field + seq!['\r', '\n'] + rest;
    assert(content =~= line + seq!['\r', '\n'] + behind);
    parsing::law_lines(line, behind);
    parsing::law_lines(field, rest);
    let lines = text::lines(content);
    let after = text::lines(rest);
    assert(lines =~= seq![line, field] + after);
    let name = "Host:"@;
    reveal_strlit("Host:");
    assert(field =~= name + seq![' '] + host + none);
    assert(lines.drop_first() =~= Seq::<Seq<char>>::empty() + seq![name + seq![' '] + host + none]
        + after);
    parsing::law_first_host_line(Seq::empty(), name, seq![' '], host, none, after);
    let lower = text::ascii_lowered(host);
    parsing::law_lower_case(host);
    assert forall|i: int| 0 <= i < lower.len() implies #[trigger] lower[i] != ':' by {
        assert(host[i] != ':');
    }
    parsing::law_host_and_port(none, none, lower);
    assert(lower.last() != '.');
    assert(vstd::utf8::is_ascii_chars(lower)) by {
        assert forall|i: int| 0 <= i < lower.len() implies '\0' <= #[trigger] lower[i]
            <= '\u{7f}' by {
            assert('\0' <= host[i] <= '\u{7f}');
        }
    }
    assert(lower + none + none =~= lower);
    parsing::law_canonical(lower, none, none);
    assert(authority::canonical(lower) =~= lower);
    law_plain_requests_go(routes, content, head);
}

/// A request with an absolute target: its method, its target, its version and a line end, and any
/// text.
pub open spec fn absolute_request(
    method: Seq<char>,
    secure: bool,
    written: Seq<char>,
    tail: Seq<char>,
    version: Seq<char>,
    rest: Seq<char>,
) -> Seq<char> {
    method + " "@ + (if secure {
        "https://"@
    } else {
        "http://"@
    }) + written + tail + " "@ + version + "\r\n"@ + rest
}

/// A request with an absolute target is sent on under its method and version with the path of
/// the target in place of the target, and with a `Host` field for the authority.
pub proof fn law_absolute_form_is_sent_in_origin_form(
    routes: Map<Seq<char>, Seq<char>>,
    method: Seq<char>,
    secure: bool,
    written: Seq<char>,
    tail: Seq<char>,
    version: Seq<char>,
    rest: Seq<char>,
    head: Seq<u8>,
)
    requires
        text::is_word(method),
        text::is_word(version),
        forall|i: int| 0 <= i < written.len() ==> !text::is_white_space(#[trigger] written[i]),
        forall|i: int| 0 <= i < tail.len() ==> !text::is_white_space(#[trigger] tail[i]),
        forall|i: int|
            0 <= i < written.len() ==> #[trigger] written[i] != '/' && written[i] != '?'
                && written[i] != '#',
        tail.len() > 0 ==> tail[0] == '/' || tail[0] == '?' || tail[0] == '#',
    ensures
        ({
            let content = absolute_request(method, secure, written, tail, version, rest);
            let path = if tail.len() > 0 && tail[0] == '/' {
                tail
            } else if tail.len() > 0 && tail[0] == '?' {
                seq!['/'] + tail
            } else {
                seq!['/']
            };
            let (host, port) = authority::host_port(written);
            let asked = if port is Some && port != Some(0u16) {
                port->0
            } else if secure {
                443u16
            } else {
                80u16
            };
            let name = authority::canonical(host);
            proxy::plain_plan(routes, content, head) matches Some(plan) && plan.method == method
                && plan.hostname == name && plan.upstream == proxy::upstream(routes, name, asked)
                && plan.bytes == encode_utf8(method + " "@ + path + " "@ + version)
                + fields::with_host(proxy::after_request_line(head), written)
        }),
{
    let content = absolute_request(method, secure, written, tail, version, rest);
    reveal_strlit(" ");
    reveal_strlit("\r\n");
    reveal_strlit("http://");
    reveal_strlit("https://");
    let none = Seq::<char>::empty();
    let scheme = if secure {
        "https://"@
    } else {
        "http://"@
    };
    let target = scheme + written + tail;
    let line = method + seq![' '] + target + seq![' '] + version;
    assert forall|i: int| 0 <= i < target.len() implies !text::is_white_space(
        #[trigger] target[i],
    ) by {
        if scheme.len() <= i < scheme.len() + written.len() {
            assert(target[i] == written[i - scheme.len()]);
        } else if i >= scheme.len() + written.len() {
            assert(target[i] == tail[i - scheme.len() - written.len()]);
        }
    }
    let t1 = seq![' '] + target + seq![' '] + version;
    let t2 = seq![' '] + version;
    assert(line =~= none + method + t1);
    assert(t1 =~= seq![' '] + target + t2);
    parsing::law_words(none, method, t1, 0);
    parsing::law_words(none, method, t1, 1);
    parsing::law_words(seq![' '], target, t2, 0);
    parsing::law_words(seq![' '], target, t2, 1);
    assert(t2 =~= seq![' '] + version + none);
    parsing::law_words(seq![' '], version, none, 0);
    parsing::law_missing_words(line);
    assert forall|i: int| 0 <= i < line.len() implies #[trigger] line[i] != '\r' by {
        if i < method.len() {
            assert(line[i] == method[i]);
        } else if method.len() < i < method.len() + 1 + target.len() {
            assert(line[i] == target[i - method.len() - 1]);
        } else if i > method.len() + 1 + target.len() {
            assert(line[i] == version[i - method.len() - target.len() - 2]);
        }
    }
    assert(content =~= line + seq!['\r', '\n'] + rest);
    parsing::law_lines(line, rest);
    assert(text::lines(content)[0] == line);
    parsing::law_request_targets(target, secure, written, tail);
    law_plain_requests_go(routes, content, head);
    let path = authority::target_path(target);
    assert(proxy::rewritten_line(line) =~= method + " "@ + path + " "@ + version);
}

/// What becomes of a request for a tunnel, whatever its target: the host that the target names is
/// looked up in its canonical form. The tunnel is decrypted if and only if that name is one of
/// the hosts or under one of them; any other goes to where connections to that name go, at the
/// port that the target names or, where it names none, at 443.
pub proof fn law_tunnels(set: Set<Seq<char>>, routes: Map<Seq<char>, Seq<char>>, target: Seq<char>)
    ensures
        ({
            let plan = proxy::connect_plan(set, routes, target);
            let (host, port) = authority::host_port(target);
            &&& plan.host == authority::canonical(host)
            &&& port is Some ==> plan.port == port->0
            &&& port is None ==> plan.port == 443
            &&& plan.upstream is None <==> exists|base: Seq<char>|
                #[trigger] set.contains(base) && is_or_is_under(plan.host, base)
            &&& plan.upstream matches Some(to) ==> to == proxy::upstream(
                routes,
                plan.host,
                plan.port,
            )
        }),
{
    let plan = proxy::connect_plan(set, routes, target);
    law_accelerated(set, plan.host);
}

/// What is sent on of a head. If its target begins with a scheme: the method, the path of the
/// target and the version, a space between each, and then all that follows the request line, with
/// a `Host` field for the authority that the target writes. Otherwise the head as it came, byte by
/// byte.
pub proof fn law_forwarded(line: Seq<char>, head: Seq<u8>)
    ensures
        ({
            let target = proxy::target_of(line);
            let absolute = parsing::begins_http(target) || parsing::begins_https(target);
            &&& !absolute ==> proxy::forwarded(line, head) == head
            &&& absolute ==> authority::written_authority(target) is Some && proxy::forwarded(
                line,
                head,
            ) == encode_utf8(
                proxy::method_of(line) + " "@ + authority::target_path(target) + " "@
                    + proxy::version_of(line),
            ) + fields::with_host(
                proxy::after_request_line(head),
                authority::written_authority(target)->0,
            )
        }),
{
    reveal_strlit(" ");
    reveal_strlit("http://");
    reveal_strlit("https://");
    let target = proxy::target_of(line);
    if !parsing::begins_http(target) && !parsing::begins_https(target) {
        parsing::law_other_targets(target);
    }
    assert(proxy::rewritten_line(line) =~= proxy::method_of(line) + " "@ + authority::target_path(
        target,
    ) + " "@ + proxy::version_of(line));
}

/// What is sent on depends on the request line and on what follows it, which need not be text.
pub proof fn law_sent_heads(line: Seq<char>, tail: Seq<u8>)
    requires
        forall|i: int| 0 <= i < line.len() ==> #[trigger] line[i] != '\n',
    ensures
        ({
            let head = encode_utf8(line) + seq![13u8, 10u8] + tail;
            &&& proxy::sent_head(head) == proxy::forwarded(line, head)
            &&& proxy::after_request_line(head) == seq![13u8, 10u8] + tail
        }),
{
    let bytes = encode_utf8(line);
    let head = bytes + seq![13u8, 10u8] + tail;
    let end = head::line_end();
    let n = bytes.len() as int;
    assert forall|i: int| 0 <= i < line.len() implies #[trigger] line[i] as u32 != 10u8 by {
        vstd::utf8::char_is_scalar(line[i]);
        vstd::utf8::char_u32_cast(line[i], line[i] as u32);
        vstd::utf8::char_u32_cast('\n', '\n' as u32);
        assert(line[i] != '\n');
    }
    lemma_no_such_byte(line, 10);
    assert(head.subrange(n, n + 2) =~= end);
    assert forall|j: int| 0 <= j < n implies !#[trigger] text::occurs_at(head, end, j) by {
        if text::occurs_at(head, end, j) {
            assert(head.subrange(j, j + 2)[1] == head[j + 1]);
            if j + 1 < n {
                assert(head[j + 1] == bytes[j + 1]);
            } else {
                assert(head[j + 1] == 13);
            }
        }
    }
    text::lemma_first_occurrence_unique(head, end, n);
    assert(head.take(n) =~= bytes);
    assert(head.skip(n) =~= seq![13u8, 10u8] + tail);
    lemma_read_back(line);
    vstd::utf8::encode_utf8_decode_utf8(line);
}

/// A head asks for a tunnel only if it begins with the seven letters of `CONNECT`, in capitals;
/// with an ASCII character behind them, if and only if that is white space; and with nothing
/// behind them it does.
pub proof fn law_tunnel_requests(head: Seq<u8>, next: u8, rest: Seq<u8>)
    requires
        next <= 127,
    ensures
        ({
            let word = seq![67u8, 79u8, 78u8, 78u8, 69u8, 67u8, 84u8];
            &&& proxy::is_connect(head) ==> head.len() >= 7 && head.take(7) == word
            &&& proxy::is_connect(word)
            &&& proxy::is_connect(word + seq![next] + rest) <==> 9 <= next <= 13 || next == 32
        }),
{
    let word = seq![67u8, 79u8, 78u8, 78u8, 69u8, 67u8, 84u8];
    let written = proxy::connect_word();
    reveal_strlit("CONNECT");
    vstd::utf8::is_ascii_chars_encode_utf8("CONNECT"@);
    assert("CONNECT"@[0] as u8 == written[0] && "CONNECT"@[1] as u8 == written[1] && "CONNECT"@[2]
        as u8 == written[2] && "CONNECT"@[3] as u8 == written[3] && "CONNECT"@[4] as u8
        == written[4] && "CONNECT"@[5] as u8 == written[5] && "CONNECT"@[6] as u8 == written[6]);
    assert(written =~= word);
    assert(word.take(7) =~= word);
    let whole = word + seq![next] + rest;
    assert(whole.take(7) =~= word);
    assert(whole.skip(7) =~= seq![next] + rest);
    assert((seq![next] + rest)[0] == next);
    assert((next & 0x7f) == next) by (bit_vector)
        requires
            next <= 127,
    ;
}

/// Plans stand for what they hold, part by part.
pub proof fn law_plans_as_values(
    tunnel: proxy::ConnectPlan,
    plain: proxy::PlainPlan,
    named: (String, Option<u16>),
)
    ensures
        tunnel@.host == tunnel.host@,
        tunnel@.port == tunnel.port,
        tunnel.route is Mitm <==> tunnel@.upstream is None,
        tunnel.route matches proxy::ConnectRoute::Tunnel { host, port } ==> tunnel@.upstream == Some(
            (host@, port),
        ),
        plain@.method == plain.method@,
        plain@.hostname == plain.hostname@,
        plain@.upstream == (plain.up_host@, plain.up_port),
        plain@.bytes == plain.bytes@,
        proxy::plain_view(Some(plain)) == Some(plain@),
        proxy::plain_view(None) is None,
        authority::authority_view(Some(named)) == Some((named.0@, named.1)),
        authority::authority_view(None) is None,
{
}

/// A list of strings stands for their texts, one by one.
pub proof fn law_lists_as_values(list: Seq<String>)
    ensures
        text::views(list).len() == list.len(),
        forall|i: int| 0 <= i < list.len() ==> #[trigger] text::views(list)[i] == list[i]@,
{
}

/// What clients are told: that their tunnel is open, or that their head is too large.
pub proof fn law_replies()
    ensures
        proxy::CONNECT_ESTABLISHED@ == "HTTP/1.1 200 Connection Established\r\n\r\n"@,
        head::HEADERS_TOO_LARGE@ == "headers too large"@,
{
}

/// A counter grows by the bytes that were moved, and starts again at 0 behind the largest number
/// that it can hold.
pub proof fn law_counters(counter: u64, moved: u64)
    ensures
        counter + moved <= u64::MAX ==> proxy::counted(counter, moved) == counter + moved,
        counter + moved > u64::MAX ==> proxy::counted(counter, moved) == counter + moved - u64::MAX
            - 1,
{
}

/// `a`, `b`, `c` and `d` stand in `s` at `i`.
pub open spec fn four_at(s: Seq<u8>, i: int, a: u8, b: u8, c: u8, d: u8) -> bool {
    0 <= i && i + 4 <= s.len() && s[i] == a && s[i + 1] == b && s[i + 2] == c && s[i + 3] == d
}

/// A head is complete once it holds an empty line, or its sender has ended; it is too large if it
/// is longer than 65536 bytes without that; else more has to be read.
pub proof fn law_head_status(buf: Seq<u8>, chunk: Seq<u8>)
    ensures
        ({
            let ended = chunk.len() == 0 || exists|i: int| #[trigger] four_at(buf, i, 13, 10, 13, 10);
            let status = head::head_status(buf, chunk);
            &&& status == head::HeadStatus::Complete <==> ended
            &&& status == head::HeadStatus::TooLarge <==> !ended && buf.len() > 65536
            &&& status == head::HeadStatus::More <==> !ended && buf.len() <= 65536
        }),
{
    let end = head::head_end();
    if text::occurs(buf, end) {
        let i = choose|i: int| text::occurs_at(buf, end, i);
        let found = buf.subrange(i, i + 4);
        assert(found[0] == buf[i] && found[1] == buf[i + 1] && found[2] == buf[i + 2] && found[3]
            == buf[i + 3]);
        assert(four_at(buf, i, 13, 10, 13, 10));
    }
    if exists|i: int| #[trigger] four_at(buf, i, 13, 10, 13, 10) {
        let i = choose|i: int| #[trigger] four_at(buf, i, 13, 10, 13, 10);
        assert(buf.subrange(i, i + 4) =~= end);
        assert(text::occurs_at(buf, end, i));
    }
}

/// What has arrived is one chunk after the other.
pub proof fn law_arrival(chunks: Seq<Seq<u8>>, chunk: Seq<u8>)
    ensures
        head::arrived(Seq::empty()) == Seq::<u8>::empty(),
        head::arrived(chunks.push(chunk)) == head::arrived(chunks) + chunk,
{
    assert(chunks.push(chunk).drop_last() =~= chunks);
    assert(chunks.push(chunk).last() == chunk);
}

/// Reading takes in chunk after chunk and stops at the first status that is not `More`.
pub proof fn law_reading(chunks: Seq<Seq<u8>>, chunk: Seq<u8>)
    ensures
        head::reading(Seq::empty()) == (Seq::<u8>::empty(), head::HeadStatus::More),
        ({
            let (buf, status) = head::reading(chunks);
            head::reading(chunks.push(chunk)) == (if status == head::HeadStatus::More {
                (buf + chunk, head::head_status(buf + chunk, chunk))
            } else {
                (buf, status)
            })
        }),
{
    assert(chunks.push(chunk).drop_last() =~= chunks);
    assert(chunks.push(chunk).last() == chunk);
}

} // verus!
