//! Host names, ports and request targets: how `host[:port]`, absolute request targets and
//! `Host` lines are read, and the canonical form in which hosts are looked up.

use crate::text;
use crate::text::CharClass;
use vstd::prelude::*;
use vstd::slice::slice_subrange;
use vstd::string::StringExecFns;

verus! {

/// `host[:port]` taken apart: what follows the last `:` is the port if it is a 16-bit number;
/// otherwise all of `s` is the host.
pub open spec fn host_port(s: Seq<char>) -> (Seq<char>, Option<u16>) {
    let i = text::last_in(s, CharClass::Is(':'));
    if i >= 0 && text::parsed_u16(s.skip(i + 1)) is Some {
        (s.take(i), text::parsed_u16(s.skip(i + 1)))
    } else {
        (s, None)
    }
}

/// Takes `host[:port]` apart. The default port is the caller's to apply: where `s` names no
/// port, none is returned.
pub fn split_host_port(s: &str, _default_port: u16) -> (r: (String, Option<u16>))
    ensures
        (r.0@, r.1) == host_port(s@),
{
    let cs = text::chars_of(s);
    let all = cs.as_slice();
    if let Some(i) = text::find_last(all, CharClass::Is(':')) {
        assert(i < all.len());
        let tail = slice_subrange(all, i + 1, all.len());
        assert(tail@ == s@.skip(i + 1));
        if let Some(p) = text::parse_u16(tail) {
            let head = slice_subrange(all, 0, i);
            assert(head@ == s@.take(i as int));
            return (text::text_of(head), Some(p));
        }
    }
    (s.to_owned(), None)
}

/// What follows `http://` or `https://` in a request target.
pub open spec fn after_scheme(target: Seq<char>) -> Option<Seq<char>> {
    if text::starts_with(target, "http://"@) {
        Some(target.skip("http://"@.len() as int))
    } else if text::starts_with(target, "https://"@) {
        Some(target.skip("https://"@.len() as int))
    } else {
        None
    }
}

/// Strips the scheme off an absolute request target.
fn strip_scheme(target: &[char]) -> (r: Option<&[char]>)
    ensures
        match r {
            Some(rest) => after_scheme(target@) == Some(rest@),
            None => after_scheme(target@) is None,
        },
{
    match text::strip_prefix(target, "http://") {
        Some(rest) => Some(rest),
        None => text::strip_prefix(target, "https://"),
    }
}

/// A port of zero counts as no port.
pub open spec fn nonzero_port(port: Option<u16>) -> Option<u16> {
    if port == Some(0u16) {
        None
    } else {
        port
    }
}

/// The authority as an absolute request target writes it: the text between the scheme and the
/// first `/`, `?` or `#`.
pub open spec fn written_authority(target: Seq<char>) -> Option<Seq<char>> {
    match after_scheme(target) {
        Some(rest) => Some(rest.take(text::first_in(rest, CharClass::EndsAuthority))),
        None => None,
    }
}

/// The authority that an absolute request target names, taken apart, with a port of zero
/// dropped.
pub open spec fn target_authority(target: Seq<char>) -> Option<(Seq<char>, Option<u16>)> {
    match written_authority(target) {
        Some(written) => {
            let (host, port) = host_port(written);
            Some((host, nonzero_port(port)))
        },
        None => None,
    }
}

/// Finds the authority that an absolute request target writes.
pub fn authority_in_target(target: &str) -> (r: Option<String>)
    ensures
        match r {
            Some(written) => written_authority(target@) == Some(written@),
            None => written_authority(target@) is None,
        },
{
    let cs = text::chars_of(target);
    match strip_scheme(cs.as_slice()) {
        Some(rest) => {
            let end: usize = text::find_first(rest, CharClass::EndsAuthority);
            let written = slice_subrange(rest, 0, end);
            assert(written@ == rest@.take(end as int));
            Some(text::text_of(written))
        },
        None => None,
    }
}

/// What an optional authority stands for.
pub open spec fn authority_view(a: Option<(String, Option<u16>)>) -> Option<
    (Seq<char>, Option<u16>),
> {
    match a {
        Some((host, port)) => Some((host@, port)),
        None => None,
    }
}

/// Reads the authority of an absolute request target such as `http://host:port/path`.
pub fn absolute_target_authority(target: &str) -> (r: Option<(String, Option<u16>)>)
    ensures
        authority_view(r) == target_authority(target@),
{
    match authority_in_target(target) {
        Some(written) => {
            let (host, port) = split_host_port(written.as_str(), 0);
            match port {
                Some(0) | None => Some((host, None)),
                Some(p) => Some((host, Some(p))),
            }
        },
        None => None,
    }
}

/// The value of a header line whose name is `Host` in any case: what follows the colon,
/// in lower case and without the white space around it.
pub open spec fn host_line_value(line: Seq<char>) -> Option<Seq<char>> {
    let low = text::ascii_lowered(line);
    if text::starts_with(low, "host:"@) {
        Some(text::trimmed(low.skip("host:"@.len() as int)))
    } else {
        None
    }
}

/// The authority that the value of a `Host` line names. Where its port is missing, not a
/// number or zero, the whole value is the host.
pub open spec fn host_value_authority(value: Seq<char>) -> (Seq<char>, Option<u16>) {
    let (host, port) = host_port(value);
    if nonzero_port(port) is Some {
        (host, port)
    } else {
        (value, None)
    }
}

/// The authority that the first `Host` line among `lines` names.
pub open spec fn header_authority(lines: Seq<Seq<char>>) -> Option<(Seq<char>, Option<u16>)>
    decreases lines.len(),
{
    if lines.len() == 0 {
        None
    } else {
        match host_line_value(lines[0]) {
            Some(value) => Some(host_value_authority(value)),
            None => header_authority(lines.drop_first()),
        }
    }
}

/// An authority that leading lines name is the one that all lines name; an empty line at the end
/// of the leading ones does not count.
pub proof fn lemma_leading_authority(start: Seq<Seq<char>>, lines: Seq<Seq<char>>)
    requires
        start.len() > 0,
        start.last().len() == 0,
        lines.len() >= start.len() - 1,
        forall|i: int| 0 <= i < start.len() - 1 ==> #[trigger] lines[i] == start[i],
        header_authority(start) is Some,
    ensures
        header_authority(lines) == header_authority(start),
    decreases start.len(),
{
    reveal_strlit("host:");
    if start.len() == 1 {
        assert(host_line_value(start[0]) is None);
        assert(header_authority(start.drop_first()) is None);
    } else {
        assert(lines[0] == start[0]);
        if host_line_value(start[0]) is None {
            let start2 = start.drop_first();
            let lines2 = lines.drop_first();
            assert forall|i: int| 0 <= i < start2.len() - 1 implies #[trigger] lines2[i]
                == start2[i] by {
                assert(lines2[i] == lines[i + 1]);
            }
            lemma_leading_authority(start2, lines2);
        }
    }
}

/// Reads one header line as a `Host` line.
fn host_of_line(line: &str) -> (r: Option<(String, Option<u16>)>)
    ensures
        authority_view(r) == (match host_line_value(line@) {
            Some(value) => Some(host_value_authority(value)),
            None => None,
        }),
{
    let cs = text::chars_of(line);
    let low = text::to_ascii_lowercase(cs.as_slice());
    match text::strip_prefix(low.as_slice(), "host:") {
        Some(rest) => {
            let value = text::text_of(text::trim(rest));
            match split_host_port(value.as_str(), 0) {
                (host, Some(p)) if p != 0 => Some((host, Some(p))),
                _ => Some((value, None)),
            }
        },
        None => None,
    }
}

/// Reads the authority from the first `Host` line among `lines`.
pub fn host_from_header(lines: &[String]) -> (r: Option<(String, Option<u16>)>)
    ensures
        authority_view(r) == header_authority(text::views(lines@)),
{
    let mut k: usize = 0;
    let ghost all = text::views(lines@);
    assert(all.skip(0) =~= all);
    while k < lines.len()
        invariant
            k <= lines@.len(),
            all == text::views(lines@),
            header_authority(all.skip(k as int)) == header_authority(all),
        decreases lines@.len() - k,
    {
        assert(all.skip(k as int)[0] == lines@[k as int]@);
        assert(all.skip(k as int).drop_first() =~= all.skip(k + 1));
        if let Some(found) = host_of_line(lines[k].as_str()) {
            return Some(found);
        }
        k += 1;
    }
    assert(all.skip(k as int).len() == 0);
    None
}

/// The path, with the query, of an absolute request target: what follows the authority, with
/// `/` for the path where there is none.
pub open spec fn target_path(target: Seq<char>) -> Seq<char> {
    let rest = match after_scheme(target) {
        Some(rest) => rest,
        None => target,
    };
    let tail = rest.skip(text::first_in(rest, CharClass::EndsAuthority));
    if tail.len() > 0 && tail[0] == '/' {
        tail
    } else if tail.len() > 0 && tail[0] == '?' {
        seq!['/'] + tail
    } else {
        seq!['/']
    }
}

/// The path, with the query, of an absolute request target.
pub fn absolute_path(target: &str) -> (r: String)
    ensures
        r@ == target_path(target@),
{
    let cs = text::chars_of(target);
    let rest = match strip_scheme(cs.as_slice()) {
        Some(rest) => rest,
        None => cs.as_slice(),
    };
    let end: usize = text::find_first(rest, CharClass::EndsAuthority);
    let tail = slice_subrange(rest, end, rest.len());
    assert(tail@ == rest@.skip(end as int));
    if tail.len() > 0 && tail[0] == '/' {
        return text::text_of(tail);
    }
    let mut path: String = String::new();
    path.push('/');
    assert(path@ =~= seq!['/']);
    if tail.len() > 0 && tail[0] == '?' {
        path.append(text::text_of(tail).as_str());
    }
    path
}

/// The host of an authority: what precedes the first `:`, without dots at its end.
pub open spec fn bare_host(authority: Seq<char>) -> Seq<char> {
    text::without_trailing(authority.take(text::first_in(authority, CharClass::Is(':'))), '.')
}

/// The form in which hosts are kept and looked up: the host of the authority, in lower case.
pub open spec fn canonical(authority: Seq<char>) -> Seq<char> {
    text::lowered(bare_host(authority))
}

/// The form in which a host of the accelerated list is kept.
pub fn normalize_host(s: &str) -> (r: String)
    ensures
        r@ == canonical(s@),
{
    let cs = text::chars_of(s);
    let all = cs.as_slice();
    let end: usize = text::find_first(all, CharClass::Is(':'));
    let host = slice_subrange(all, 0, end);
    assert(host@ == s@.take(end as int));
    let bare = text::text_of(text::trim_end_of(host, '.'));
    text::to_lowercase(bare.as_str())
}

/// A host and the decimal form of a port, joined by a colon, are taken apart again into the
/// same host and port, whatever the host holds.
pub proof fn law_host_port_round_trip(host: Seq<char>, digits: Seq<char>, port: u16)
    requires
        text::parsed_u16(digits) == Some(port),
    ensures
        host_port(host + seq![':'] + digits) == (host, Some(port)),
{
    let s = host + seq![':'] + digits;
    let k = host.len() as int;
    assert forall|i: int| k < i < s.len() implies !CharClass::Is(':').holds(#[trigger] s[i]) by {
        let j = i - k - 1;
        assert(s[i] == digits[j]);
        if digits[0] == '+' {
            if j > 0 {
                assert(text::is_digit(digits.drop_first()[j - 1]));
            }
        } else {
            assert(text::is_digit(digits[j]));
        }
    }
    text::lemma_last_in_unique(s, CharClass::Is(':'), k);
    assert(s.skip(k + 1) =~= digits);
    assert(s.take(k) =~= host);
}

/// The host of every authority names no port and ends in no dot, and is its own host.
pub proof fn law_bare_host(authority: Seq<char>)
    ensures
        !bare_host(authority).contains(':'),
        bare_host(authority).len() > 0 ==> bare_host(authority).last() != '.',
        bare_host(bare_host(authority)) == bare_host(authority),
{
    let host = authority.take(text::first_in(authority, CharClass::Is(':')));
    let bare = bare_host(authority);
    text::lemma_first_in(authority, CharClass::Is(':'));
    text::lemma_last_in(host, CharClass::IsNot('.'));
    assert forall|i: int| 0 <= i < bare.len() implies #[trigger] bare[i] != ':' by {
        assert(bare[i] == authority[i]);
        assert(!CharClass::Is(':').holds(authority[i]));
    }
    lemma_own_host(bare);
}

/// Text without a `:` and without a dot at its end is its own host.
proof fn lemma_own_host(s: Seq<char>)
    requires
        !s.contains(':'),
        s.len() > 0 ==> s.last() != '.',
    ensures
        bare_host(s) == s,
{
    assert forall|i: int| 0 <= i < s.len() implies !CharClass::Is(':').holds(#[trigger] s[i]) by {
        assert(s.contains(s[i]));
    }
    text::lemma_first_in_unique(s, CharClass::Is(':'), s.len() as int);
    assert(s.take(s.len() as int) =~= s);
    text::lemma_last_in_unique(s, CharClass::IsNot('.'), s.len() - 1);
    assert(text::without_trailing(s, '.') =~= s);
}

/// The canonical form of an authority with an ASCII host names no port, ends in no dot and holds
/// no upper-case letter.
pub proof fn law_canonical_shape(authority: Seq<char>)
    requires
        vstd::utf8::is_ascii_chars(bare_host(authority)),
    ensures
        vstd::utf8::is_ascii_chars(canonical(authority)),
        !canonical(authority).contains(':'),
        canonical(authority).len() > 0 ==> canonical(authority).last() != '.',
        forall|i: int|
            0 <= i < canonical(authority).len() ==> !('A' <= #[trigger] canonical(authority)[i]
                <= 'Z'),
{
    let bare = bare_host(authority);
    law_bare_host(authority);
    assert forall|i: int| 0 <= i < bare.len() implies '\0' <= #[trigger] bare[i] <= '\u{7f}'
        && bare[i] != ':' by {
        assert(bare.contains(bare[i]));
    }
    assert(canonical(authority) == text::ascii_lowered(bare));
}

/// Bringing an authority with an ASCII host into canonical form twice is the same as doing it
/// once.
pub proof fn law_canonical_idempotent(authority: Seq<char>)
    requires
        vstd::utf8::is_ascii_chars(bare_host(authority)),
    ensures
        canonical(canonical(authority)) == canonical(authority),
{
    let c = canonical(authority);
    law_canonical_shape(authority);
    lemma_own_host(c);
    assert(text::ascii_lowered(c) =~= c);
}

/// The path of every request target begins with a slash.
pub proof fn law_path_begins_with_slash(target: Seq<char>)
    ensures
        target_path(target).len() > 0,
        target_path(target)[0] == '/',
{
}

/// The authority of an absolute request target and its path, with the query, make up all that
/// follows the scheme, except for a fragment right behind the authority and for the slash that
/// stands for an empty path.
pub proof fn law_target_is_authority_and_path(target: Seq<char>)
    requires
        after_scheme(target) is Some,
    ensures
        ({
            let rest = after_scheme(target)->0;
            let written = written_authority(target)->0;
            let tail = rest.skip(written.len() as int);
            &&& rest == written + tail
            &&& tail.len() == 0 ==> target_path(target) == seq!['/']
            &&& tail.len() > 0 && tail[0] == '/' ==> target_path(target) == tail
            &&& tail.len() > 0 && tail[0] == '?' ==> target_path(target) == seq!['/'] + tail
            &&& tail.len() > 0 && tail[0] == '#' ==> target_path(target) == seq!['/']
            &&& tail.len() > 0 ==> tail[0] == '/' || tail[0] == '?' || tail[0] == '#'
        }),
{
    let rest = after_scheme(target)->0;
    let k = text::first_in(rest, CharClass::EndsAuthority);
    text::lemma_first_in(rest, CharClass::EndsAuthority);
    assert(rest =~= rest.take(k) + rest.skip(k));
    if k < rest.len() {
        assert(rest.skip(k)[0] == rest[k]);
    }
}

} // verus!
