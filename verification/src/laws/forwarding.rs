//! Laws of what is sent on: which fields, and in what form.

use crate::fields;
use crate::head;
use crate::text;
use crate::upstream;
use vstd::prelude::*;
use vstd::utf8::encode_utf8;

verus! {

/// A field is held back if and only if its name, in lower case, is one of nine: those that are
/// about the client's own connection.
pub proof fn law_nine_fields_are_held_back(name: Seq<char>)
    ensures
        ({
            let low = text::ascii_lowered(name);
            upstream::is_hop(name) <==> low == "host"@ || low == "connection"@ || low
                == "keep-alive"@ || low == "proxy-connection"@ || low == "transfer-encoding"@ || low
                == "upgrade"@ || low == "proxy-authorization"@ || low == "te"@ || low == "trailer"@
        }),
{
    let low = text::ascii_lowered(name);
    let names = upstream::hop_names();
    assert(names[0] == "host"@ && names[1] == "connection"@ && names[2] == "keep-alive"@ && names[3]
        == "proxy-connection"@ && names[4] == "transfer-encoding"@ && names[5] == "upgrade"@
        && names[6] == "proxy-authorization"@ && names[7] == "te"@ && names[8] == "trailer"@);
    assert(names.len() == 9);
    if names.contains(low) {
        let i = choose|i: int| 0 <= i < names.len() && names[i] == low;
        assert(names[i] == low);
    }
}

/// What an upstream gets: the fields of the request under their names, each with the last of its
/// values alone, but for the nine that are held back; and a `host` field for the host that it is
/// sent to, and no other.
pub proof fn law_forwarded_fields(
    fields: Map<Seq<char>, Seq<Seq<u8>>>,
    host: Seq<char>,
    name: Seq<char>,
)
    ensures
        ({
            let low = text::ascii_lowered(name);
            let held_back = low == "host"@ || low == "connection"@ || low == "keep-alive"@ || low
                == "proxy-connection"@ || low == "transfer-encoding"@ || low == "upgrade"@ || low
                == "proxy-authorization"@ || low == "te"@ || low == "trailer"@;
            let sent = upstream::forwarded_fields(fields, host);
            &&& sent.contains_key("host"@)
            &&& sent["host"@] == seq![encode_utf8(host)]
            &&& name != "host"@ ==> (sent.contains_key(name) <==> fields.contains_key(name)
                && !held_back)
            &&& name != "host"@ && sent.contains_key(name) ==> sent[name].len() == 1
                && sent[name][0] == fields[name].last()
        }),
{
    law_nine_fields_are_held_back(name);
}

/// The fields that carry what a user is, asks for and sends reach the upstream.
pub proof fn law_what_users_send_is_forwarded(
    fields: Map<Seq<char>, Seq<Seq<u8>>>,
    host: Seq<char>,
    name: Seq<char>,
)
    requires
        fields.contains_key(name),
        name == "authorization"@ || name == "cookie"@ || name == "content-type"@ || name
            == "content-length"@ || name == "accept"@ || name == "accept-encoding"@ || name
            == "user-agent"@ || name == "referer"@ || name == "origin"@ || name == "range"@ || name
            == "if-none-match"@,
    ensures
        upstream::forwarded_fields(fields, host).contains_key(name),
        upstream::forwarded_fields(fields, host)[name] == seq![fields[name].last()],
{
    reveal_strlit("authorization");
    reveal_strlit("cookie");
    reveal_strlit("content-type");
    reveal_strlit("content-length");
    reveal_strlit("accept");
    reveal_strlit("accept-encoding");
    reveal_strlit("user-agent");
    reveal_strlit("referer");
    reveal_strlit("origin");
    reveal_strlit("range");
    reveal_strlit("if-none-match");
    reveal_strlit("host");
    reveal_strlit("connection");
    reveal_strlit("keep-alive");
    reveal_strlit("proxy-connection");
    reveal_strlit("transfer-encoding");
    reveal_strlit("upgrade");
    reveal_strlit("proxy-authorization");
    reveal_strlit("te");
    reveal_strlit("trailer");
    let low = text::ascii_lowered(name);
    assert(low =~= name);
    assert(name.len() > 0 && name[0] != 'h' && name[0] != 't' && name[0] != 'k' && name[0] != 'p');
    assert(name[0] == 'c' ==> name.len() == 6 || name.len() == 12 || name.len() == 14);
    assert(name[0] == 'u' ==> name.len() == 10);
    law_forwarded_fields(fields, host, name);
}

/// The address of a request is `https://`, the host and the path, or a slash where there is none.
pub proof fn law_upstream_address(host: Seq<char>, path: Seq<char>)
    ensures
        upstream::upstream_address(host, Some(path)) == "https://"@ + host + path,
        upstream::upstream_address(host, None) == "https://"@ + host + "/"@,
{
}

/// The line begins with `host:` in bytes, in any case.
pub open spec fn begins_host(line: Seq<u8>) -> bool {
    &&& line.len() >= 5
    &&& line[0] == 104 || line[0] == 72
    &&& line[1] == 111 || line[1] == 79
    &&& line[2] == 115 || line[2] == 83
    &&& line[3] == 116 || line[3] == 84
    &&& line[4] == 58
}

/// A field line is a `Host` field if and only if it begins with `host:` in any case.
pub proof fn law_host_fields(line: Seq<u8>)
    ensures
        fields::is_host_line(line) <==> begins_host(line),
{
    let name = encode_utf8("host:"@);
    let low = fields::bytes_lowered(line);
    reveal_strlit("host:");
    vstd::utf8::is_ascii_chars_encode_utf8("host:"@);
    assert(name =~= seq![104u8, 111u8, 115u8, 116u8, 58u8]) by {
        assert("host:"@[0] as u8 == name[0] && "host:"@[1] as u8 == name[1] && "host:"@[2] as u8
            == name[2] && "host:"@[3] as u8 == name[3] && "host:"@[4] as u8 == name[4]);
    }
    if line.len() >= 5 {
        if text::starts_with(low, name) {
            assert(low.take(5)[0] == low[0] && low.take(5)[1] == low[1] && low.take(5)[2] == low[2]
                && low.take(5)[3] == low[3] && low.take(5)[4] == low[4]);
        }
        if begins_host(line) {
            assert(low.take(5) =~= name);
        }
    }
}

/// The lines that are kept are all that are no `Host` fields, as often as they came and in their
/// order, and no others.
pub proof fn law_all_other_lines_are_kept(lines: Seq<Seq<u8>>)
    ensures
        fields::without_host(lines) == lines.filter(|line: Seq<u8>| !begins_host(line)),
    decreases lines.len(),
{
    reveal(Seq::filter);
    if lines.len() > 0 {
        law_all_other_lines_are_kept(lines.drop_last());
        law_host_fields(lines.last());
    }
}

/// Of every line that is no `Host` field, as many are kept as there were.
pub proof fn law_other_lines_are_kept_as_often(lines: Seq<Seq<u8>>, line: Seq<u8>)
    requires
        !begins_host(line),
    ensures
        fields::without_host(lines).to_multiset().count(line) == lines.to_multiset().count(line),
    decreases lines.len(),
{
    broadcast use vstd::seq_lib::group_to_multiset_ensures;

    if lines.len() > 0 {
        let init = lines.drop_last();
        let last = lines.last();
        law_other_lines_are_kept_as_often(init, line);
        law_host_fields(last);
        assert(lines =~= init.push(last));
        assert(lines.to_multiset() =~= init.to_multiset().insert(last));
        if !begins_host(last) {
            let kept = fields::without_host(init);
            assert(kept.push(last).to_multiset() =~= kept.to_multiset().insert(last));
        }
    } else {
        assert(fields::without_host(lines) =~= lines);
    }
}

/// The bytes of `Host: ` and of an authority, behind a line end.
pub open spec fn new_host(written: Seq<char>) -> Seq<u8> {
    seq![13u8, 10u8, 72u8, 111u8, 115u8, 116u8, 58u8, 32u8] + encode_utf8(written)
}

/// The line is not empty and holds no carriage return with a line feed behind it.
pub open spec fn one_line(line: Seq<u8>) -> bool {
    line.len() > 0 && forall|i: int|
        0 <= i < line.len() - 1 ==> !(#[trigger] line[i] == 13 && line[i + 1] == 10)
}

/// `rest` begins with a line end.
pub open spec fn begins_line_end(rest: Seq<u8>) -> bool {
    rest.len() >= 2 && rest[0] == 13 && rest[1] == 10
}

proof fn lemma_new_host(written: Seq<char>)
    ensures
        head::line_end() + fields::host_line(written) == new_host(written),
{
    let name = encode_utf8("Host: "@);
    reveal_strlit("Host: ");
    vstd::utf8::is_ascii_chars_encode_utf8("Host: "@);
    assert("Host: "@[0] as u8 == name[0] && "Host: "@[1] as u8 == name[1] && "Host: "@[2] as u8
        == name[2] && "Host: "@[3] as u8 == name[3] && "Host: "@[4] as u8 == name[4] && "Host: "@[5]
        as u8 == name[5]);
    assert(head::line_end() + fields::host_line(written) =~= new_host(written));
}

/// One more line in front is joined in front.
proof fn lemma_joined_more(lines: Seq<Seq<u8>>, line: Seq<u8>)
    ensures
        fields::joined(seq![line] + lines) == head::line_end() + line + fields::joined(lines),
    decreases lines.len(),
{
    let more = seq![line] + lines;
    reveal_with_fuel(fields::joined, 2);
    if lines.len() == 0 {
        assert(more =~= seq![line]);
        assert(more.drop_last() =~= Seq::<Seq<u8>>::empty());
        assert(fields::joined(more) =~= head::line_end() + line + fields::joined(lines));
    } else {
        lemma_joined_more(lines.drop_last(), line);
        assert(more.drop_last() =~= seq![line] + lines.drop_last());
        assert(more.last() == lines.last());
        assert(fields::joined(more) =~= head::line_end() + line + fields::joined(lines));
    }
}

/// One more line in front is kept in front, unless it is a `Host` field.
proof fn lemma_without_host_more(lines: Seq<Seq<u8>>, line: Seq<u8>)
    ensures
        fields::without_host(seq![line] + lines) == (if begins_host(line) {
            fields::without_host(lines)
        } else {
            seq![line] + fields::without_host(lines)
        }),
    decreases lines.len(),
{
    let more = seq![line] + lines;
    reveal_with_fuel(fields::without_host, 2);
    if lines.len() == 0 {
        law_host_fields(line);
        assert(more.drop_last() =~= Seq::<Seq<u8>>::empty());
        assert(more.last() == line);
        assert(fields::without_host(more) =~= (if begins_host(line) {
            fields::without_host(lines)
        } else {
            seq![line] + fields::without_host(lines)
        }));
    } else {
        lemma_without_host_more(lines.drop_last(), line);
        assert(more.drop_last() =~= seq![line] + lines.drop_last());
        assert(more.last() == lines.last());
        assert(fields::without_host(more) =~= (if begins_host(line) {
            fields::without_host(lines)
        } else {
            seq![line] + fields::without_host(lines)
        }));
    }
}

/// Where no field follows, the new `Host` field stands before the empty line and the body, which
/// stay as they are.
pub proof fn law_host_without_fields(body: Seq<u8>, written: Seq<char>)
    ensures
        fields::with_host(seq![13u8, 10u8, 13u8, 10u8] + body, written) == new_host(written) + seq![
            13u8,
            10u8,
            13u8,
            10u8,
        ] + body,
        fields::with_host(seq![13u8, 10u8], written) == new_host(written) + seq![13u8, 10u8],
        fields::with_host(Seq::empty(), written) == Seq::<u8>::empty(),
{
    let rest = seq![13u8, 10u8, 13u8, 10u8] + body;
    let end = head::line_end();
    let t = rest.skip(2);
    assert(t.subrange(0, 2) =~= end);
    text::lemma_first_occurrence_unique(t, end, 0);
    assert(fields::next_line(rest).len() == 0);
    let two = seq![13u8, 10u8];
    let u = two.skip(2);
    text::lemma_first_occurrence(u, end);
    assert(fields::next_line(two).len() == 0);
    lemma_new_host(written);
    let none = Seq::<Seq<u8>>::empty();
    let line = fields::host_line(written);
    lemma_joined_more(none, line);
    assert(seq![line] + fields::without_host(none) =~= seq![line] + none);
    assert(fields::joined(none).len() == 0);
    assert(fields::with_host(rest, written) =~= new_host(written) + rest);
    assert(new_host(written) + rest =~= new_host(written) + seq![13u8, 10u8, 13u8, 10u8] + body);
    assert(fields::with_host(two, written) =~= new_host(written) + two);
}

/// One more field line in front, whatever it says, is sent on right behind the new `Host` field,
/// unless it is a `Host` field itself, which is left out. All else is sent on as without it.
pub proof fn law_host_with_one_more_field(line: Seq<u8>, rest: Seq<u8>, written: Seq<char>)
    requires
        one_line(line),
        begins_line_end(rest),
    ensures
        ({
            let without = fields::with_host(rest, written);
            let behind = without.skip(new_host(written).len() as int);
            &&& without == new_host(written) + behind
            &&& fields::with_host(seq![13u8, 10u8] + line + rest, written) == new_host(written) + (
            if begins_host(line) {
                Seq::empty()
            } else {
                seq![13u8, 10u8] + line
            }) + behind
        }),
{
    let end = head::line_end();
    let whole = seq![13u8, 10u8] + line + rest;
    let t = whole.skip(2);
    let n = line.len() as int;
    assert(t =~= line + rest);
    assert(t.subrange(n, n + 2) =~= end);
    assert forall|j: int| 0 <= j < n implies !#[trigger] text::occurs_at(t, end, j) by {
        if text::occurs_at(t, end, j) {
            assert(t.subrange(j, j + 2)[0] == t[j]);
            assert(t.subrange(j, j + 2)[1] == t[j + 1]);
            assert(t[j] == line[j]);
        }
    }
    text::lemma_first_occurrence_unique(t, end, n);
    assert(fields::next_line(whole) =~= line);
    assert(whole.take(2) =~= end);
    assert(whole.skip(2int + line.len()) =~= rest);
    let lines = fields::field_lines(rest);
    let tail = fields::after_fields(rest);
    let host = fields::host_line(written);
    assert(fields::field_lines(whole) == seq![line] + lines);
    assert(fields::after_fields(whole) == tail);
    lemma_without_host_more(lines, line);
    lemma_new_host(written);
    let kept = fields::without_host(lines);
    lemma_joined_more(kept, host);
    let behind = fields::joined(kept) + tail;
    assert(fields::with_host(rest, written) =~= new_host(written) + behind);
    assert((new_host(written) + behind).skip(new_host(written).len() as int) =~= behind);
    if begins_host(line) {
        assert(fields::with_host(whole, written) =~= new_host(written) + Seq::<u8>::empty()
            + behind);
    } else {
        lemma_joined_more(kept, line);
        lemma_joined_more(seq![line] + kept, host);
        assert(fields::with_host(whole, written) =~= new_host(written) + (seq![13u8, 10u8] + line)
            + behind);
    }
}

/// A last field line without an end is treated like any other. What does not begin with a line
/// end is no field at all: it is sent on as it is, behind the new `Host` field.
pub proof fn law_host_with_open_end(line: Seq<u8>, other: Seq<u8>, written: Seq<char>)
    requires
        one_line(line),
        other.len() > 0,
        !begins_line_end(other),
    ensures
        fields::with_host(seq![13u8, 10u8] + line, written) == new_host(written) + (if begins_host(
            line,
        ) {
            Seq::empty()
        } else {
            seq![13u8, 10u8] + line
        }),
        fields::with_host(other, written) == new_host(written) + other,
{
    let end = head::line_end();
    let none = Seq::<Seq<u8>>::empty();
    let nothing = Seq::<u8>::empty();
    let host = fields::host_line(written);
    lemma_new_host(written);
    lemma_joined_more(none, host);
    assert(fields::without_host(none) =~= none);
    assert(fields::joined(none) =~= nothing);
    if text::starts_with(other, end) {
        assert(other.take(2)[0] == other[0] && other.take(2)[1] == other[1]);
    }
    assert(fields::field_lines(other) =~= none);
    assert(fields::with_host(other, written) =~= new_host(written) + other);
    let whole = seq![13u8, 10u8] + line;
    let t = whole.skip(2);
    assert(t =~= line);
    text::lemma_first_occurrence(t, end);
    if let Some(j) = text::first_occurrence(t, end) {
        assert(t.subrange(j, j + 2)[0] == t[j]);
        assert(t.subrange(j, j + 2)[1] == t[j + 1]);
        assert(line[j] == 13 && line[j + 1] == 10);
    }
    assert(fields::next_line(whole) =~= line);
    assert(whole.take(2) =~= end);
    assert(whole.skip(2int + line.len()) =~= nothing);
    assert(fields::at_end(nothing));
    assert(fields::field_lines(nothing) =~= none);
    assert(fields::after_fields(nothing) =~= nothing);
    assert(fields::field_lines(whole) =~= seq![line] + none);
    lemma_without_host_more(none, line);
    if begins_host(line) {
        assert(fields::with_host(whole, written) =~= new_host(written) + nothing);
    } else {
        lemma_joined_more(none, line);
        lemma_joined_more(seq![line] + none, host);
        assert(fields::with_host(whole, written) =~= new_host(written) + (seq![13u8, 10u8] + line));
    }
}

/// The values of a name are those that the list gives to it, in their order.
pub proof fn law_values(
    list: Seq<(Seq<char>, Seq<u8>)>,
    given: Seq<char>,
    value: Seq<u8>,
    name: Seq<char>,
)
    ensures
        upstream::values_of(Seq::empty(), name) == Seq::<Seq<u8>>::empty(),
        upstream::values_of(list.push((given, value)), name) == (if given == name {
            upstream::values_of(list, name).push(value)
        } else {
            upstream::values_of(list, name)
        }),
{
    let more = list.push((given, value));
    assert(more.drop_last() =~= list);
    assert(more.last() == (given, value));
}

/// A value of a field holds no control characters but tabs.
pub proof fn law_field_values(bytes: Seq<u8>)
    ensures
        upstream::is_header_value(bytes) <==> forall|i: int|
            0 <= i < bytes.len() ==> !(0 <= #[trigger] bytes[i] <= 8 || 10 <= bytes[i] <= 31
                || bytes[i] == 127),
{
    if !upstream::is_header_value(bytes) {
        let i = choose|i: int| 0 <= i < bytes.len() && !upstream::is_value_byte(#[trigger] bytes[i]);
        assert(0 <= bytes[i] <= 8 || 10 <= bytes[i] <= 31 || bytes[i] == 127);
    }
}

/// Decrypted traffic is sent on to the port of HTTPS, and what is reported where that fails.
pub proof fn law_upstream_port()
    ensures
        upstream::UPSTREAM_PORT == 443,
        upstream::DNS_NO_RESULT@ == "dns no result"@,
        upstream::BAD_HOST@ == "bad host"@,
{
}

} // verus!
