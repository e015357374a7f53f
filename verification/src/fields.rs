//! The header fields of a request as bytes: taking them apart line by line, and writing the
//! `Host` line anew.

use crate::head;
use crate::head::{CR, LF};
use crate::text;
use vstd::prelude::*;
use vstd::slice::slice_subrange;

verus! {

/// The line that follows the line end at the start of `rest`.
pub open spec fn next_line(rest: Seq<u8>) -> Seq<u8> {
    let t = rest.skip(2);
    match text::first_occurrence(t, head::line_end()) {
        Some(i) => t.take(i),
        None => t,
    }
}

/// No more field lines follow: there is no line end, or an empty line behind it.
pub open spec fn at_end(rest: Seq<u8>) -> bool {
    !text::starts_with(rest, head::line_end()) || next_line(rest).len() == 0
}

/// The field lines in `rest`, which follows the request line and begins with its line end.
pub open spec fn field_lines(rest: Seq<u8>) -> Seq<Seq<u8>>
    decreases rest.len(),
{
    if at_end(rest) {
        Seq::empty()
    } else {
        proof {
            text::lemma_first_occurrence(rest.skip(2), head::line_end());
        }
        seq![next_line(rest)] + field_lines(rest.skip(2int + next_line(rest).len()))
    }
}

/// What follows the field lines in `rest`: the empty line and the body.
pub open spec fn after_fields(rest: Seq<u8>) -> Seq<u8>
    decreases rest.len(),
{
    if at_end(rest) {
        rest
    } else {
        proof {
            text::lemma_first_occurrence(rest.skip(2), head::line_end());
        }
        after_fields(rest.skip(2int + next_line(rest).len()))
    }
}

/// The lines, with a line end before each.
pub open spec fn joined(lines: Seq<Seq<u8>>) -> Seq<u8>
    decreases lines.len(),
{
    if lines.len() == 0 {
        Seq::empty()
    } else {
        joined(lines.drop_last()) + head::line_end() + lines.last()
    }
}

/// The lower-case form of an ASCII letter; any other byte is left as it is.
pub open spec fn byte_lower(b: u8) -> u8 {
    if 65 <= b <= 90 {
        (b + 32) as u8
    } else {
        b
    }
}

/// `line` with its ASCII letters in lower case.
pub open spec fn bytes_lowered(line: Seq<u8>) -> Seq<u8> {
    Seq::new(line.len(), |i: int| byte_lower(line[i]))
}

/// The line is a `Host` field, in any case.
pub open spec fn is_host_line(line: Seq<u8>) -> bool {
    text::starts_with(bytes_lowered(line), vstd::utf8::encode_utf8("host:"@))
}

/// The lines but for the `Host` fields.
pub open spec fn without_host(lines: Seq<Seq<u8>>) -> Seq<Seq<u8>>
    decreases lines.len(),
{
    if lines.len() == 0 {
        Seq::empty()
    } else if is_host_line(lines.last()) {
        without_host(lines.drop_last())
    } else {
        without_host(lines.drop_last()).push(lines.last())
    }
}

/// The `Host` field for an authority.
pub open spec fn host_line(authority: Seq<char>) -> Seq<u8> {
    vstd::utf8::encode_utf8("Host: "@) + vstd::utf8::encode_utf8(authority)
}

/// `rest` with one `Host` field, for `authority`, in place of those that it holds; all else stays
/// in its order. Where there is no line at all, none is added.
pub open spec fn with_host(rest: Seq<u8>, authority: Seq<char>) -> Seq<u8> {
    if rest.len() == 0 {
        rest
    } else {
        joined(seq![host_line(authority)] + without_host(field_lines(rest))) + after_fields(rest)
    }
}

/// Whether the line is a `Host` field, in any case.
fn names_host(line: &[u8]) -> (b: bool)
    ensures
        b == is_host_line(line@),
{
    let name = "host:".as_bytes();
    let ghost low = bytes_lowered(line@);
    if line.len() < name.len() {
        return false;
    }
    let mut k: usize = 0;
    while k < name.len()
        invariant
            k <= name@.len() <= line@.len(),
            low == bytes_lowered(line@),
            name@ == vstd::utf8::encode_utf8("host:"@),
            forall|i: int| 0 <= i < k ==> low[i] == #[trigger] name@[i],
        decreases name@.len() - k,
    {
        let b: u8 = line[k];
        let l: u8 = if 65 <= b && b <= 90 {
            b + 32
        } else {
            b
        };
        assert(low[k as int] == l);
        if l != name[k] {
            assert(low.take(name@.len() as int)[k as int] != name@[k as int]);
            return false;
        }
        k += 1;
    }
    assert(low.take(name@.len() as int) =~= name@);
    true
}

/// Writes the `Host` field anew.
pub fn rewrite_host(rest: &[u8], authority: &str) -> (out: Vec<u8>)
    ensures
        out@ == with_host(rest@, authority@),
{
    let mut out: Vec<u8> = Vec::new();
    if rest.len() == 0 {
        assert(out@ =~= rest@);
        return out;
    }
    let end: [u8; 2] = [CR, LF];
    assert(end@ =~= head::line_end());
    let ghost first = host_line(authority@);
    append(&mut out, end.as_slice());
    append(&mut out, "Host: ".as_bytes());
    append(&mut out, authority.as_bytes());
    let ghost mut seen: Seq<Seq<u8>> = Seq::empty();
    let mut left = rest;
    proof {
        reveal_with_fuel(joined, 2);
        assert(seq![first].drop_last() =~= Seq::<Seq<u8>>::empty());
        assert(seq![first] + without_host(seen) =~= seq![first]);
        assert(out@ =~= joined(seq![first]));
        assert(seen + field_lines(left@) =~= field_lines(rest@));
    }
    loop
        invariant
            end@ == head::line_end(),
            first == host_line(authority@),
            out@ == joined(seq![first] + without_host(seen)),
            seen + field_lines(left@) == field_lines(rest@),
            after_fields(left@) == after_fields(rest@),
            rest@.len() > 0,
        decreases left@.len(),
    {
        if !head::begins_with(left, end.as_slice()) {
            append(&mut out, left);
            assert(seen + field_lines(left@) =~= seen);
            return out;
        }
        let t = slice_subrange(left, 2, left.len());
        assert(t@ =~= left@.skip(2));
        proof {
            text::lemma_first_occurrence(t@, head::line_end());
        }
        let line = match head::find_bytes(t, end.as_slice()) {
            Some(i) => slice_subrange(t, 0, i),
            None => t,
        };
        assert(line@ =~= next_line(left@));
        if line.len() == 0 {
            append(&mut out, left);
            assert(seen + field_lines(left@) =~= seen);
            return out;
        }
        let ghost more = seen.push(line@);
        assert(more.drop_last() =~= seen);
        if !names_host(line) {
            let ghost before = out@;
            append(&mut out, end.as_slice());
            append(&mut out, line);
            proof {
                let lines = seq![first] + without_host(more);
                assert(lines.drop_last() =~= seq![first] + without_host(seen));
                assert(out@ =~= before + head::line_end() + line@);
            }
        }
        let next = slice_subrange(left, 2 + line.len(), left.len());
        assert(next@ =~= left@.skip(2int + line@.len()));
        assert(more + field_lines(next@) =~= seen + field_lines(left@));
        proof {
            seen = more;
        }
        left = next;
    }
}

/// Puts more bytes behind what has been written.
fn append(out: &mut Vec<u8>, more: &[u8])
    ensures
        final(out)@ == old(out)@ + more@,
{
    let ghost before = out@;
    out.extend_from_slice(more);
    assert(out@ =~= before + more@);
}

/// `line` can stand as a line: it is not empty and holds no line end.
pub open spec fn is_line(line: Seq<u8>) -> bool {
    line.len() > 0 && !text::occurs(line, head::line_end())
}

/// What can follow field lines: nothing, or a line end with no line behind it.
pub open spec fn is_tail(tail: Seq<u8>) -> bool {
    tail.len() == 0 || (text::starts_with(tail, head::line_end()) && next_line(tail).len() == 0)
}

/// The field lines are lines, and what follows them is a tail.
proof fn lemma_taken_apart(rest: Seq<u8>)
    requires
        rest.len() == 0 || text::starts_with(rest, head::line_end()),
    ensures
        forall|i: int| 0 <= i < field_lines(rest).len() ==> is_line(#[trigger] field_lines(rest)[i]),
        is_tail(after_fields(rest)),
    decreases rest.len(),
{
    if !at_end(rest) {
        let t = rest.skip(2);
        let line = next_line(rest);
        let next = rest.skip(2int + line.len());
        text::lemma_first_occurrence(t, head::line_end());
        match text::first_occurrence(t, head::line_end()) {
            Some(i) => {
                assert(t.subrange(i, i + 2) == head::line_end());
                assert(next.take(2) =~= t.subrange(i, i + 2));
                assert forall|j: int| !#[trigger] text::occurs_at(line, head::line_end(), j) by {
                    if text::occurs_at(line, head::line_end(), j) {
                        assert(line.subrange(j, j + 2) =~= t.subrange(j, j + 2));
                        assert(text::occurs_at(t, head::line_end(), j));
                    }
                }
            },
            None => {
                assert(next.len() == 0);
            },
        }
        assert(is_line(line));
        lemma_taken_apart(next);
        assert forall|i: int| 0 <= i < field_lines(rest).len() implies is_line(
            #[trigger] field_lines(rest)[i],
        ) by {
            if i > 0 {
                assert(field_lines(rest)[i] == field_lines(next)[i - 1]);
            }
        }
    }
}

/// The first line stands at the front of the joined lines.
proof fn lemma_joined_front(lines: Seq<Seq<u8>>)
    requires
        lines.len() > 0,
    ensures
        joined(lines) == head::line_end() + lines[0] + joined(lines.drop_first()),
    decreases lines.len(),
{
    let rest = lines.drop_first();
    if lines.len() == 1 {
        assert(lines.drop_last() =~= Seq::<Seq<u8>>::empty());
        assert(rest =~= Seq::<Seq<u8>>::empty());
        assert(joined(lines) =~= head::line_end() + lines[0] + joined(rest));
    } else {
        lemma_joined_front(lines.drop_last());
        assert(lines.drop_last().drop_first() =~= rest.drop_last());
        assert(rest.last() == lines.last());
        assert(joined(lines) =~= head::line_end() + lines[0] + joined(rest));
    }
}

/// Joined lines in front of a tail are taken apart into the same lines and the tail.
proof fn lemma_joined_taken_apart(lines: Seq<Seq<u8>>, tail: Seq<u8>)
    requires
        forall|i: int| 0 <= i < lines.len() ==> is_line(#[trigger] lines[i]),
        is_tail(tail),
    ensures
        field_lines(joined(lines) + tail) == lines,
        after_fields(joined(lines) + tail) == tail,
    decreases lines.len(),
{
    let whole = joined(lines) + tail;
    if lines.len() == 0 {
        assert(whole =~= tail);
        if tail.len() == 0 {
            assert(!text::starts_with(tail, head::line_end()));
        }
        assert(field_lines(tail) =~= lines);
    } else {
        let line = lines[0];
        let rest = lines.drop_first();
        let behind = joined(rest) + tail;
        lemma_joined_front(lines);
        assert(whole =~= head::line_end() + line + behind);
        assert(whole.take(2) =~= head::line_end());
        let t = whole.skip(2);
        assert(t =~= line + behind);
        assert(is_line(lines[0]));
        if rest.len() > 0 {
            lemma_joined_front(rest);
        }
        assert(behind.len() == 0 || (behind.len() >= 2 && behind[0] == CR && behind[1] == LF)) by {
            if rest.len() > 0 {
                assert(behind[0] == CR);
            } else {
                assert(behind =~= tail);
                if tail.len() > 0 {
                    assert(tail.take(2)[0] == tail[0] && tail.take(2)[1] == tail[1]);
                }
            }
        }
        let n = line.len() as int;
        assert forall|j: int| 0 <= j < n implies !#[trigger] text::occurs_at(
            t,
            head::line_end(),
            j,
        ) by {
            if text::occurs_at(t, head::line_end(), j) {
                assert(t.subrange(j, j + 2)[1] == t[j + 1]);
                if j + 2 <= n {
                    assert(line.subrange(j, j + 2) =~= t.subrange(j, j + 2));
                    assert(text::occurs_at(line, head::line_end(), j));
                } else {
                    assert(t[j + 1] == behind[0]);
                }
            }
        }
        if behind.len() == 0 {
            text::lemma_first_occurrence(t, head::line_end());
            assert(t =~= line);
        } else {
            assert(t.subrange(n, n + 2) =~= head::line_end());
            text::lemma_first_occurrence_unique(t, head::line_end(), n);
        }
        assert(next_line(whole) =~= line);
        assert(whole.skip(2int + line.len()) =~= behind);
        assert forall|i: int| 0 <= i < rest.len() implies is_line(#[trigger] rest[i]) by {
            assert(rest[i] == lines[i + 1]);
        }
        lemma_joined_taken_apart(rest, tail);
        assert(seq![line] + rest =~= lines);
    }
}

/// The lines that are kept are lines of the list, and no `Host` fields.
proof fn lemma_without_host(lines: Seq<Seq<u8>>)
    ensures
        forall|i: int|
            0 <= i < without_host(lines).len() ==> !is_host_line(
                #[trigger] without_host(lines)[i],
            ) && lines.contains(without_host(lines)[i]),
    decreases lines.len(),
{
    if lines.len() > 0 {
        let init = lines.drop_last();
        let kept = without_host(init);
        lemma_without_host(init);
        assert forall|i: int| 0 <= i < without_host(lines).len() implies !is_host_line(
            #[trigger] without_host(lines)[i],
        ) && lines.contains(without_host(lines)[i]) by {
            if i < kept.len() {
                assert(without_host(lines)[i] == kept[i]);
                let j = choose|j: int| 0 <= j < init.len() && init[j] == kept[i];
                assert(lines[j] == kept[i]);
            } else {
                assert(lines[lines.len() - 1] == without_host(lines)[i]);
            }
        }
    }
}

/// The new `Host` field is one, and can stand as a line.
proof fn lemma_host_line(authority: Seq<char>)
    requires
        forall|i: int| 0 <= i < authority.len() ==> #[trigger] authority[i] != '\r',
    ensures
        is_host_line(host_line(authority)),
        is_line(host_line(authority)),
{
    let front = vstd::utf8::encode_utf8("Host: "@);
    let name = vstd::utf8::encode_utf8("host:"@);
    let value = vstd::utf8::encode_utf8(authority);
    let line = host_line(authority);
    reveal_strlit("Host: ");
    reveal_strlit("host:");
    vstd::utf8::is_ascii_chars_encode_utf8("Host: "@);
    vstd::utf8::is_ascii_chars_encode_utf8("host:"@);
    assert(front =~= seq![72u8, 111u8, 115u8, 116u8, 58u8, 32u8]);
    assert(name =~= seq![104u8, 111u8, 115u8, 116u8, 58u8]);
    assert(bytes_lowered(line).take(5) =~= name);
    vstd::utf8::encode_utf8_valid_utf8(authority);
    vstd::utf8::encode_utf8_decode_utf8(authority);
    head::lemma_line_end_in_text(value);
    text::lemma_first_occurrence(value, head::line_end());
    text::lemma_first_occurrence(authority, text::crlf());
    if let Some(k) = text::first_occurrence(authority, text::crlf()) {
        assert(authority.subrange(k, k + 2)[0] == authority[k]);
    }
    assert forall|j: int| !#[trigger] text::occurs_at(line, head::line_end(), j) by {
        if text::occurs_at(line, head::line_end(), j) {
            assert(line.subrange(j, j + 2)[0] == line[j]);
            if j >= 6 {
                assert(value.subrange(j - 6, j - 4) =~= line.subrange(j, j + 2));
                assert(text::occurs_at(value, head::line_end(), j - 6));
            }
        }
    }
}

/// After the `Host` field has been written anew, the fields are: first a `Host` field for the
/// authority, then all fields that were there, in their order, but for `Host` fields. What
/// follows the fields is as it was.
pub proof fn law_host_is_written_anew(rest: Seq<u8>, authority: Seq<char>)
    requires
        text::starts_with(rest, head::line_end()),
        forall|i: int| 0 <= i < authority.len() ==> #[trigger] authority[i] != '\r',
    ensures
        ({
            let sent = with_host(rest, authority);
            let kept = without_host(field_lines(rest));
            &&& field_lines(sent) == seq![host_line(authority)] + kept
            &&& after_fields(sent) == after_fields(rest)
            &&& is_host_line(host_line(authority))
            &&& forall|i: int| 0 <= i < kept.len() ==> !is_host_line(#[trigger] kept[i])
        }),
{
    let lines = field_lines(rest);
    let kept = without_host(lines);
    let sent = seq![host_line(authority)] + kept;
    lemma_taken_apart(rest);
    lemma_without_host(lines);
    lemma_host_line(authority);
    assert forall|i: int| 0 <= i < sent.len() implies is_line(#[trigger] sent[i]) by {
        if i > 0 {
            assert(sent[i] == kept[i - 1]);
            let j = choose|j: int| 0 <= j < lines.len() && lines[j] == kept[i - 1];
            assert(is_line(lines[j]));
        }
    }
    lemma_joined_taken_apart(sent, after_fields(rest));
}

} // verus!
