//! Laws of reading text: words, lines, numbers, hosts and request targets.

use crate::authority;
use crate::text;
use crate::text::CharClass;
use vstd::prelude::*;

verus! {

/// Everything in the text is white space.
pub open spec fn blank(s: Seq<char>) -> bool {
    forall|i: int| 0 <= i < s.len() ==> text::is_white_space(#[trigger] s[i])
}

/// White space is what Unicode calls so: these characters, by their code points, and no others.
pub proof fn law_white_space(c: char)
    ensures
        ({
            let n = c as int;
            text::is_white_space(c) <==> 9 <= n <= 13 || n == 32 || n == 133 || n == 160 || n
                == 5760 || 8192 <= n <= 8202 || n == 8232 || n == 8233 || n == 8239 || n == 8287
                || n == 12288
        }),
{
}

/// A pattern stands where its elements stand one after the other, all of them; to begin with it is
/// to hold it at the start.
pub proof fn law_patterns<T>(s: Seq<T>, pat: Seq<T>, i: int)
    ensures
        text::occurs_at(s, pat, i) <==> 0 <= i && i + pat.len() <= s.len() && forall|j: int|
            0 <= j < pat.len() ==> s[i + j] == #[trigger] pat[j],
        text::starts_with(s, pat) <==> text::occurs_at(s, pat, 0),
{
    if text::occurs_at(s, pat, i) {
        let found = s.subrange(i, i + pat.len());
        assert forall|j: int| 0 <= j < pat.len() implies s[i + j] == #[trigger] pat[j] by {
            assert(found[j] == s[i + j]);
        }
    }
    if 0 <= i && i + pat.len() <= s.len() && forall|j: int|
        0 <= j < pat.len() ==> s[i + j] == #[trigger] pat[j] {
        assert(s.subrange(i, i + pat.len()) =~= pat);
    }
    if pat.len() <= s.len() {
        assert(s.subrange(0, 0int + pat.len()) =~= s.take(pat.len() as int));
    }
}

/// A search finds the first place at which a pattern stands, and nothing only where it stands
/// nowhere.
pub proof fn law_searching<T>(s: Seq<T>, pat: Seq<T>, j: int)
    ensures
        text::first_occurrence(s, pat) matches Some(i) ==> text::occurs_at(s, pat, i) && (
        text::occurs_at(s, pat, j) ==> i <= j),
        text::first_occurrence(s, pat) is None ==> !text::occurs_at(s, pat, j),
        text::occurs_at(s, pat, j) ==> text::occurs(s, pat),
        text::occurs(s, pat) <==> text::first_occurrence(s, pat) is Some,
{
    text::lemma_first_occurrence(s, pat);
}

/// Words are what white space parts: in a gap followed by a word that the text or white space
/// ends, that word is the first, the words of the rest are the next ones, and a gap alone holds
/// none.
pub proof fn law_words(gap: Seq<char>, word: Seq<char>, rest: Seq<char>, k: nat)
    requires
        blank(gap),
        word.len() > 0,
        forall|i: int| 0 <= i < word.len() ==> !text::is_white_space(#[trigger] word[i]),
        rest.len() > 0 ==> text::is_white_space(rest[0]),
    ensures
        text::word_at(gap + word + rest, 0) == Some(word),
        text::word_at(gap + word + rest, k + 1) == text::word_at(rest, k),
        text::word_at(gap, k) is None,
{
    let s = gap + word + rest;
    let n = gap.len() as int;
    assert forall|i: int| 0 <= i < n implies !CharClass::NotSpace.holds(#[trigger] s[i]) by {
        assert(s[i] == gap[i]);
    }
    assert(s[n] == word[0]);
    text::lemma_first_in_unique(s, CharClass::NotSpace, n);
    assert(s.skip(n) =~= word + rest);
    let t = word + rest;
    assert forall|i: int| 0 <= i < word.len() implies !CharClass::Space.holds(#[trigger] t[i]) by {
        assert(t[i] == word[i]);
    }
    text::lemma_first_in_unique(t, CharClass::Space, word.len() as int);
    assert(t.take(word.len() as int) =~= word);
    assert(t.skip(word.len() as int) =~= rest);
    assert forall|i: int| 0 <= i < gap.len() implies !CharClass::NotSpace.holds(
        #[trigger] gap[i],
    ) by {}
    text::lemma_first_in_unique(gap, CharClass::NotSpace, n);
    assert(gap.skip(n).len() == 0);
}

/// Where a word is missing, the request line is read with a default for it.
pub proof fn law_missing_words(line: Seq<char>)
    ensures
        text::word_at(line, 0) is None ==> crate::proxy::method_of(line) == "GET"@,
        text::word_at(line, 1) is None ==> crate::proxy::target_of(line) == "/"@,
        text::word_at(line, 2) is None ==> crate::proxy::version_of(line) == "HTTP/1.1"@,
        text::word_at(line, 0) matches Some(w) ==> crate::proxy::method_of(line) == w,
        text::word_at(line, 1) matches Some(w) ==> crate::proxy::target_of(line) == w,
        text::word_at(line, 2) matches Some(w) ==> crate::proxy::version_of(line) == w,
        text::word_at(line, 1) is None ==> crate::proxy::connect_target(line).len() == 0,
        text::word_at(line, 1) matches Some(w) ==> crate::proxy::connect_target(line) == w,
{
    reveal_strlit("");
}

/// Text is trimmed by taking white space off both ends, and nothing else.
pub proof fn law_trimmed(before: Seq<char>, s: Seq<char>, after: Seq<char>)
    requires
        blank(before),
        blank(after),
        s.len() > 0 ==> !text::is_white_space(s[0]) && !text::is_white_space(s.last()),
    ensures
        text::trimmed(before + s + after) == s,
{
    let whole = before + s + after;
    let n = before.len() as int;
    if s.len() == 0 {
        assert forall|i: int| 0 <= i < whole.len() implies !CharClass::NotSpace.holds(
            #[trigger] whole[i],
        ) by {
            if i < n {
                assert(whole[i] == before[i]);
            } else {
                assert(whole[i] == after[i - n]);
            }
        }
        text::lemma_first_in_unique(whole, CharClass::NotSpace, whole.len() as int);
        let t = whole.skip(whole.len() as int);
        text::lemma_last_in(t, CharClass::NotSpace);
        assert(text::trimmed(whole) =~= s);
    } else {
        assert forall|i: int| 0 <= i < n implies !CharClass::NotSpace.holds(
            #[trigger] whole[i],
        ) by {
            assert(whole[i] == before[i]);
        }
        assert(whole[n] == s[0]);
        text::lemma_first_in_unique(whole, CharClass::NotSpace, n);
        let t = whole.skip(n);
        assert(t =~= s + after);
        let k = s.len() - 1;
        assert(t[k] == s.last());
        assert forall|i: int| k < i < t.len() implies !CharClass::NotSpace.holds(
            #[trigger] t[i],
        ) by {
            assert(t[i] == after[i - s.len()]);
        }
        text::lemma_last_in_unique(t, CharClass::NotSpace, k);
        assert(t.take(k + 1) =~= s);
    }
}

/// `s` holds no carriage return with a line feed behind it.
pub open spec fn one_line(s: Seq<char>) -> bool {
    forall|i: int| 0 <= i < s.len() - 1 ==> !(#[trigger] s[i] == '\r' && s[i + 1] == '\n')
}

/// Lines are what carriage returns with line feeds part: text without them is a line, and in
/// front of one it is the first line, with the lines of the rest behind it.
pub proof fn law_lines(line: Seq<char>, rest: Seq<char>)
    requires
        one_line(line),
    ensures
        text::lines(line) == seq![line],
        text::lines(line + seq!['\r', '\n'] + rest) == seq![line] + text::lines(rest),
{
    let n = line.len() as int;
    let s = line + seq!['\r', '\n'] + rest;
    text::lemma_first_occurrence(line, text::crlf());
    if let Some(j) = text::first_occurrence(line, text::crlf()) {
        assert(line.subrange(j, j + 2)[0] == line[j]);
        assert(line.subrange(j, j + 2)[1] == line[j + 1]);
    }
    assert(s.subrange(n, n + 2) =~= text::crlf());
    assert forall|j: int| 0 <= j < n implies !#[trigger] text::occurs_at(s, text::crlf(), j) by {
        if text::occurs_at(s, text::crlf(), j) {
            assert(s.subrange(j, j + 2)[0] == s[j]);
            assert(s.subrange(j, j + 2)[1] == s[j + 1]);
            assert(s[j] == line[j]);
        }
    }
    text::lemma_first_occurrence_unique(s, text::crlf(), n);
    assert(s.take(n) =~= line);
    assert(s.skip(n + 2) =~= rest);
}

/// The text is made of decimal digits, one at least.
pub open spec fn all_digits(s: Seq<char>) -> bool {
    s.len() > 0 && forall|i: int| 0 <= i < s.len() ==> '0' <= #[trigger] s[i] <= '9'
}

/// Numbers are read digit by digit, the most significant first: one digit is its value, and one
/// more makes ten times the number and its value, as long as that is no more than 65535. A plus
/// sign in front changes nothing, and nothing else is a number.
pub proof fn law_numbers(s: Seq<char>, c: char)
    ensures
        '0' <= c <= '9' ==> text::parsed_u16(seq![c]) == Some((c as int - 48) as u16),
        all_digits(s) && '0' <= c <= '9' ==> text::parsed_u16(s.push(c)) == (match text::parsed_u16(
            s,
        ) {
            Some(n) => if 10 * n + (c as int - 48) <= 65535 {
                Some((10 * n + (c as int - 48)) as u16)
            } else {
                None
            },
            None => None,
        }),
        all_digits(s) ==> text::parsed_u16(seq!['+'] + s) == text::parsed_u16(s),
        !all_digits(s) && !(s.len() > 0 && s[0] == '+' && all_digits(s.drop_first()))
            ==> text::parsed_u16(s) is None,
{
    if '0' <= c <= '9' {
        let one = seq![c];
        reveal_with_fuel(text::digits_value, 2);
        assert(one.drop_last() =~= Seq::<char>::empty());
        assert(one.last() == c);
        assert(text::is_digit(one[0]));
    }
    if all_digits(s) {
        assert forall|i: int| 0 <= i < s.len() implies text::is_digit(#[trigger] s[i]) by {}
        assert(s[0] != '+');
        let plus = seq!['+'] + s;
        assert(plus.drop_first() =~= s);
        if '0' <= c <= '9' {
            let more = s.push(c);
            assert(more.drop_last() =~= s);
            assert(more.last() == c);
            assert(more[0] == s[0]);
            assert forall|i: int| 0 <= i < more.len() implies text::is_digit(
                #[trigger] more[i],
            ) by {
                if i < s.len() {
                    assert(more[i] == s[i]);
                }
            }
            text::lemma_digits_grow(more, s.len() as int);
            assert(more.take(s.len() as int) =~= s);
        }
    }
    if !all_digits(s) && s.len() > 0 && s[0] != '+' {
        let i = choose|i: int| 0 <= i < s.len() && !('0' <= #[trigger] s[i] <= '9');
        assert(!text::is_digit(s[i]));
    }
    if s.len() > 0 && s[0] == '+' && !all_digits(s.drop_first()) {
        let d = s.drop_first();
        if d.len() > 0 {
            let i = choose|i: int| 0 <= i < d.len() && !('0' <= #[trigger] d[i] <= '9');
            assert(!text::is_digit(d[i]));
        }
    }
}

/// ASCII text is put in lower case letter by letter: the capitals become the letters that stand
/// 32 places behind them, and all else stays.
pub proof fn law_lower_case(s: Seq<char>)
    ensures
        text::ascii_lowered(s).len() == s.len(),
        forall|i: int|
            0 <= i < s.len() ==> (if 'A' <= s[i] <= 'Z' {
                #[trigger] text::ascii_lowered(s)[i] as int == s[i] as int + 32
            } else {
                text::ascii_lowered(s)[i] == s[i]
            }),
        vstd::utf8::is_ascii_chars(s) ==> text::lowered(s) == text::ascii_lowered(s),
        !vstd::utf8::is_ascii_chars(s) ==> text::lowered(s) == text::unicode_lowercase(s),
{
}

/// A port stands behind the last colon: a number there is the port and what precedes the colon is
/// the host; otherwise there is no port, and all of the text is the host.
pub proof fn law_host_and_port(host: Seq<char>, behind: Seq<char>, whole: Seq<char>)
    requires
        forall|i: int| 0 <= i < behind.len() ==> #[trigger] behind[i] != ':',
        forall|i: int| 0 <= i < whole.len() ==> #[trigger] whole[i] != ':',
    ensures
        authority::host_port(host + seq![':'] + behind) == (match text::parsed_u16(behind) {
            Some(port) => (host, Some(port)),
            None => (host + seq![':'] + behind, None),
        }),
        authority::host_port(whole) == (whole, None::<u16>),
{
    let s = host + seq![':'] + behind;
    let k = host.len() as int;
    assert forall|i: int| k < i < s.len() implies !CharClass::Is(':').holds(#[trigger] s[i]) by {
        assert(s[i] == behind[i - k - 1]);
    }
    text::lemma_last_in_unique(s, CharClass::Is(':'), k);
    assert(s.skip(k + 1) =~= behind);
    assert(s.take(k) =~= host);
    assert forall|i: int| -1 < i < whole.len() implies !CharClass::Is(':').holds(
        #[trigger] whole[i],
    ) by {}
    text::lemma_last_in_unique(whole, CharClass::Is(':'), -1);
}

/// The text begins with the scheme of a request in the clear.
pub open spec fn begins_http(s: Seq<char>) -> bool {
    s.len() >= 7 && s.take(7) == "http://"@
}

/// The text begins with the scheme of a secured request.
pub open spec fn begins_https(s: Seq<char>) -> bool {
    s.len() >= 8 && s.take(8) == "https://"@
}

/// A request target is absolute if and only if it begins with `http://` or `https://`. Its
/// authority then is what stands between that and the first `/`, `?` or `#`, and its path is what
/// follows, with a slash in front where a query follows at once, and a slash alone where neither
/// a path nor a query follows.
pub proof fn law_request_targets(target: Seq<char>, secure: bool, written: Seq<char>, tail: Seq<char>)
    requires
        forall|i: int|
            0 <= i < written.len() ==> #[trigger] written[i] != '/' && written[i] != '?'
                && written[i] != '#',
        tail.len() > 0 ==> tail[0] == '/' || tail[0] == '?' || tail[0] == '#',
        target == (if secure {
            "https://"@
        } else {
            "http://"@
        }) + written + tail,
    ensures
        authority::written_authority(target) == Some(written),
        begins_https(target) == secure,
        begins_http(target) == !secure,
        authority::target_path(target) == (if tail.len() > 0 && tail[0] == '/' {
            tail
        } else if tail.len() > 0 && tail[0] == '?' {
            seq!['/'] + tail
        } else {
            seq!['/']
        }),
        authority::target_authority(target) == Some(
            (
                authority::host_port(written).0,
                if authority::host_port(written).1 == Some(0u16) {
                    None
                } else {
                    authority::host_port(written).1
                },
            ),
        ),
{
    reveal_strlit("http://");
    reveal_strlit("https://");
    let rest = written + tail;
    if secure {
        assert(target.take(8) =~= "https://"@);
        assert(target.take(7) != "http://"@) by {
            assert(target.take(7)[4] == 's');
        }
        assert(target.skip(8) =~= rest);
    } else {
        assert(target.take(7) =~= "http://"@);
        if target.len() >= 8 {
            assert(target.take(8) != "https://"@) by {
                assert(target.take(8)[4] == ':');
            }
        }
        assert(target.skip(7) =~= rest);
    }
    let n = written.len() as int;
    assert forall|i: int| 0 <= i < n implies !CharClass::EndsAuthority.holds(
        #[trigger] rest[i],
    ) by {
        assert(rest[i] == written[i]);
    }
    if tail.len() > 0 {
        assert(rest[n] == tail[0]);
    }
    text::lemma_first_in_unique(rest, CharClass::EndsAuthority, n);
    assert(rest.take(n) =~= written);
    assert(rest.skip(n) =~= tail);
}

/// A target that begins with neither scheme names no authority.
pub proof fn law_other_targets(target: Seq<char>)
    requires
        !begins_http(target),
        !begins_https(target),
    ensures
        authority::written_authority(target) is None,
        authority::target_authority(target) is None,
{
    reveal_strlit("http://");
    reveal_strlit("https://");
}

/// The line begins with `host:`, in any case.
pub open spec fn begins_host(line: Seq<char>) -> bool {
    &&& line.len() >= 5
    &&& line[0] == 'h' || line[0] == 'H'
    &&& line[1] == 'o' || line[1] == 'O'
    &&& line[2] == 's' || line[2] == 'S'
    &&& line[3] == 't' || line[3] == 'T'
    &&& line[4] == ':'
}

/// A line is a `Host` line if and only if it begins with `host:` in any case.
pub proof fn law_host_lines(line: Seq<char>)
    ensures
        authority::host_line_value(line) is Some <==> begins_host(line),
{
    reveal_strlit("host:");
    let low = text::ascii_lowered(line);
    let name = "host:"@;
    if line.len() >= 5 {
        law_lower_case(line);
        if text::starts_with(low, name) {
            assert(low.take(5)[0] == low[0] && low.take(5)[1] == low[1] && low.take(5)[2] == low[2]
                && low.take(5)[3] == low[3] && low.take(5)[4] == low[4]);
        }
        if begins_host(line) {
            assert(low.take(5) =~= name);
        }
    }
}

/// The first `Host` line names the authority: its value, without the white space around it and in
/// lower case, is a host and a port, or a host alone where no port but zero is to be read.
pub proof fn law_first_host_line(
    before: Seq<Seq<char>>,
    name: Seq<char>,
    left: Seq<char>,
    value: Seq<char>,
    right: Seq<char>,
    after: Seq<Seq<char>>,
)
    requires
        forall|i: int| 0 <= i < before.len() ==> !begins_host(#[trigger] before[i]),
        name.len() == 5,
        begins_host(name),
        blank(left),
        blank(right),
        value.len() > 0 ==> !text::is_white_space(value[0]) && !text::is_white_space(value.last()),
    ensures
        ({
            let lower = text::ascii_lowered(value);
            let (host, port) = authority::host_port(lower);
            authority::header_authority(before + seq![name + left + value + right] + after) == Some(
                if port is Some && port != Some(0u16) {
                    (host, port)
                } else {
                    (lower, None)
                },
            )
        }),
    decreases before.len(),
{
    let line = name + left + value + right;
    let lines = before + seq![line] + after;
    if before.len() > 0 {
        law_host_lines(before[0]);
        assert(lines[0] == before[0]);
        let rest = before.drop_first();
        assert(lines.drop_first() =~= rest + seq![line] + after);
        assert forall|i: int| 0 <= i < rest.len() implies !begins_host(#[trigger] rest[i]) by {
            assert(rest[i] == before[i + 1]);
        }
        law_first_host_line(rest, name, left, value, right, after);
    } else {
        assert(lines[0] == line);
        assert(line[0] == name[0] && line[1] == name[1] && line[2] == name[2] && line[3] == name[3]
            && line[4] == name[4]);
        law_host_lines(line);
        reveal_strlit("host:");
        let low = text::ascii_lowered(line);
        let l = text::ascii_lowered(left);
        let v = text::ascii_lowered(value);
        let r = text::ascii_lowered(right);
        assert(low.skip(5) =~= l + v + r);
        assert forall|i: int| 0 <= i < l.len() implies text::is_white_space(#[trigger] l[i]) by {
            assert(text::is_white_space(left[i]));
        }
        assert forall|i: int| 0 <= i < r.len() implies text::is_white_space(#[trigger] r[i]) by {
            assert(text::is_white_space(right[i]));
        }
        law_trimmed(l, v, r);
    }
}

/// Where no line is a `Host` line, none names an authority.
pub proof fn law_no_host_line(lines: Seq<Seq<char>>)
    requires
        forall|i: int| 0 <= i < lines.len() ==> !begins_host(#[trigger] lines[i]),
    ensures
        authority::header_authority(lines) is None,
    decreases lines.len(),
{
    if lines.len() > 0 {
        law_host_lines(lines[0]);
        let rest = lines.drop_first();
        assert forall|i: int| 0 <= i < rest.len() implies !begins_host(#[trigger] rest[i]) by {
            assert(rest[i] == lines[i + 1]);
        }
        law_no_host_line(rest);
    }
}

/// The canonical form of a host is the host in lower case: what a colon and anything behind it,
/// or dots at its end, add to it makes no difference.
pub proof fn law_canonical(host: Seq<char>, dots: Seq<char>, port: Seq<char>)
    requires
        forall|i: int| 0 <= i < host.len() ==> #[trigger] host[i] != ':',
        host.len() > 0 ==> host.last() != '.',
        forall|i: int| 0 <= i < dots.len() ==> #[trigger] dots[i] == '.',
        port.len() > 0 ==> port[0] == ':',
    ensures
        authority::canonical(host + dots + port) == text::lowered(host),
        vstd::utf8::is_ascii_chars(host) ==> authority::canonical(host + dots + port).len()
            == host.len() && forall|i: int|
            0 <= i < host.len() ==> (if 'A' <= host[i] <= 'Z' {
                #[trigger] authority::canonical(host + dots + port)[i] as int == host[i] as int + 32
            } else {
                authority::canonical(host + dots + port)[i] == host[i]
            }),
{
    let s = host + dots + port;
    let named = host + dots;
    let n = named.len() as int;
    assert forall|i: int| 0 <= i < n implies !CharClass::Is(':').holds(#[trigger] s[i]) by {
        if i < host.len() {
            assert(s[i] == host[i]);
        } else {
            assert(s[i] == dots[i - host.len()]);
        }
    }
    if port.len() > 0 {
        assert(s[n] == port[0]);
    }
    text::lemma_first_in_unique(s, CharClass::Is(':'), n);
    assert(s.take(n) =~= named);
    assert forall|i: int| host.len() - 1 < i < n implies !CharClass::IsNot('.').holds(
        #[trigger] named[i],
    ) by {
        assert(named[i] == dots[i - host.len()]);
    }
    if host.len() > 0 {
        assert(named[host.len() - 1] == host.last());
    }
    text::lemma_last_in_unique(named, CharClass::IsNot('.'), host.len() - 1);
    assert(text::without_trailing(named, '.') =~= host);
    law_lower_case(host);
}

} // verus!
