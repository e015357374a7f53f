//! Reading a request head off a connection, piece by piece, up to the empty line that ends it.

use crate::text;
use vstd::prelude::*;

verus! {

/// A head longer than this, in bytes, is given up as soon as it has no end in sight.
pub const HEAD_LIMIT: usize = 65536;

/// What a connection is refused with when its head is too long.
pub const HEADERS_TOO_LARGE: &'static str = "headers too large";

/// The byte of a carriage return.
pub const CR: u8 = 13;

/// The byte of a line feed.
pub const LF: u8 = 10;

/// The bytes that end a line of the head.
pub open spec fn line_end() -> Seq<u8> {
    seq![CR, LF]
}

/// The bytes that end the head: an empty line.
pub open spec fn head_end() -> Seq<u8> {
    seq![CR, LF, CR, LF]
}

/// Whether `pat` stands in `s` at index `i`.
fn bytes_at(s: &[u8], pat: &[u8], i: usize) -> (b: bool)
    requires
        i <= s@.len(),
    ensures
        b == text::occurs_at(s@, pat@, i as int),
{
    if pat.len() > s.len() - i {
        return false;
    }
    let mut k: usize = 0;
    while k < pat.len()
        invariant
            k <= pat@.len(),
            i + pat@.len() <= s.len(),
            forall|j: int| 0 <= j < k ==> s@[i + j] == #[trigger] pat@[j],
        decreases pat@.len() - k,
    {
        if s[i + k] != pat[k] {
            assert(s@.subrange(i as int, i + pat@.len())[k as int] != pat@[k as int]);
            return false;
        }
        k += 1;
    }
    assert(s@.subrange(i as int, i + pat@.len()) =~= pat@);
    true
}

/// Finds where `pat` first stands in `s`.
pub fn find_bytes(s: &[u8], pat: &[u8]) -> (r: Option<usize>)
    requires
        pat@.len() > 0,
    ensures
        match r {
            Some(i) => text::first_occurrence(s@, pat@) == Some(i as int),
            None => text::first_occurrence(s@, pat@) is None,
        },
{
    let mut i: usize = 0;
    while i < s.len()
        invariant
            i <= s@.len(),
            forall|j: int| 0 <= j < i ==> !#[trigger] text::occurs_at(s@, pat@, j),
        decreases s@.len() - i,
    {
        if bytes_at(s, pat, i) {
            proof {
                text::lemma_first_occurrence_unique(s@, pat@, i as int);
            }
            return Some(i);
        }
        i += 1;
    }
    proof {
        text::lemma_first_occurrence(s@, pat@);
    }
    None
}

/// Whether `needle`, which must not be empty, stands anywhere in `haystack`.
pub fn find_subslice(haystack: &[u8], needle: &[u8]) -> (b: bool)
    requires
        needle@.len() > 0,
    ensures
        b == text::occurs(haystack@, needle@),
{
    proof {
        text::lemma_first_occurrence(haystack@, needle@);
    }
    match find_bytes(haystack, needle) {
        Some(i) => {
            assert(text::occurs_at(haystack@, needle@, i as int));
            true
        },
        None => false,
    }
}

/// Whether `s` begins with `pat`.
pub fn begins_with(s: &[u8], pat: &[u8]) -> (b: bool)
    ensures
        b == text::starts_with(s@, pat@),
{
    assert(pat@.len() <= s@.len() ==> s@.subrange(0, 0 + pat@.len() as int) == s@.take(
        pat@.len() as int,
    ));
    bytes_at(s, pat, 0)
}

/// The bytes begin with a character, in UTF-8, that is white space.
pub open spec fn opens_with_space(s: Seq<u8>) -> bool {
    vstd::utf8::valid_first_scalar(s) && text::is_white_space(
        vstd::utf8::decode_first_scalar(s) as char,
    )
}

/// Whether a scalar below the surrogates is that of a white-space character.
fn is_space_scalar(scalar: u32) -> (b: bool)
    requires
        scalar < 0xd800,
    ensures
        b == text::is_white_space(scalar as char),
{
    (0x9 <= scalar && scalar <= 0xd) || scalar == 0x20 || scalar == 0x85 || scalar == 0xa0 || scalar
        == 0x1680 || (0x2000 <= scalar && scalar <= 0x200a) || scalar == 0x2028 || scalar == 0x2029
        || scalar == 0x202f || scalar == 0x205f || scalar == 0x3000
}

/// Whether the bytes begin with white space.
pub fn begins_with_space(s: &[u8]) -> (b: bool)
    ensures
        b == opens_with_space(s@),
{
    if s.len() == 0 {
        return false;
    }
    let b1: u8 = s[0];
    if b1 <= 0x7f {
        let scalar: u32 = (b1 & 0x7f) as u32;
        assert((b1 & 0x7f) as u32 <= 0x7f) by (bit_vector);
        return is_space_scalar(scalar);
    }
    if s.len() >= 2 && 0xc0 <= b1 && b1 <= 0xdf && 0x80 <= s[1] && s[1] <= 0xbf {
        let b2: u8 = s[1];
        let scalar: u32 = (((b1 & 0x1f) as u32) << 6) | ((b2 & 0x3f) as u32);
        assert((((b1 & 0x1f) as u32) << 6) | ((b2 & 0x3f) as u32) <= 0x7ff) by (bit_vector);
        return scalar >= 0x80 && is_space_scalar(scalar);
    }
    if s.len() >= 3 && 0xe0 <= b1 && b1 <= 0xef && 0x80 <= s[1] && s[1] <= 0xbf && 0x80 <= s[2]
        && s[2] <= 0xbf {
        let b2: u8 = s[1];
        let b3: u8 = s[2];
        let scalar: u32 = (((b1 & 0x0f) as u32) << 12) | (((b2 & 0x3f) as u32) << 6) | ((b3
            & 0x3f) as u32);
        if scalar < 0xd800 {
            return scalar >= 0x800 && is_space_scalar(scalar);
        }
    }
    proof {
        lemma_no_space_beyond(s@);
    }
    false
}

/// No white space has a scalar above the surrogates.
proof fn lemma_no_space_beyond(s: Seq<u8>)
    ensures
        opens_with_space(s) ==> vstd::utf8::decode_first_scalar(s) < 0xd800
            && vstd::utf8::length_of_first_scalar(s) <= 3,
{
    if opens_with_space(s) {
        let scalar = vstd::utf8::decode_first_scalar(s);
        if vstd::utf8::is_leading_byte_width_3(s[0]) {
            let b1 = s[0];
            let b2 = s[1];
            let b3 = s[2];
            assert((((b1 & 0x0f) as u32) << 12) | (((b2 & 0x3f) as u32) << 6) | ((b3 & 0x3f) as u32)
                <= 0xffff) by (bit_vector);
        } else if vstd::utf8::is_leading_byte_width_2(s[0]) {
            let b1 = s[0];
            let b2 = s[1];
            assert((((b1 & 0x1f) as u32) << 6) | ((b2 & 0x3f) as u32) <= 0x7ff) by (bit_vector);
        } else if vstd::utf8::is_leading_byte_width_1(s[0]) {
            let b1 = s[0];
            assert((b1 & 0x7f) as u32 <= 0x7f) by (bit_vector);
        }
        assert(vstd::utf8::is_scalar(scalar));
        assert((scalar as char) as u32 == scalar);
    }
}

/// How far the head has been read.
#[derive(Clone, Copy, Debug, PartialEq, Eq)]
pub enum HeadStatus {
    /// The head is there, or the peer sends no more.
    Complete,
    /// More has to be read.
    More,
    /// The head has no end within the limit.
    TooLarge,
}

/// The state of a head of which `buf` has been read, `chunk` last.
pub open spec fn head_status(buf: Seq<u8>, chunk: Seq<u8>) -> HeadStatus {
    if chunk.len() == 0 || text::occurs(buf, head_end()) {
        HeadStatus::Complete
    } else if buf.len() > HEAD_LIMIT {
        HeadStatus::TooLarge
    } else {
        HeadStatus::More
    }
}

/// The bytes of a request head as they arrive.
pub struct HeadReader {
    /// Everything that has arrived so far.
    pub buf: Vec<u8>,
}

impl HeadReader {
    /// Nothing has arrived yet.
    pub fn new() -> (r: HeadReader)
        ensures
            r.buf@ == Seq::<u8>::empty(),
    {
        HeadReader { buf: Vec::with_capacity(4096) }
    }

    /// Takes in what one read returned; an empty chunk means that the peer sends no more.
    pub fn feed(&mut self, chunk: &[u8]) -> (status: HeadStatus)
        ensures
            final(self).buf@ == old(self).buf@ + chunk@,
            status == head_status(final(self).buf@, chunk@),
    {
        if chunk.len() == 0 {
            assert(self.buf@ + chunk@ =~= self.buf@);
            return HeadStatus::Complete;
        }
        let ghost before = self.buf@;
        self.buf.extend_from_slice(chunk);
        assert(self.buf@ =~= before + chunk@);
        let end: [u8; 4] = [CR, LF, CR, LF];
        assert(end@ =~= head_end());
        if find_subslice(self.buf.as_slice(), end.as_slice()) {
            HeadStatus::Complete
        } else if self.buf.len() > HEAD_LIMIT {
            HeadStatus::TooLarge
        } else {
            HeadStatus::More
        }
    }
}

/// As long as more has to be read, what has arrived is within the limit and holds no end of
/// the head.
pub proof fn law_more_means_within_limit(buf: Seq<u8>, chunk: Seq<u8>)
    requires
        head_status(buf, chunk) == HeadStatus::More,
    ensures
        buf.len() <= HEAD_LIMIT,
        !text::occurs(buf, head_end()),
{
}

/// It does not matter whether bytes arrive in one piece or in two: where the reader asks for
/// more after the first piece, the second leaves it as both at once would.
pub proof fn law_pieces_do_not_matter(buf: Seq<u8>, first: Seq<u8>, second: Seq<u8>)
    requires
        second.len() > 0,
        head_status(buf + first, first) == HeadStatus::More,
    ensures
        (buf + first) + second == buf + (first + second),
        head_status((buf + first) + second, second) == head_status(
            buf + (first + second),
            first + second,
        ),
{
    assert((buf + first) + second =~= buf + (first + second));
}

/// All bytes of the chunks, in order.
pub open spec fn arrived(chunks: Seq<Seq<u8>>) -> Seq<u8>
    decreases chunks.len(),
{
    if chunks.len() == 0 {
        Seq::empty()
    } else {
        arrived(chunks.drop_last()) + chunks.last()
    }
}

/// Where reading stands after the reads that returned `chunks`: what was kept, and the status
/// after the read that ended it, or after the last one. What comes after the end is not read.
pub open spec fn reading(chunks: Seq<Seq<u8>>) -> (Seq<u8>, HeadStatus)
    decreases chunks.len(),
{
    if chunks.len() == 0 {
        (Seq::empty(), HeadStatus::More)
    } else {
        let (buf, status) = reading(chunks.drop_last());
        if status == HeadStatus::More {
            (buf + chunks.last(), head_status(buf + chunks.last(), chunks.last()))
        } else {
            (buf, status)
        }
    }
}

/// Reading goes on after the chunks: the last of them is not empty, and together they hold no
/// end of the head and are within the limit.
pub open spec fn goes_on(chunks: Seq<Seq<u8>>) -> bool {
    &&& chunks.last().len() > 0
    &&& !text::occurs(arrived(chunks), head_end())
    &&& arrived(chunks).len() <= HEAD_LIMIT
}

/// As long as reading goes on, everything that arrived is kept.
pub proof fn law_reading_goes_on(chunks: Seq<Seq<u8>>)
    requires
        forall|m: int| 0 < m <= chunks.len() ==> goes_on(#[trigger] chunks.take(m)),
    ensures
        reading(chunks) == (arrived(chunks), HeadStatus::More),
    decreases chunks.len(),
{
    if chunks.len() > 0 {
        let init = chunks.drop_last();
        assert forall|m: int| 0 < m <= init.len() implies goes_on(#[trigger] init.take(m)) by {
            assert(init.take(m) =~= chunks.take(m));
        }
        law_reading_goes_on(init);
        assert(chunks.take(chunks.len() as int) =~= chunks);
    }
}

/// What is read is the shortest run of chunks after which reading does not go on, however many
/// follow. The head is complete if that run holds its end or its last chunk is empty, and too
/// large exactly where the run, without the end, exceeds the limit.
pub proof fn law_head_is_the_shortest_run(chunks: Seq<Seq<u8>>, n: int)
    requires
        0 < n <= chunks.len(),
        !goes_on(chunks.take(n)),
        forall|m: int| 0 < m < n ==> goes_on(#[trigger] chunks.take(m)),
    ensures
        ({
            let run = arrived(chunks.take(n));
            let ended = chunks[n - 1].len() == 0 || text::occurs(run, head_end());
            &&& reading(chunks).0 == run
            &&& reading(chunks).1 == HeadStatus::Complete <==> ended
            &&& reading(chunks).1 == HeadStatus::TooLarge <==> !ended && run.len() > HEAD_LIMIT
            &&& reading(chunks).1 != HeadStatus::More
        }),
    decreases chunks.len(),
{
    let init = chunks.drop_last();
    if n < chunks.len() {
        assert(init.take(n) =~= chunks.take(n));
        assert forall|m: int| 0 < m < n implies goes_on(#[trigger] init.take(m)) by {
            assert(init.take(m) =~= chunks.take(m));
        }
        law_head_is_the_shortest_run(init, n);
    } else {
        assert(chunks.take(n) =~= chunks);
        assert forall|m: int| 0 < m <= init.len() implies goes_on(#[trigger] init.take(m)) by {
            assert(init.take(m) =~= chunks.take(m));
        }
        law_reading_goes_on(init);
    }
}

/// Of valid UTF-8, the part before the first line end reads the same whether the line end is
/// looked for in the bytes or in the text.
pub proof fn lemma_line_end_in_text(bytes: Seq<u8>)
    requires
        vstd::utf8::valid_utf8(bytes),
    ensures
        match text::first_occurrence(bytes, line_end()) {
            Some(i) => text::first_occurrence(vstd::utf8::decode_utf8(bytes), text::crlf()) matches Some(
                k,
            ) && 0 <= k <= vstd::utf8::decode_utf8(bytes).len() && 0 <= i <= bytes.len()
                && vstd::utf8::encode_utf8(vstd::utf8::decode_utf8(bytes).take(k)) == bytes.take(i),
            None => text::first_occurrence(
                vstd::utf8::decode_utf8(bytes),
                text::crlf(),
            ) is None,
        },
    decreases bytes.len(),
{
    let content = vstd::utf8::decode_utf8(bytes);
    text::lemma_first_occurrence(bytes, line_end());
    text::lemma_first_occurrence(content, text::crlf());
    if bytes.len() == 0 {
        assert(!text::occurs_at(bytes, line_end(), 0));
        assert(!text::occurs_at(content, text::crlf(), 0));
    } else {
        let n = vstd::utf8::length_of_first_scalar(bytes);
        let rest = vstd::utf8::pop_first_scalar(bytes);
        let c = vstd::utf8::decode_first_scalar(bytes) as char;
        let tail = vstd::utf8::decode_utf8(rest);
        assert(content == seq![c] + tail);
        assert(content.drop_first() =~= tail);
        lemma_first_char(bytes);
        if rest.len() > 0 {
            lemma_first_char(rest);
            assert(tail[0] == vstd::utf8::decode_first_scalar(rest) as char);
        }
        assert(text::occurs_at(bytes, line_end(), 0) == text::occurs_at(
            content,
            text::crlf(),
            0,
        )) by {
            if text::occurs_at(bytes, line_end(), 0) {
                assert(bytes[0] == line_end()[0] && bytes[1] == line_end()[1]) by {
                    assert(bytes.subrange(0, 0 + line_end().len() as int)[0] == bytes[0]);
                    assert(bytes.subrange(0, 0 + line_end().len() as int)[1] == bytes[1]);
                }
                assert(content.subrange(0, 0 + text::crlf().len() as int) =~= text::crlf());
            }
            if text::occurs_at(content, text::crlf(), 0) {
                assert(content[0] == text::crlf()[0] && content[1] == text::crlf()[1]) by {
                    assert(content.subrange(0, 0 + text::crlf().len() as int)[0] == content[0]);
                    assert(content.subrange(0, 0 + text::crlf().len() as int)[1] == content[1]);
                }
                assert(bytes.subrange(0, 0 + line_end().len() as int) =~= line_end());
            }
        }
        if text::occurs_at(bytes, line_end(), 0) {
            assert(content.take(0) =~= Seq::<char>::empty());
            assert(bytes.take(0) =~= Seq::<u8>::empty());
        } else {
            lemma_line_end_in_text(rest);
            lemma_skip_first_char(bytes);
            match text::first_occurrence(rest, line_end()) {
                Some(i) => {
                    let k = text::first_occurrence(tail, text::crlf())->0;
                    assert(content.take(k + 1).drop_first() =~= tail.take(k));
                    assert(content.take(k + 1)[0] == c);
                    vstd::utf8::decode_utf8_first_scalar(bytes);
                    assert(vstd::utf8::take_first_scalar(bytes) + rest.take(i) =~= bytes.take(
                        n + i,
                    ));
                },
                None => {},
            }
        }
    }
}

/// What precedes the first line end.
pub open spec fn request_line(head: Seq<u8>) -> Seq<u8> {
    match text::first_occurrence(head, line_end()) {
        Some(i) => head.take(i),
        None => head,
    }
}

/// A first line in valid UTF-8 reads the same whatever the bytes behind it.
pub proof fn lemma_first_line_in_text(head: Seq<u8>, content: Seq<char>)
    requires
        vstd::utf8::valid_utf8(request_line(head)),
        text::keeps_valid_start(head, content),
        vstd::utf8::valid_utf8(head) ==> content == vstd::utf8::decode_utf8(head),
    ensures
        text::lines(content)[0] == vstd::utf8::decode_utf8(request_line(head)),
{
    text::lemma_first_occurrence(head, line_end());
    match text::first_occurrence(head, line_end()) {
        Some(i) => {
            let line = head.take(i);
            let start = head.take(i + 2);
            assert(head.subrange(i, i + line_end().len()) =~= line_end());
            assert(start =~= line + line_end());
            lemma_line_end_is_valid();
            vstd::utf8::valid_utf8_concat(line, line_end());
            assert forall|j: int| 0 <= j <= i implies #[trigger] text::occurs_at(
                start,
                line_end(),
                j,
            ) == text::occurs_at(head, line_end(), j) by {
                assert(start.subrange(j, j + 2) =~= head.subrange(j, j + 2));
            }
            text::lemma_first_occurrence_unique(start, line_end(), i);
            lemma_line_end_in_text(start);
            let said = vstd::utf8::decode_utf8(start);
            text::lemma_first_occurrence(said, text::crlf());
            let k = text::first_occurrence(said, text::crlf())->0;
            assert(start.take(i) =~= line);
            vstd::utf8::encode_utf8_decode_utf8(said.take(k));
            assert forall|j: int| 0 <= j <= k implies #[trigger] text::occurs_at(
                content,
                text::crlf(),
                j,
            ) == text::occurs_at(said, text::crlf(), j) by {
                assert(content.take(said.len() as int) == said);
                assert(content.subrange(j, j + 2) =~= said.subrange(j, j + 2));
            }
            text::lemma_first_occurrence_unique(content, text::crlf(), k);
            assert(content.take(k) =~= said.take(k));
        },
        None => {
            lemma_line_end_in_text(head);
        },
    }
}

/// A line end is valid UTF-8.
proof fn lemma_line_end_is_valid()
    ensures
        vstd::utf8::valid_utf8(line_end()),
{
    reveal_with_fuel(vstd::utf8::valid_utf8, 3);
    assert(13u8 & 0x7f == 13u8) by (bit_vector);
    assert(10u8 & 0x7f == 10u8) by (bit_vector);
    let rest = vstd::utf8::pop_first_scalar(line_end());
    assert(rest =~= seq![LF]);
    assert(vstd::utf8::pop_first_scalar(rest) =~= Seq::<u8>::empty());
}

/// The first character of valid UTF-8 is a carriage return or a line feed exactly when the
/// first byte is.
proof fn lemma_first_char(bytes: Seq<u8>)
    requires
        vstd::utf8::valid_utf8(bytes),
        bytes.len() > 0,
    ensures
        (vstd::utf8::decode_first_scalar(bytes) as char == '\r') == (bytes[0] == CR),
        (vstd::utf8::decode_first_scalar(bytes) as char == '\n') == (bytes[0] == LF),
        bytes[0] == CR ==> vstd::utf8::length_of_first_scalar(bytes) == 1,
{
    let c = vstd::utf8::decode_first_scalar(bytes) as char;
    vstd::utf8::decode_utf8_first_scalar(bytes);
    assert(13u8 & 0x7f == 13u8) by (bit_vector);
    assert(10u8 & 0x7f == 10u8) by (bit_vector);
    assert(13u32 & 0x7f == 13u32) by (bit_vector);
    assert(10u32 & 0x7f == 10u32) by (bit_vector);
    let first = vstd::utf8::take_first_scalar(bytes);
    assert(first[0] == bytes[0]);
    if c == '\r' {
        assert(vstd::utf8::encode_scalar(c as u32)[0] == CR);
    }
    if c == '\n' {
        assert(vstd::utf8::encode_scalar(c as u32)[0] == LF);
    }
}

/// A line end that does not open valid UTF-8 is to be found behind its first character.
proof fn lemma_skip_first_char(bytes: Seq<u8>)
    requires
        vstd::utf8::valid_utf8(bytes),
        bytes.len() > 0,
        !text::occurs_at(bytes, line_end(), 0),
    ensures
        text::first_occurrence(bytes, line_end()) == (match text::first_occurrence(
            vstd::utf8::pop_first_scalar(bytes),
            line_end(),
        ) {
            Some(i) => Some(i + vstd::utf8::length_of_first_scalar(bytes)),
            None => None,
        }),
{
    let n = vstd::utf8::length_of_first_scalar(bytes);
    let rest = vstd::utf8::pop_first_scalar(bytes);
    let pat = line_end();
    assert forall|j: int| 0 <= j < n implies !#[trigger] text::occurs_at(bytes, pat, j) by {
        if j > 0 && j + 2 <= bytes.len() {
            assert(bytes.subrange(j, j + pat.len())[0] == bytes[j]);
        }
    }
    assert forall|j: int| n <= j implies #[trigger] text::occurs_at(bytes, pat, j)
        == text::occurs_at(rest, pat, j - n) by {
        if j + 2 <= bytes.len() {
            assert(bytes.subrange(j, j + pat.len()) =~= rest.subrange(j - n, j - n + pat.len()));
        }
    }
    text::lemma_first_occurrence(rest, pat);
    text::lemma_first_occurrence(bytes, pat);
    match text::first_occurrence(rest, pat) {
        Some(i) => {
            assert(text::occurs_at(bytes, pat, i + n));
            assert forall|j: int| 0 <= j < i + n implies !#[trigger] text::occurs_at(
                bytes,
                pat,
                j,
            ) by {
                if j >= n {
                    assert(!text::occurs_at(rest, pat, j - n));
                }
            }
            text::lemma_first_occurrence_unique(bytes, pat, i + n);
        },
        None => {
            if let Some(i) = text::first_occurrence(bytes, pat) {
                assert(text::occurs_at(rest, pat, i - n));
            }
        },
    }
}

} // verus!
