//! Text primitives: searching, trimming, splitting into words and lines, case
//! folding and number parsing, all described over sequences of characters.

use vstd::prelude::*;
use vstd::slice::slice_subrange;

verus! {

/// The characters with the Unicode property `White_Space`.
pub open spec fn is_white_space(c: char) -> bool {
    ||| '\u{9}' <= c <= '\u{d}'
    ||| c == ' '
    ||| c == '\u{85}'
    ||| c == '\u{a0}'
    ||| c == '\u{1680}'
    ||| '\u{2000}' <= c <= '\u{200a}'
    ||| c == '\u{2028}'
    ||| c == '\u{2029}'
    ||| c == '\u{202f}'
    ||| c == '\u{205f}'
    ||| c == '\u{3000}'
}

/// Whether `c` has the Unicode property `White_Space`.
pub fn white_space(c: char) -> (b: bool)
    ensures
        b == is_white_space(c),
{
    ('\u{9}' <= c && c <= '\u{d}') || c == ' ' || c == '\u{85}' || c == '\u{a0}' || c == '\u{1680}'
        || ('\u{2000}' <= c && c <= '\u{200a}') || c == '\u{2028}' || c == '\u{2029}' || c
        == '\u{202f}' || c == '\u{205f}' || c == '\u{3000}'
}

/// The kinds of character that the searches look for.
#[derive(Clone, Copy)]
pub enum CharClass {
    /// Exactly this character.
    Is(char),
    /// Any other character than this one.
    IsNot(char),
    /// A character that ends the authority of a URI: `/`, `?` or `#`.
    EndsAuthority,
    /// White space.
    Space,
    /// Anything but white space.
    NotSpace,
}

impl CharClass {
    /// Whether `c` is of this kind.
    pub open spec fn holds(self, c: char) -> bool {
        match self {
            CharClass::Is(x) => c == x,
            CharClass::IsNot(x) => c != x,
            CharClass::EndsAuthority => c == '/' || c == '?' || c == '#',
            CharClass::Space => is_white_space(c),
            CharClass::NotSpace => !is_white_space(c),
        }
    }

    /// Tests whether `c` is of this kind.
    pub fn test(self, c: char) -> (b: bool)
        ensures
            b == self.holds(c),
    {
        match self {
            CharClass::Is(x) => c == x,
            CharClass::IsNot(x) => c != x,
            CharClass::EndsAuthority => c == '/' || c == '?' || c == '#',
            CharClass::Space => white_space(c),
            CharClass::NotSpace => !white_space(c),
        }
    }
}

/// The index of the first character of kind `class`, or the length if there is none.
pub open spec fn first_in(s: Seq<char>, class: CharClass) -> int
    decreases s.len(),
{
    if s.len() == 0 || class.holds(s[0]) {
        0
    } else {
        1 + first_in(s.drop_first(), class)
    }
}

/// The index of the last character of kind `class`, or -1 if there is none.
pub open spec fn last_in(s: Seq<char>, class: CharClass) -> int
    decreases s.len(),
{
    if s.len() == 0 {
        -1
    } else if class.holds(s.last()) {
        s.len() - 1
    } else {
        last_in(s.drop_last(), class)
    }
}

/// What `first_in` returns is the first hit.
pub proof fn lemma_first_in(s: Seq<char>, class: CharClass)
    ensures
        0 <= first_in(s, class) <= s.len(),
        first_in(s, class) < s.len() ==> class.holds(s[first_in(s, class)]),
        forall|i: int| 0 <= i < first_in(s, class) ==> !class.holds(#[trigger] s[i]),
    decreases s.len(),
{
    if s.len() > 0 && !class.holds(s[0]) {
        let rest = s.drop_first();
        lemma_first_in(rest, class);
        assert forall|i: int| 0 <= i < first_in(s, class) implies !class.holds(
            #[trigger] s[i],
        ) by {
            if i > 0 {
                assert(rest[i - 1] == s[i]);
            }
        }
    }
}

/// An index with no hit before it, and a hit at it or no more text, is what `first_in` returns.
pub proof fn lemma_first_in_unique(s: Seq<char>, class: CharClass, k: int)
    requires
        0 <= k <= s.len(),
        k < s.len() ==> class.holds(s[k]),
        forall|i: int| 0 <= i < k ==> !class.holds(#[trigger] s[i]),
    ensures
        first_in(s, class) == k,
{
    lemma_first_in(s, class);
    let r = first_in(s, class);
    if r < k {
        assert(!class.holds(s[r]));
    } else if k < r {
        assert(!class.holds(s[k]));
    }
}

/// What `last_in` returns is the last hit.
pub proof fn lemma_last_in(s: Seq<char>, class: CharClass)
    ensures
        -1 <= last_in(s, class) < s.len(),
        last_in(s, class) >= 0 ==> class.holds(s[last_in(s, class)]),
        forall|i: int| last_in(s, class) < i < s.len() ==> !class.holds(#[trigger] s[i]),
    decreases s.len(),
{
    if s.len() > 0 && !class.holds(s.last()) {
        let rest = s.drop_last();
        lemma_last_in(rest, class);
        assert forall|i: int| last_in(s, class) < i < s.len() implies !class.holds(
            #[trigger] s[i],
        ) by {
            if i < s.len() - 1 {
                assert(rest[i] == s[i]);
            }
        }
    }
}

/// An index with no hit after it, and a hit at it unless it is -1, is what `last_in` returns.
pub proof fn lemma_last_in_unique(s: Seq<char>, class: CharClass, k: int)
    requires
        -1 <= k < s.len(),
        k >= 0 ==> class.holds(s[k]),
        forall|i: int| k < i < s.len() ==> !class.holds(#[trigger] s[i]),
    ensures
        last_in(s, class) == k,
{
    lemma_last_in(s, class);
    let r = last_in(s, class);
    if r < k {
        assert(!class.holds(s[k]));
    } else if k < r {
        assert(!class.holds(s[r]));
    }
}

/// Finds the first character of kind `class`.
pub fn find_first(s: &[char], class: CharClass) -> (k: usize)
    ensures
        k == first_in(s@, class),
        k <= s@.len(),
{
    let mut k: usize = 0;
    while k < s.len() && !class.test(s[k])
        invariant
            k <= s@.len(),
            forall|i: int| 0 <= i < k ==> !class.holds(#[trigger] s@[i]),
        decreases s@.len() - k,
    {
        k += 1;
    }
    proof {
        lemma_first_in_unique(s@, class, k as int);
    }
    k
}

/// Finds the last character of kind `class`.
pub fn find_last(s: &[char], class: CharClass) -> (k: Option<usize>)
    ensures
        match k {
            Some(i) => i == last_in(s@, class) && i < s@.len(),
            None => last_in(s@, class) == -1,
        },
{
    let mut k: usize = s.len();
    while k > 0
        invariant
            k <= s@.len(),
            forall|i: int| k <= i < s@.len() ==> !class.holds(#[trigger] s@[i]),
        decreases k,
    {
        if class.test(s[k - 1]) {
            proof {
                lemma_last_in_unique(s@, class, k - 1);
            }
            return Some(k - 1);
        }
        k -= 1;
    }
    proof {
        lemma_last_in_unique(s@, class, -1);
    }
    None
}

/// The characters of each string.
pub open spec fn views(v: Seq<String>) -> Seq<Seq<char>> {
    Seq::new(v.len(), |i: int| v[i]@)
}

/// `String::push` puts one character at the end of the string.
pub assume_specification[ String::push ](s: &mut String, c: char)
    ensures
        final(s)@ == old(s)@.push(c),
;

/// The characters of a string, in order.
pub fn chars_of(s: &str) -> (v: Vec<char>)
    ensures
        v@ == s@,
{
    let mut v: Vec<char> = Vec::new();
    for c in it: s.chars()
        invariant
            it.seq() == s@,
            v@ == it.seq().take(it.index()),
    {
        v.push(c);
    }
    v
}

/// The string made of the given characters.
pub fn text_of(s: &[char]) -> (r: String)
    ensures
        r@ == s@,
{
    let mut r: String = String::new();
    let mut k: usize = 0;
    while k < s.len()
        invariant
            k <= s@.len(),
            r@ == s@.take(k as int),
        decreases s@.len() - k,
    {
        r.push(s[k]);
        k += 1;
        assert(s@.take(k as int) == s@.take(k - 1).push(s@[k - 1]));
    }
    assert(s@.take(k as int) == s@);
    r
}

/// `s` without the white space around it.
pub open spec fn trimmed(s: Seq<char>) -> Seq<char> {
    let t = s.skip(first_in(s, CharClass::NotSpace));
    t.take(last_in(t, CharClass::NotSpace) + 1)
}

/// `s` without the white space around it.
pub fn trim(s: &[char]) -> (r: &[char])
    ensures
        r@ == trimmed(s@),
{
    let start: usize = find_first(s, CharClass::NotSpace);
    let t = slice_subrange(s, start, s.len());
    assert(t@ == s@.skip(start as int));
    match find_last(t, CharClass::NotSpace) {
        Some(k) => slice_subrange(t, 0, k + 1),
        None => slice_subrange(t, 0, 0),
    }
}

/// `s` without any `c` at its end.
pub open spec fn without_trailing(s: Seq<char>, c: char) -> Seq<char> {
    s.take(last_in(s, CharClass::IsNot(c)) + 1)
}

/// `s` without any `c` at its end.
pub fn trim_end_of(s: &[char], c: char) -> (r: &[char])
    ensures
        r@ == without_trailing(s@, c),
{
    match find_last(s, CharClass::IsNot(c)) {
        Some(k) => {
            assert(k < s.len());
            slice_subrange(s, 0, k + 1)
        },
        None => slice_subrange(s, 0, 0),
    }
}

/// The `k`-th of the words of `s`, which white space separates, counted from zero.
pub open spec fn word_at(s: Seq<char>, k: nat) -> Option<Seq<char>>
    decreases k,
{
    let t = s.skip(first_in(s, CharClass::NotSpace));
    let n = first_in(t, CharClass::Space);
    if t.len() == 0 {
        None
    } else if k == 0 {
        Some(t.take(n))
    } else {
        word_at(t.skip(n), (k - 1) as nat)
    }
}

/// The `k`-th of the words of `s`, counted from zero.
pub fn nth_word(s: &[char], k: usize) -> (r: Option<&[char]>)
    ensures
        match r {
            Some(w) => word_at(s@, k as nat) == Some(w@),
            None => word_at(s@, k as nat) is None,
        },
{
    let mut rest = s;
    let mut left: usize = k;
    loop
        invariant
            word_at(rest@, left as nat) == word_at(s@, k as nat),
        decreases left,
    {
        let start: usize = find_first(rest, CharClass::NotSpace);
        let t = slice_subrange(rest, start, rest.len());
        assert(t@ == rest@.skip(start as int));
        if t.len() == 0 {
            return None;
        }
        let end: usize = find_first(t, CharClass::Space);
        if left == 0 {
            assert(t@.subrange(0, end as int) == t@.take(end as int));
            return Some(slice_subrange(t, 0, end));
        }
        rest = slice_subrange(t, end, t.len());
        assert(rest@ == t@.skip(end as int));
        left -= 1;
    }
}

/// `w` is a word: it is not empty and holds no white space.
pub open spec fn is_word(w: Seq<char>) -> bool {
    w.len() > 0 && forall|i: int| 0 <= i < w.len() ==> !is_white_space(#[trigger] w[i])
}

/// Every word that is found is a word.
pub proof fn lemma_word_shape(s: Seq<char>, k: nat)
    ensures
        word_at(s, k) matches Some(w) ==> is_word(w),
    decreases k,
{
    let t = s.skip(first_in(s, CharClass::NotSpace));
    let n = first_in(t, CharClass::Space);
    lemma_first_in(s, CharClass::NotSpace);
    lemma_first_in(t, CharClass::Space);
    if t.len() > 0 {
        if k == 0 {
            assert(CharClass::NotSpace.holds(s[first_in(s, CharClass::NotSpace)]));
            assert(t[0] == s[first_in(s, CharClass::NotSpace)]);
            assert(n > 0);
            assert forall|i: int| 0 <= i < n implies !is_white_space(#[trigger] t.take(n)[i]) by {
                assert(!CharClass::Space.holds(t[i]));
            }
        } else {
            lemma_word_shape(t.skip(n), (k - 1) as nat);
        }
    }
}

/// A word that opens the text, with nothing or white space behind it, is the first word, and
/// the words behind it are the next ones.
pub proof fn lemma_leading_word(w: Seq<char>, rest: Seq<char>)
    requires
        is_word(w),
        rest.len() > 0 ==> is_white_space(rest[0]),
    ensures
        word_at(w + rest, 0) == Some(w),
        forall|k: nat| word_at(w + rest, k + 1) == #[trigger] word_at(rest, k),
{
    let s = w + rest;
    assert(s[0] == w[0]);
    lemma_first_in_unique(s, CharClass::NotSpace, 0);
    assert(s.skip(0) =~= s);
    assert forall|i: int| 0 <= i < w.len() implies !CharClass::Space.holds(#[trigger] s[i]) by {
        assert(s[i] == w[i]);
    }
    lemma_first_in_unique(s, CharClass::Space, w.len() as int);
    assert(s.take(w.len() as int) =~= w);
    assert(s.skip(w.len() as int) =~= rest);
}

/// A space in front does not change the words of a text.
pub proof fn lemma_leading_space(s: Seq<char>)
    ensures
        forall|k: nat| word_at(seq![' '] + s, k) == #[trigger] word_at(s, k),
{
    let t = seq![' '] + s;
    lemma_first_in(s, CharClass::NotSpace);
    let n = first_in(s, CharClass::NotSpace);
    assert forall|i: int| 0 <= i < n + 1 implies !CharClass::NotSpace.holds(#[trigger] t[i]) by {
        if i > 0 {
            assert(t[i] == s[i - 1]);
        }
    }
    if n < s.len() {
        assert(t[n + 1] == s[n]);
    }
    lemma_first_in_unique(t, CharClass::NotSpace, n + 1);
    assert(t.skip(n + 1) =~= s.skip(n));
}

/// The words at the start of a text, where white space ends them, are its first words, whatever
/// follows.
pub proof fn lemma_leading_words(start: Seq<char>, s: Seq<char>, k: nat)
    requires
        start.len() > 0,
        is_white_space(start.last()),
        starts_with(s, start),
        word_at(start, k) is Some,
    ensures
        word_at(s, k) == word_at(start, k),
    decreases k,
{
    assert(s.take(start.len() as int) == start);
    assert forall|i: int| 0 <= i < start.len() implies #[trigger] s[i] == start[i] by {
        assert(s.take(start.len() as int)[i] == start[i]);
    }
    let a = first_in(start, CharClass::NotSpace);
    lemma_first_in(start, CharClass::NotSpace);
    lemma_first_in_unique(s, CharClass::NotSpace, a);
    let t = start.skip(a);
    let u = s.skip(a);
    let n = first_in(t, CharClass::Space);
    lemma_first_in(t, CharClass::Space);
    assert(t.last() == start.last());
    assert(n < t.len()) by {
        if n == t.len() {
            assert(!CharClass::Space.holds(t[t.len() - 1]));
        }
    }
    assert forall|i: int| 0 <= i < n implies !CharClass::Space.holds(#[trigger] u[i]) by {
        assert(u[i] == t[i]);
    }
    assert(u[n] == t[n]);
    lemma_first_in_unique(u, CharClass::Space, n);
    if k == 0 {
        assert(u.take(n) =~= t.take(n));
    } else {
        let t2 = t.skip(n);
        let u2 = u.skip(n);
        assert(t2.last() == t.last());
        assert(u2.take(t2.len() as int) =~= t2);
        lemma_leading_words(t2, u2, (k - 1) as nat);
    }
}

/// The `k`-th word of `s`, or `default` where `s` has too few words.
pub open spec fn word_or(s: Seq<char>, k: nat, default: Seq<char>) -> Seq<char> {
    match word_at(s, k) {
        Some(w) => w,
        None => default,
    }
}

/// The `k`-th word of `s`, or `default` where `s` has too few words.
pub fn nth_word_or(s: &[char], k: usize, default: &str) -> (r: String)
    ensures
        r@ == word_or(s@, k as nat, default@),
{
    match nth_word(s, k) {
        Some(w) => text_of(w),
        None => default.to_owned(),
    }
}

/// `pat` stands in `s` at index `i`.
pub open spec fn occurs_at<T>(s: Seq<T>, pat: Seq<T>, i: int) -> bool {
    0 <= i && i + pat.len() <= s.len() && s.subrange(i, i + pat.len()) == pat
}

/// `pat` stands somewhere in `s`.
pub open spec fn occurs<T>(s: Seq<T>, pat: Seq<T>) -> bool {
    exists|i: int| occurs_at(s, pat, i)
}

/// The index at which `pat` first stands in `s`.
pub open spec fn first_occurrence<T>(s: Seq<T>, pat: Seq<T>) -> Option<int>
    decreases s.len(),
{
    if occurs_at(s, pat, 0) {
        Some(0)
    } else if s.len() == 0 {
        None
    } else {
        match first_occurrence(s.drop_first(), pat) {
            Some(i) => Some(i + 1),
            None => None,
        }
    }
}

/// What `first_occurrence` returns is the first hit, and `None` means that there is none.
pub proof fn lemma_first_occurrence<T>(s: Seq<T>, pat: Seq<T>)
    ensures
        match first_occurrence(s, pat) {
            Some(i) => occurs_at(s, pat, i) && forall|j: int|
                0 <= j < i ==> !#[trigger] occurs_at(s, pat, j),
            None => !occurs(s, pat),
        },
    decreases s.len(),
{
    if !occurs_at(s, pat, 0) && s.len() > 0 {
        let rest = s.drop_first();
        lemma_first_occurrence(rest, pat);
        assert forall|j: int| 0 < j implies #[trigger] occurs_at(s, pat, j) == occurs_at(
            rest,
            pat,
            j - 1,
        ) by {
            if j + pat.len() <= s.len() {
                assert(s.subrange(j, j + pat.len()) =~= rest.subrange(j - 1, j - 1 + pat.len()));
            }
        }
        match first_occurrence(rest, pat) {
            Some(i) => {
                assert(occurs_at(s, pat, i + 1));
            },
            None => {
                assert forall|j: int| !#[trigger] occurs_at(s, pat, j) by {
                    if j > 0 {
                        assert(!occurs_at(rest, pat, j - 1));
                    }
                }
            },
        }
    }
}

/// An index at which `pat` stands, with no such index before it, is the first occurrence.
pub proof fn lemma_first_occurrence_unique<T>(s: Seq<T>, pat: Seq<T>, k: int)
    requires
        occurs_at(s, pat, k),
        forall|j: int| 0 <= j < k ==> !#[trigger] occurs_at(s, pat, j),
    ensures
        first_occurrence(s, pat) == Some(k),
{
    lemma_first_occurrence(s, pat);
    match first_occurrence(s, pat) {
        Some(i) => {
            if i < k {
                assert(!occurs_at(s, pat, i));
            } else if k < i {
                assert(!occurs_at(s, pat, k));
            }
        },
        None => {
            assert(occurs(s, pat));
        },
    }
}

/// Whether `pat` stands in `s` at index `i`.
fn chars_at(s: &[char], pat: &[char], i: usize) -> (b: bool)
    requires
        i <= s@.len(),
    ensures
        b == occurs_at(s@, pat@, i as int),
{
    if pat.len() > s.len() - i {
        return false;
    }
    let mut k: usize = 0;
    while k < pat.len()
        invariant
            k <= pat@.len(),
            i + pat@.len() <= s.len(),
            forall|j: int| 0 <= j < k ==> s@[i + j] == #[trigger] pat@[j],
        decreases pat@.len() - k,
    {
        if s[i + k] != pat[k] {
            assert(s@.subrange(i as int, i + pat@.len())[k as int] != pat@[k as int]);
            return false;
        }
        k += 1;
    }
    assert(s@.subrange(i as int, i + pat@.len()) =~= pat@);
    true
}

/// Finds where `pat` first stands in `s`.
pub fn find_text(s: &[char], pat: &[char]) -> (r: Option<usize>)
    ensures
        match r {
            Some(i) => first_occurrence(s@, pat@) == Some(i as int),
            None => first_occurrence(s@, pat@) is None,
        },
{
    let mut i: usize = 0;
    while i < s.len()
        invariant
            i <= s@.len(),
            forall|j: int| 0 <= j < i ==> !#[trigger] occurs_at(s@, pat@, j),
        decreases s@.len() - i,
    {
        if chars_at(s, pat, i) {
            proof {
                lemma_first_occurrence_unique(s@, pat@, i as int);
            }
            return Some(i);
        }
        i += 1;
    }
    if chars_at(s, pat, i) {
        proof {
            lemma_first_occurrence_unique(s@, pat@, i as int);
        }
        return Some(i);
    }
    proof {
        lemma_first_occurrence(s@, pat@);
    }
    None
}

/// `s` begins with `pat`.
pub open spec fn starts_with<T>(s: Seq<T>, pat: Seq<T>) -> bool {
    pat.len() <= s.len() && s.take(pat.len() as int) == pat
}

/// What follows `prefix` in `s`, where `s` begins with it.
pub fn strip_prefix<'a>(s: &'a [char], prefix: &str) -> (r: Option<&'a [char]>)
    ensures
        match r {
            Some(rest) => starts_with(s@, prefix@) && rest@ == s@.skip(prefix@.len() as int),
            None => !starts_with(s@, prefix@),
        },
{
    let p = chars_of(prefix);
    assert(p@.len() <= s@.len() ==> s@.subrange(0, 0 + p@.len() as int) == s@.take(
        p@.len() as int,
    ));
    if chars_at(s, p.as_slice(), 0) {
        Some(slice_subrange(s, p.len(), s.len()))
    } else {
        None
    }
}

/// The end of a line in an HTTP head.
pub open spec fn crlf() -> Seq<char> {
    seq!['\r', '\n']
}

/// The pieces of `s` between one line end and the next; text without a line end is one piece.
pub open spec fn lines(s: Seq<char>) -> Seq<Seq<char>>
    decreases s.len(),
{
    match first_occurrence(s, crlf()) {
        Some(i) => {
            proof {
                lemma_first_occurrence(s, crlf());
            }
            seq![s.take(i)] + lines(s.skip(i + 2))
        },
        None => seq![s],
    }
}

/// `s` ends with a line end.
pub open spec fn ends_line(s: Seq<char>) -> bool {
    s.len() >= 2 && s.skip(s.len() - 2) == crlf()
}

/// Whole lines at the start of a text are its first lines, whatever follows.
pub proof fn lemma_leading_lines(start: Seq<char>, s: Seq<char>)
    requires
        ends_line(start),
        starts_with(s, start),
    ensures
        lines(start).len() >= 2,
        lines(start).last().len() == 0,
        lines(s).len() >= lines(start).len(),
        forall|i: int| 0 <= i < lines(start).len() - 1 ==> #[trigger] lines(s)[i] == lines(start)[i],
    decreases start.len(),
{
    let n = start.len() as int;
    lemma_first_occurrence(start, crlf());
    assert(start.subrange(n - 2, n) =~= start.skip(n - 2));
    assert(occurs_at(start, crlf(), n - 2));
    let k = first_occurrence(start, crlf())->0;
    assert forall|j: int| 0 <= j <= k implies #[trigger] occurs_at(s, crlf(), j) == occurs_at(
        start,
        crlf(),
        j,
    ) by {
        assert(s.take(n) == start);
        assert(s.subrange(j, j + 2) =~= start.subrange(j, j + 2));
    }
    lemma_first_occurrence_unique(s, crlf(), k);
    assert(s.take(k) =~= start.take(k)) by {
        assert(s.take(n) == start);
    }
    let start2 = start.skip(k + 2);
    let s2 = s.skip(k + 2);
    assert(s2.take(start2.len() as int) =~= start2) by {
        assert(s.take(n) == start);
    }
    if start2.len() == 0 {
        lemma_first_occurrence(start2, crlf());
        assert(lines(start2) =~= seq![start2]);
    } else {
        assert(start2.len() >= 2) by {
            if start2.len() == 1 {
                assert(start.subrange(k, k + 2)[1] == start[n - 2]);
                assert(start.skip(n - 2)[0] == start[n - 2]);
            }
        }
        assert(start2.skip(start2.len() - 2) =~= start.skip(n - 2));
        lemma_leading_lines(start2, s2);
    }
    assert(lines(start) =~= seq![start.take(k)] + lines(start2));
    assert(lines(s) =~= seq![s.take(k)] + lines(s2));
    assert forall|i: int| 0 <= i < lines(start).len() - 1 implies #[trigger] lines(s)[i] == lines(
        start,
    )[i] by {
        if i > 0 {
            assert(lines(s)[i] == lines(s2)[i - 1]);
            assert(lines(start)[i] == lines(start2)[i - 1]);
        }
    }
}

/// Splits text into its lines.
pub fn split_lines(s: &[char]) -> (r: Vec<String>)
    ensures
        views(r@) == lines(s@),
{
    let mut r: Vec<String> = Vec::new();
    let mut rest = s;
    let end: [char; 2] = ['\r', '\n'];
    assert(end@ =~= crlf());
    assert(views(r@) + lines(rest@) =~= lines(s@));
    loop
        invariant
            end@ == crlf(),
            views(r@) + lines(rest@) == lines(s@),
        decreases rest@.len(),
    {
        match find_text(rest, end.as_slice()) {
            Some(i) => {
                proof {
                    lemma_first_occurrence(rest@, crlf());
                }
                let line = slice_subrange(rest, 0, i);
                let ghost before = views(r@);
                let ghost whole = rest@;
                assert(i + 2 <= rest.len());
                r.push(text_of(line));
                rest = slice_subrange(rest, i + 2, rest.len());
                assert(line@ == whole.take(i as int));
                assert(rest@ == whole.skip(i + 2));
                assert(views(r@) =~= before + seq![line@]);
                assert(views(r@) + lines(rest@) =~= before + lines(whole));
            },
            None => {
                let ghost before = views(r@);
                r.push(text_of(rest));
                assert(views(r@) =~= before + seq![rest@]);
                return r;
            },
        }
    }
}

/// The lower-case form of an ASCII letter; any other character is left as it is.
pub open spec fn ascii_lower(c: char) -> char {
    if 'A' <= c <= 'Z' {
        ((c as u8) + 32) as char
    } else {
        c
    }
}

/// `s` with its ASCII letters in lower case.
pub open spec fn ascii_lowered(s: Seq<char>) -> Seq<char> {
    Seq::new(s.len(), |i: int| ascii_lower(s[i]))
}

/// `s` with its ASCII letters in lower case.
pub fn to_ascii_lowercase(s: &[char]) -> (r: Vec<char>)
    ensures
        r@ == ascii_lowered(s@),
{
    let mut r: Vec<char> = Vec::new();
    let mut k: usize = 0;
    while k < s.len()
        invariant
            k <= s@.len(),
            r@.len() == k,
            forall|i: int| 0 <= i < k ==> r@[i] == ascii_lower(#[trigger] s@[i]),
        decreases s@.len() - k,
    {
        let c = s[k];
        if 'A' <= c && c <= 'Z' {
            r.push(((c as u8) + 32u8) as char);
        } else {
            r.push(c);
        }
        k += 1;
    }
    r
}

/// What `str::to_lowercase` makes of text that is not all ASCII.
pub uninterp spec fn unicode_lowercase(s: Seq<char>) -> Seq<char>;

/// `s` in lower case, by the rules of `str::to_lowercase`.
pub open spec fn lowered(s: Seq<char>) -> Seq<char> {
    if vstd::utf8::is_ascii_chars(s) {
        ascii_lowered(s)
    } else {
        unicode_lowercase(s)
    }
}

/// Calls `str::to_lowercase`. ASCII letters become their lower-case forms and other ASCII
/// characters stay; beyond ASCII the Unicode mappings decide, and the result depends on the
/// text alone.
#[verifier::external_body]
pub(crate) fn to_lowercase(s: &str) -> (r: String)
    ensures
        r@ == (if vstd::utf8::is_ascii_chars(s@) {
            ascii_lowered(s@)
        } else {
            unicode_lowercase(s@)
        }),
{
    s.to_lowercase()
}

/// What `String::from_utf8_lossy` makes of bytes that are not valid UTF-8.
pub uninterp spec fn repaired_utf8(bytes: Seq<u8>) -> Seq<char>;

/// The text in `bytes`, by the rules of `String::from_utf8_lossy`.
pub open spec fn lossy(bytes: Seq<u8>) -> Seq<char> {
    if vstd::utf8::valid_utf8(bytes) {
        vstd::utf8::decode_utf8(bytes)
    } else {
        repaired_utf8(bytes)
    }
}

/// Wherever `bytes` begins with valid UTF-8, `text` begins with what that says.
pub open spec fn keeps_valid_start(bytes: Seq<u8>, text: Seq<char>) -> bool {
    forall|k: int|
        0 <= k <= bytes.len() && #[trigger] vstd::utf8::valid_utf8(bytes.take(k)) ==> starts_with(
            text,
            vstd::utf8::decode_utf8(bytes.take(k)),
        )
}

/// Calls `String::from_utf8_lossy`. Valid UTF-8 is decoded; in other input every invalid
/// sequence becomes a replacement character, so that valid UTF-8 at its start is decoded all the
/// same, and the result depends on the bytes alone.
#[verifier::external_body]
pub(crate) fn from_utf8_lossy(bytes: &[u8]) -> (r: String)
    ensures
        r@ == (if vstd::utf8::valid_utf8(bytes@) {
            vstd::utf8::decode_utf8(bytes@)
        } else {
            repaired_utf8(bytes@)
        }),
        keeps_valid_start(bytes@, r@),
{
    String::from_utf8_lossy(bytes).into_owned()
}

/// `c` is one of the ten decimal digits.
pub open spec fn is_digit(c: char) -> bool {
    '0' <= c <= '9'
}

/// The number that a run of decimal digits denotes.
pub open spec fn digits_value(s: Seq<char>) -> int
    decreases s.len(),
{
    if s.len() == 0 {
        0
    } else {
        10 * digits_value(s.drop_last()) + (s.last() as int - '0' as int)
    }
}

/// The 16-bit number that the digits `d` denote: at least one digit and nothing else, with a
/// value that fits.
pub open spec fn digits_u16(d: Seq<char>) -> Option<u16> {
    if d.len() > 0 && (forall|i: int| 0 <= i < d.len() ==> is_digit(#[trigger] d[i]))
        && digits_value(d) <= u16::MAX {
        Some(digits_value(d) as u16)
    } else {
        None
    }
}

/// The 16-bit number that `s` denotes: digits, which a single `+` may precede.
pub open spec fn parsed_u16(s: Seq<char>) -> Option<u16> {
    if s.len() > 0 && s[0] == '+' {
        digits_u16(s.drop_first())
    } else {
        digits_u16(s)
    }
}

/// More digits denote a number that is at least as large.
pub proof fn lemma_digits_grow(s: Seq<char>, k: int)
    requires
        0 <= k <= s.len(),
        forall|i: int| 0 <= i < s.len() ==> is_digit(#[trigger] s[i]),
    ensures
        0 <= digits_value(s.take(k)) <= digits_value(s),
    decreases s.len(),
{
    if s.len() == 0 {
        assert(s.take(k) =~= s);
    } else if k == s.len() {
        assert(s.take(k) =~= s);
        lemma_digits_grow(s.drop_last(), 0);
        assert(s.drop_last().take(0) =~= Seq::<char>::empty());
    } else {
        lemma_digits_grow(s.drop_last(), k);
        assert(s.drop_last().take(k) =~= s.take(k));
    }
}

/// Reads a run of digits.
fn read_digits(d: &[char]) -> (r: Option<u16>)
    ensures
        r == digits_u16(d@),
{
    if d.len() == 0 {
        return None;
    }
    let mut k: usize = 0;
    while k < d.len()
        invariant
            k <= d@.len(),
            forall|i: int| 0 <= i < k ==> is_digit(#[trigger] d@[i]),
        decreases d@.len() - k,
    {
        if !('0' <= d[k] && d[k] <= '9') {
            assert(!is_digit(d@[k as int]));
            return None;
        }
        k += 1;
    }
    let mut value: u32 = 0;
    let mut j: usize = 0;
    assert(d@.take(0) =~= Seq::<char>::empty());
    while j < d.len()
        invariant
            j <= d@.len(),
            forall|i: int| 0 <= i < d@.len() ==> is_digit(#[trigger] d@[i]),
            value == digits_value(d@.take(j as int)),
            value <= u16::MAX,
        decreases d@.len() - j,
    {
        assert(is_digit(d@[j as int]));
        value = value * 10 + ((d[j] as u32) - ('0' as u32));
        j += 1;
        assert(d@.take(j as int).drop_last() =~= d@.take(j - 1));
        if value > 65535 {
            proof {
                lemma_digits_grow(d@, j as int);
            }
            return None;
        }
    }
    assert(d@.take(j as int) =~= d@);
    Some(value as u16)
}

/// Reads a 16-bit number in decimal.
pub fn parse_u16(s: &[char]) -> (r: Option<u16>)
    ensures
        r == parsed_u16(s@),
{
    if s.len() > 0 && s[0] == '+' {
        let d = slice_subrange(s, 1, s.len());
        assert(d@ =~= s@.drop_first());
        read_digits(d)
    } else {
        read_digits(s)
    }
}

} // verus!
