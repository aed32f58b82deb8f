//! Source text: white space, comments and tokens.
use vstd::prelude::*;
use vstd::string::*;

verus! {

/// Whether `c` is white space: the characters with Unicode's `White_Space`
/// property.
pub open spec fn is_space(c: char) -> bool {
    ||| ('\u{9}' <= c && c <= '\u{D}')
    ||| c == ' '
    ||| c == '\u{85}'
    ||| c == '\u{A0}'
    ||| c == '\u{1680}'
    ||| ('\u{2000}' <= c && c <= '\u{200A}')
    ||| c == '\u{2028}'
    ||| c == '\u{2029}'
    ||| c == '\u{202F}'
    ||| c == '\u{205F}'
    ||| c == '\u{3000}'
}

/// Whether a comment marker, two slashes, starts at index `i` of `s`.
pub open spec fn marker_at(s: Seq<char>, i: int) -> bool {
    0 <= i && i + 1 < s.len() && s[i] == '/' && s[i + 1] == '/'
}

/// The index of the first comment marker at or after `i`, or the length of
/// `s` if there is none.
pub open spec fn comment_start_from(s: Seq<char>, i: int) -> int
    decreases s.len() - i,
{
    if i < 0 || i >= s.len() {
        s.len() as int
    } else if marker_at(s, i) {
        i
    } else {
        comment_start_from(s, i + 1)
    }
}

/// The index at which the comment of a line starts.
pub open spec fn comment_start(s: Seq<char>) -> int {
    comment_start_from(s, 0)
}

/// A line without its comment: everything before the first comment marker.
pub open spec fn without_comment(s: Seq<char>) -> Seq<char> {
    s.take(comment_start(s))
}

/// The index of the first character at or after `i` that is not white
/// space, or the length of `s`.
pub open spec fn skip_spaces(s: Seq<char>, i: int) -> int
    decreases s.len() - i,
{
    if 0 <= i < s.len() && is_space(s[i]) {
        skip_spaces(s, i + 1)
    } else {
        i
    }
}

/// The index after the last character before `j` that is not white space,
/// or 0.
pub open spec fn skip_spaces_back(s: Seq<char>, j: int) -> int
    decreases j,
{
    if 0 < j <= s.len() && is_space(s[j - 1]) {
        skip_spaces_back(s, j - 1)
    } else {
        j
    }
}

/// A text without the white space at its start and at its end.
pub open spec fn trimmed(s: Seq<char>) -> Seq<char> {
    let start = skip_spaces(s, 0);
    if start >= s.len() {
        Seq::empty()
    } else {
        s.subrange(start, skip_spaces_back(s, s.len() as int))
    }
}

/// The index at which the run of characters other than white space that
/// holds index `i` ends.
pub open spec fn token_end(s: Seq<char>, i: int) -> int
    decreases s.len() - i,
{
    if 0 <= i < s.len() && !is_space(s[i]) {
        token_end(s, i + 1)
    } else {
        i
    }
}

pub proof fn lemma_token_end(s: Seq<char>, i: int)
    requires
        0 <= i <= s.len(),
    ensures
        i <= token_end(s, i) <= s.len(),
        forall|k: int| i <= k < token_end(s, i) ==> !is_space(#[trigger] s[k]),
        token_end(s, i) == s.len() || is_space(s[token_end(s, i)]),
        i < s.len() && !is_space(s[i]) ==> token_end(s, i) > i,
    decreases s.len() - i,
{
    if i < s.len() && !is_space(s[i]) {
        lemma_token_end(s, i + 1);
    }
}

/// The tokens of `s` from index `i` on: the maximal runs of characters
/// other than white space, in order.
pub open spec fn tokens_from(s: Seq<char>, i: int) -> Seq<Seq<char>>
    decreases s.len() - i,
{
    if i < 0 || i >= s.len() {
        Seq::empty()
    } else if is_space(s[i]) {
        tokens_from(s, i + 1)
    } else {
        proof {
            lemma_token_end(s, i);
        }
        seq![s.subrange(i, token_end(s, i))] + tokens_from(s, token_end(s, i))
    }
}

/// The tokens of a text.
pub open spec fn tokens(s: Seq<char>) -> Seq<Seq<char>> {
    tokens_from(s, 0)
}

/// A token: not empty, free of white space and of comment markers.
pub open spec fn is_token(s: Seq<char>) -> bool {
    &&& s.len() > 0
    &&& forall|i: int| 0 <= i < s.len() ==> !is_space(#[trigger] s[i])
    &&& forall|i: int| !marker_at(s, i)
}

/// The texts that a list of strings holds.
pub open spec fn strings_view(v: Seq<String>) -> Seq<Seq<char>> {
    v.map_values(|s: String| s@)
}

pub proof fn lemma_strings_view_push(v: Seq<String>, s: String)
    ensures
        strings_view(v.push(s)) == strings_view(v).push(s@),
{
    assert(strings_view(v.push(s)) =~= strings_view(v).push(s@));
}

/// Before the comment's start there is no marker; at it, one starts or the
/// line ends.
pub proof fn lemma_comment_start(s: Seq<char>, i: int)
    requires
        0 <= i <= s.len(),
    ensures
        i <= comment_start_from(s, i) <= s.len(),
        forall|k: int| i <= k < comment_start_from(s, i) ==> !marker_at(s, k),
        comment_start_from(s, i) == s.len() || marker_at(s, comment_start_from(s, i)),
    decreases s.len() - i,
{
    if i < s.len() && !marker_at(s, i) {
        lemma_comment_start(s, i + 1);
    }
}

/// What is left of a line without its comment holds no comment marker.
pub proof fn lemma_without_comment(s: Seq<char>)
    ensures
        forall|k: int| !marker_at(without_comment(s), k),
{
    lemma_comment_start(s, 0);
    let t = without_comment(s);
    assert forall|k: int| !marker_at(t, k) by {
        if marker_at(t, k) {
            assert(marker_at(s, k));
        }
    }
}

/// Every token of a text without comment markers is well formed.
pub proof fn lemma_tokens_are_tokens(s: Seq<char>, i: int)
    requires
        0 <= i <= s.len(),
        forall|k: int| !marker_at(s, k),
    ensures
        forall|j: int|
            0 <= j < tokens_from(s, i).len() ==> is_token(#[trigger] tokens_from(s, i)[j]),
    decreases s.len() - i,
{
    if i >= s.len() {
        assert(tokens_from(s, i).len() == 0);
    } else if is_space(s[i]) {
        lemma_tokens_are_tokens(s, i + 1);
        assert(tokens_from(s, i) == tokens_from(s, i + 1));
    } else {
        lemma_token_end(s, i);
        let e = token_end(s, i);
        lemma_tokens_are_tokens(s, e);
        assert(tokens_from(s, i) == seq![s.subrange(i, e)] + tokens_from(s, e));
        let t = s.subrange(i, e);
        assert forall|k: int| !marker_at(t, k) by {
            if marker_at(t, k) {
                assert(marker_at(s, i + k));
            }
        }
        assert(is_token(t));
        assert forall|j: int| 0 <= j < tokens_from(s, i).len() implies is_token(
            #[trigger] tokens_from(s, i)[j],
        ) by {
            if j > 0 {
                assert(tokens_from(s, i)[j] == tokens_from(s, e)[j - 1]);
            }
        }
    }
}

/// A text that does not start with white space and is not empty has a
/// first token.
pub proof fn lemma_trimmed_has_token(s: Seq<char>)
    ensures
        trimmed(s).len() > 0 ==> tokens(trimmed(s)).len() > 0,
        trimmed(s).len() == 0 ==> tokens(s).len() == 0,
{
    let start = skip_spaces(s, 0);
    lemma_skip_spaces(s, 0);
    lemma_skip_spaces_back(s, s.len() as int);
    if start >= s.len() {
        lemma_tokens_skip(s, 0, start);
    } else {
        let end = skip_spaces_back(s, s.len() as int);
        assert(end > start) by {
            if end <= start {
                assert(is_space(s[start]));
            }
        }
        let t = trimmed(s);
        assert(t[0] == s[start]);
        lemma_token_end(t, 0);
    }
}

pub proof fn lemma_skip_spaces(s: Seq<char>, i: int)
    requires
        0 <= i <= s.len(),
    ensures
        i <= skip_spaces(s, i) <= s.len(),
        forall|k: int| i <= k < skip_spaces(s, i) ==> is_space(#[trigger] s[k]),
        skip_spaces(s, i) == s.len() || !is_space(s[skip_spaces(s, i)]),
    decreases s.len() - i,
{
    if i < s.len() && is_space(s[i]) {
        lemma_skip_spaces(s, i + 1);
    }
}

pub proof fn lemma_skip_spaces_back(s: Seq<char>, j: int)
    requires
        0 <= j <= s.len(),
    ensures
        0 <= skip_spaces_back(s, j) <= j,
        forall|k: int| skip_spaces_back(s, j) <= k < j ==> is_space(#[trigger] s[k]),
        skip_spaces_back(s, j) == 0 || !is_space(s[skip_spaces_back(s, j) - 1]),
    decreases j,
{
    if 0 < j && is_space(s[j - 1]) {
        lemma_skip_spaces_back(s, j - 1);
    }
}

/// White space holds no token.
pub proof fn lemma_tokens_skip(s: Seq<char>, i: int, j: int)
    requires
        0 <= i <= j <= s.len(),
        forall|k: int| i <= k < j ==> is_space(#[trigger] s[k]),
    ensures
        tokens_from(s, i) == tokens_from(s, j),
    decreases j - i,
{
    if i < j {
        lemma_tokens_skip(s, i + 1, j);
    }
}

/// The characters of a text.
pub fn to_chars(s: &str) -> (v: Vec<char>)
    ensures
        v@ == s@,
{
    let mut v: Vec<char> = Vec::new();
    for c in it: s.chars()
        invariant
            v@ == it.seq().take(it.index() as int),
            it.seq() == s@,
    {
        v.push(c);
    }
    v
}

/// Whether two texts are the same.
pub fn same_text(a: &str, b: &str) -> (same: bool)
    ensures
        same == (a@ == b@),
{
    String::from_str(a) == String::from_str(b)
}

/// Whether `c` is white space.
pub fn is_whitespace(c: char) -> (b: bool)
    ensures
        b == is_space(c),
{
    ('\u{9}' <= c && c <= '\u{D}') || c == ' ' || c == '\u{85}' || c == '\u{A0}' || c
        == '\u{1680}' || ('\u{2000}' <= c && c <= '\u{200A}') || c == '\u{2028}' || c
        == '\u{2029}' || c == '\u{202F}' || c == '\u{205F}' || c == '\u{3000}'
}

/// Cuts the comment off a line.
pub fn strip_comment(line: &str) -> (rest: &str)
    ensures
        rest@ == without_comment(line@),
{
    let chars = to_chars(line);
    let n: usize = chars.len();
    let mut i: usize = 0;
    while i < n && !(i + 1 < n && chars[i] == '/' && chars[i + 1] == '/')
        invariant
            i <= n,
            n == chars@.len(),
            comment_start(chars@) == comment_start_from(chars@, i as int),
        decreases n - i,
    {
        i = i + 1;
    }
    line.substring_char(0, i)
}

/// Cuts the white space off both ends of a text.
pub fn trim(s: &str) -> (rest: &str)
    ensures
        rest@ == trimmed(s@),
{
    let chars = to_chars(s);
    let n: usize = chars.len();
    let mut start: usize = 0;
    while start < n && is_whitespace(chars[start])
        invariant
            start <= n,
            n == chars@.len(),
            skip_spaces(chars@, 0) == skip_spaces(chars@, start as int),
        decreases n - start,
    {
        start = start + 1;
    }
    if start >= n {
        assert(s@.subrange(0, 0) =~= Seq::<char>::empty());
        return s.substring_char(0, 0);
    }
    let mut end: usize = n;
    while is_whitespace(chars[end - 1])
        invariant
            start < end <= n,
            n == chars@.len(),
            skip_spaces_back(chars@, n as int) == skip_spaces_back(chars@, end as int),
            !is_space(chars@[start as int]),
        decreases end,
    {
        end = end - 1;
    }
    s.substring_char(start, end)
}

/// Splits a text into its tokens.
pub fn split_whitespace(s: &str) -> (parts: Vec<String>)
    ensures
        strings_view(parts@) == tokens(s@),
{
    let chars = to_chars(s);
    let n: usize = chars.len();
    let mut parts: Vec<String> = Vec::new();
    let mut i: usize = 0;
    while i < n
        invariant
            i <= n,
            n == chars@.len(),
            chars@ == s@,
            tokens(s@) == strings_view(parts@) + tokens_from(s@, i as int),
        decreases n - i,
    {
        if is_whitespace(chars[i]) {
            i = i + 1;
        } else {
            let start: usize = i;
            let mut end: usize = i + 1;
            while end < n && !is_whitespace(chars[end])
                invariant
                    start < end <= n,
                    n == chars@.len(),
                    token_end(chars@, start as int) == token_end(chars@, end as int),
                decreases n - end,
            {
                end = end + 1;
            }
            let part = String::from_str(s.substring_char(start, end));
            proof {
                assert(strings_view(parts@.push(part)) =~= strings_view(parts@).push(part@));
                assert(strings_view(parts@).push(part@) + tokens_from(s@, end as int)
                    =~= strings_view(parts@) + (seq![part@] + tokens_from(s@, end as int)));
            }
            parts.push(part);
            i = end;
        }
    }
    assert(strings_view(parts@) + tokens_from(s@, n as int) =~= strings_view(parts@));
    parts
}

} // verus!
