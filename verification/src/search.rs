//! Line matching: split a text into lines and keep those that contain a
//! query string, either exactly or after folding both sides to lower case.

use vstd::prelude::*;

verus! {

/// `needle` occurs as a contiguous run of characters inside `hay`.
/// The empty sequence occurs in everything, at position 0.
pub open spec fn contains_seq(hay: Seq<char>, needle: Seq<char>) -> bool {
    exists|i: int|
        0 <= i <= hay.len() - needle.len() && #[trigger] hay.subrange(i, i + needle.len())
            == needle
}

/// A carriage return directly before a line feed is not part of the line.
pub open spec fn strip_cr(line: Seq<char>) -> Seq<char> {
    if line.len() > 0 && line.last() == '\r' {
        line.drop_last()
    } else {
        line
    }
}

/// The position of the first line feed of `c`, or `c.len()` when there is
/// none.
pub open spec fn first_nl(c: Seq<char>) -> int
    decreases c.len(),
{
    if c.len() == 0 {
        0
    } else if c[0] == '\n' {
        0
    } else {
        1 + first_nl(c.skip(1))
    }
}

/// `first_nl` stays within `c`, points at a line feed when it is inside
/// `c`, and nothing before it is a line feed.
pub proof fn lemma_first_nl(c: Seq<char>)
    ensures
        0 <= first_nl(c) <= c.len(),
        first_nl(c) < c.len() ==> c[first_nl(c)] == '\n',
        forall|j: int| 0 <= j < first_nl(c) ==> c[j] != '\n',
    decreases c.len(),
{
    if c.len() == 0 {
    } else if c[0] == '\n' {
    } else {
        lemma_first_nl(c.skip(1));
        assert(first_nl(c) < c.len() ==> c[first_nl(c)] == '\n') by {
            if first_nl(c) < c.len() {
                assert(c.skip(1)[first_nl(c.skip(1))] == c[first_nl(c)]);
            }
        }
        assert forall|j: int| 0 <= j < first_nl(c) implies c[j] != '\n' by {
            if j >= 1 {
                assert(c.skip(1)[j - 1] == c[j]);
            }
        }
    }
}

/// The first line feed stands exactly where a line feed first stands.
proof fn lemma_first_nl_is(c: Seq<char>, i: int)
    requires
        0 <= i < c.len(),
        c[i] == '\n',
        forall|j: int| 0 <= j < i ==> c[j] != '\n',
    ensures
        first_nl(c) == i,
    decreases c.len(),
{
    if c[0] == '\n' {
    } else {
        assert(c.skip(1)[i - 1] == c[i]);
        assert forall|j: int| 0 <= j < i - 1 implies c.skip(1)[j] != '\n' by {
            assert(c.skip(1)[j] == c[j + 1]);
        }
        lemma_first_nl_is(c.skip(1), i - 1);
    }
}

/// The lines of `c`: the text before each line feed, with a carriage return
/// directly before that line feed dropped, and the text after the last line
/// feed when it is non-empty. Empty `c` has no lines.
pub open spec fn lines_spec(c: Seq<char>) -> Seq<Seq<char>>
    decreases c.len(),
{
    if c.len() == 0 {
        Seq::empty()
    } else if first_nl(c) == c.len() {
        seq![c]
    } else {
        proof {
            lemma_first_nl(c);
        }
        seq![strip_cr(c.take(first_nl(c)))] + lines_spec(c.skip(first_nl(c) + 1))
    }
}

/// Splitting off the text before the first line feed peels off the first
/// line.
proof fn lemma_lines_split(c: Seq<char>, i: int)
    requires
        0 <= i < c.len(),
        c[i] == '\n',
        forall|j: int| 0 <= j < i ==> c[j] != '\n',
    ensures
        lines_spec(c) == seq![strip_cr(c.take(i))] + lines_spec(c.skip(i + 1)),
{
    lemma_first_nl_is(c, i);
}

/// Split `contents` into its lines. Each element of the result is a slice
/// of `contents` itself.
fn split_lines<'a>(contents: &'a str) -> (r: Vec<&'a str>)
    ensures
        r.deep_view() == lines_spec(contents@),
{
    let n: usize = contents.unicode_len();
    let mut r: Vec<&'a str> = Vec::new();
    let mut start: usize = 0;
    let mut i: usize = 0;
    proof {
        assert(r.deep_view() + lines_spec(contents@.skip(0)) =~= lines_spec(contents@.skip(0)));
        assert(contents@.skip(0) =~= contents@);
    }
    while i < n
        invariant
            n == contents@.len(),
            0 <= start <= i <= n,
            r.deep_view() + lines_spec(contents@.skip(start as int)) == lines_spec(contents@),
            forall|j: int| start <= j < i ==> contents@[j] != '\n',
        decreases n - i,
    {
        if contents.get_char(i) == '\n' {
            let line_end: usize = if i > start && contents.get_char(i - 1) == '\r' {
                i - 1
            } else {
                i
            };
            let line: &'a str = contents.substring_char(start, line_end);
            let ghost old_deep = r.deep_view();
            r.push(line);
            proof {
                let c = contents@;
                let seg = c.skip(start as int);
                let k = i - start;
                assert(seg[k] == c[i as int]);
                assert forall|j: int| 0 <= j < k implies seg[j] != '\n' by {
                    assert(seg[j] == c[start + j]);
                }
                lemma_lines_split(seg, k);
                assert(seg.take(k) =~= c.subrange(start as int, i as int));
                assert(seg.skip(k + 1) =~= c.skip(i + 1));
                assert(line@ =~= strip_cr(seg.take(k)));
                let rest = lines_spec(c.skip(i + 1));
                assert(old_deep + (seq![line@] + rest) =~= (old_deep + seq![line@]) + rest);
                assert(r.deep_view() =~= old_deep + seq![line@]);
                assert(r.deep_view() + rest == lines_spec(c));
            }
            start = i + 1;
        }
        i += 1;
    }
    let c = Ghost(contents@);
    proof {
        let seg = c@.skip(start as int);
        lemma_first_nl(seg);
        assert forall|j: int| 0 <= j < seg.len() implies seg[j] != '\n' by {
            assert(seg[j] == c@[start + j]);
        }
        assert(first_nl(seg) == seg.len());
    }
    if start < n {
        let line: &'a str = contents.substring_char(start, n);
        let ghost old_deep = r.deep_view();
        r.push(line);
        proof {
            let seg = c@.skip(start as int);
            assert(line@ =~= seg);
            assert(lines_spec(seg) == seq![seg]);
            assert(r.deep_view() =~= old_deep + seq![line@]);
            assert(r.deep_view() =~= lines_spec(c@));
        }
    } else {
        proof {
            let seg = c@.skip(start as int);
            assert(seg.len() == 0);
            assert(lines_spec(seg) =~= Seq::<Seq<char>>::empty());
            assert(r.deep_view() + lines_spec(seg) =~= r.deep_view());
        }
    }
    r
}

/// Whether the characters of `needle` all stand in `hay` starting at `at`.
fn match_at(hay: &str, needle: &str, at: usize) -> (b: bool)
    requires
        hay@.len() <= usize::MAX,
        at + needle@.len() <= hay@.len(),
    ensures
        b == (hay@.subrange(at as int, at + needle@.len()) == needle@),
{
    let nn: usize = needle.unicode_len();
    let mut j: usize = 0;
    while j < nn
        invariant
            hay@.len() <= usize::MAX,
            nn == needle@.len(),
            at + nn <= hay@.len(),
            0 <= j <= nn,
            forall|k: int| 0 <= k < j ==> hay@[at + k] == needle@[k],
        decreases nn - j,
    {
        if hay.get_char(at + j) != needle.get_char(j) {
            proof {
                assert(hay@.subrange(at as int, at + nn) != needle@) by {
                    assert(hay@.subrange(at as int, at + nn)[j as int] == hay@[at + j]);
                }
            }
            return false;
        }
        j += 1;
    }
    proof {
        assert(hay@.subrange(at as int, at + nn) =~= needle@);
    }
    true
}

/// Whether `needle` occurs anywhere in `hay`, checking every starting
/// position in turn.
fn contains_str(hay: &str, needle: &str) -> (b: bool)
    ensures
        b == contains_seq(hay@, needle@),
{
    let hn: usize = hay.unicode_len();
    let nn: usize = needle.unicode_len();
    if nn > hn {
        return false;
    }
    if nn == 0 {
        proof {
            assert(hay@.subrange(0, 0 + needle@.len() as int) =~= needle@);
            assert(contains_seq(hay@, needle@));
        }
        return true;
    }
    let mut i: usize = 0;
    while i <= hn - nn
        invariant
            hn == hay@.len(),
            nn == needle@.len(),
            0 < nn <= hn,
            0 <= i <= hn - nn + 1,
            forall|k: int| 0 <= k < i ==> #[trigger] hay@.subrange(k, k + nn) != needle@,
        decreases hn - nn + 1 - i,
    {
        if match_at(hay, needle, i) {
            proof {
                assert(contains_seq(hay@, needle@)) by {
                    assert(hay@.subrange(i as int, i + nn) == needle@);
                }
            }
            return true;
        }
        i += 1;
    }
    false
}

/// The lines among `lines` that contain `query`, in their original order.
pub open spec fn matching_lines(lines: Seq<Seq<char>>, query: Seq<char>) -> Seq<Seq<char>> {
    lines.filter(|l: Seq<char>| contains_seq(l, query))
}

/// What `search` returns: the lines of `contents` that contain `query`, in
/// their original order.
pub open spec fn search_spec(query: Seq<char>, contents: Seq<char>) -> Seq<Seq<char>> {
    matching_lines(lines_spec(contents), query)
}

proof fn lemma_matching_empty(query: Seq<char>)
    ensures
        matching_lines(Seq::empty(), query) == Seq::<Seq<char>>::empty(),
{
    reveal(Seq::filter);
}

proof fn lemma_matching_push(lines: Seq<Seq<char>>, query: Seq<char>, l: Seq<char>)
    ensures
        matching_lines(lines.push(l), query) == (if contains_seq(l, query) {
            matching_lines(lines, query).push(l)
        } else {
            matching_lines(lines, query)
        }),
{
    reveal(Seq::filter);
    assert(lines.push(l).drop_last() =~= lines);
}

/// All lines of `contents` that contain `query`, exactly, in their original
/// order. Each returned line is a slice of `contents` itself.
pub fn search<'a>(query: &str, contents: &'a str) -> (r: Vec<&'a str>)
    ensures
        r.deep_view() == search_spec(query@, contents@),
{
    let lines: Vec<&'a str> = split_lines(contents);
    let mut r: Vec<&'a str> = Vec::new();
    proof {
        assert(r.deep_view() =~= Seq::<Seq<char>>::empty());
        assert(lines.deep_view().take(0) =~= Seq::<Seq<char>>::empty());
        lemma_matching_empty(query@);
    }
    let mut idx: usize = 0;
    while idx < lines.len()
        invariant
            lines.deep_view() == lines_spec(contents@),
            0 <= idx <= lines.len(),
            lines.len() == lines.deep_view().len(),
            r.deep_view() == matching_lines(lines.deep_view().take(idx as int), query@),
        decreases lines.len() - idx,
    {
        let line: &'a str = lines[idx];
        let ghost old_deep = r.deep_view();
        if contains_str(line, query) {
            r.push(line);
        }
        proof {
            let lv = lines.deep_view();
            assert(line@ == lv[idx as int]);
            assert(lv.take(idx + 1) =~= lv.take(idx as int).push(lv[idx as int]));
            lemma_matching_push(lv.take(idx as int), query@, lv[idx as int]);
            if contains_seq(line@, query@) {
                assert(r.deep_view() =~= old_deep.push(line@));
            }
        }
        idx += 1;
    }
    proof {
        assert(lines.deep_view().take(lines.len() as int) =~= lines.deep_view());
    }
    r
}

/// An empty query is contained in every line.
proof fn lemma_matching_all(lines: Seq<Seq<char>>, query: Seq<char>)
    requires
        query.len() == 0,
    ensures
        matching_lines(lines, query) == lines,
    decreases lines.len(),
{
    reveal(Seq::filter);
    if lines.len() > 0 {
        lemma_matching_all(lines.drop_last(), query);
        assert(contains_seq(lines.last(), query)) by {
            assert(lines.last().subrange(0, 0 + query.len() as int) =~= query);
        }
        assert(lines.drop_last().push(lines.last()) =~= lines);
    }
}

/// An empty query matches every line: searching for it returns all lines of
/// `contents`, in their original order.
pub proof fn lemma_empty_query_matches_all(query: Seq<char>, contents: Seq<char>)
    requires
        query.len() == 0,
    ensures
        search_spec(query, contents) == lines_spec(contents),
{
    lemma_matching_all(lines_spec(contents), query);
}

/// Empty contents have no lines, so every search over them returns nothing.
pub proof fn lemma_empty_contents(query: Seq<char>)
    ensures
        search_spec(query, Seq::empty()) == Seq::<Seq<char>>::empty(),
        search_case_insensitive_spec(query, Seq::empty()) == Seq::<Seq<char>>::empty(),
{
    reveal(Seq::filter);
}

/// The lower-case folding of `s`, as `str::to_lowercase` computes it.
pub uninterp spec fn lower_of(s: Seq<char>) -> Seq<char>;

/// Relies on str::to_lowercase: the result depends on the characters of `s`
/// alone, and an empty string folds to an empty string.
#[verifier::external_body]
fn to_lowercase_str(s: &str) -> (r: String)
    ensures
        r@ == lower_of(s@),
        s@.len() == 0 ==> r@.len() == 0,
{
    s.to_lowercase()
}

/// Whether `line` contains `query` once both are folded to lower case.
pub open spec fn ci_matches(line: Seq<char>, query: Seq<char>) -> bool {
    contains_seq(lower_of(line), lower_of(query))
}

/// The lines among `lines` that contain `query` up to case, in their
/// original order.
pub open spec fn ci_matching_lines(lines: Seq<Seq<char>>, query: Seq<char>) -> Seq<Seq<char>> {
    lines.filter(|l: Seq<char>| ci_matches(l, query))
}

/// What `search_case_insensitive` returns: the lines of `contents` that
/// contain `query` up to case, in their original order.
pub open spec fn search_case_insensitive_spec(query: Seq<char>, contents: Seq<char>) -> Seq<
    Seq<char>,
> {
    ci_matching_lines(lines_spec(contents), query)
}

proof fn lemma_ci_matching_empty(query: Seq<char>)
    ensures
        ci_matching_lines(Seq::empty(), query) == Seq::<Seq<char>>::empty(),
{
    reveal(Seq::filter);
}

proof fn lemma_ci_matching_push(lines: Seq<Seq<char>>, query: Seq<char>, l: Seq<char>)
    ensures
        ci_matching_lines(lines.push(l), query) == (if ci_matches(l, query) {
            ci_matching_lines(lines, query).push(l)
        } else {
            ci_matching_lines(lines, query)
        }),
{
    reveal(Seq::filter);
    assert(lines.push(l).drop_last() =~= lines);
}

/// A query whose folding is empty matches every line.
proof fn lemma_ci_matches_all(lines: Seq<Seq<char>>, query: Seq<char>)
    requires
        lower_of(query).len() == 0,
    ensures
        ci_matching_lines(lines, query) == lines,
    decreases lines.len(),
{
    reveal(Seq::filter);
    if lines.len() > 0 {
        lemma_ci_matches_all(lines.drop_last(), query);
        assert(ci_matches(lines.last(), query)) by {
            assert(lower_of(lines.last()).subrange(0, 0 + lower_of(query).len() as int)
                =~= lower_of(query));
        }
        assert(lines.drop_last().push(lines.last()) =~= lines);
    }
}

/// All lines of `contents` that contain `query` after both the line and the
/// query are folded to lower case, in their original order. Each returned
/// line is a slice of `contents` itself, unfolded. An empty query matches
/// every line.
pub fn search_case_insensitive<'a>(query: &str, contents: &'a str) -> (r: Vec<&'a str>)
    ensures
        r.deep_view() == search_case_insensitive_spec(query@, contents@),
        query@.len() == 0 ==> r.deep_view() == lines_spec(contents@),
{
    let folded_query: String = to_lowercase_str(query);
    let lines: Vec<&'a str> = split_lines(contents);
    let mut r: Vec<&'a str> = Vec::new();
    proof {
        assert(r.deep_view() =~= Seq::<Seq<char>>::empty());
        assert(lines.deep_view().take(0) =~= Seq::<Seq<char>>::empty());
        lemma_ci_matching_empty(query@);
    }
    let mut idx: usize = 0;
    while idx < lines.len()
        invariant
            folded_query@ == lower_of(query@),
            lines.deep_view() == lines_spec(contents@),
            0 <= idx <= lines.len(),
            lines.len() == lines.deep_view().len(),
            r.deep_view() == ci_matching_lines(lines.deep_view().take(idx as int), query@),
        decreases lines.len() - idx,
    {
        let line: &'a str = lines[idx];
        let folded_line: String = to_lowercase_str(line);
        let ghost old_deep = r.deep_view();
        if contains_str(folded_line.as_str(), folded_query.as_str()) {
            r.push(line);
        }
        proof {
            let lv = lines.deep_view();
            assert(line@ == lv[idx as int]);
            assert(lv.take(idx + 1) =~= lv.take(idx as int).push(lv[idx as int]));
            lemma_ci_matching_push(lv.take(idx as int), query@, lv[idx as int]);
            if ci_matches(line@, query@) {
                assert(r.deep_view() =~= old_deep.push(line@));
            }
        }
        idx += 1;
    }
    proof {
        assert(lines.deep_view().take(lines.len() as int) =~= lines.deep_view());
        if query@.len() == 0 {
            lemma_ci_matches_all(lines.deep_view(), query@);
        }
    }
    r
}

/// What a whole search returns in either mode: the matching lines of
/// `contents`, in their original order.
pub open spec fn search_result_spec(
    case_sensitive: bool,
    query: Seq<char>,
    contents: Seq<char>,
) -> Seq<Seq<char>> {
    if case_sensitive {
        search_spec(query, contents)
    } else {
        search_case_insensitive_spec(query, contents)
    }
}

/// Searching is a pure function of its arguments: two searches of the same
/// query over the same contents, in the same mode, return the same lines in
/// the same order.
pub proof fn lemma_search_deterministic(
    case_sensitive: bool,
    query: Seq<char>,
    contents: Seq<char>,
    r1: Seq<Seq<char>>,
    r2: Seq<Seq<char>>,
)
    requires
        r1 == search_result_spec(case_sensitive, query, contents),
        r2 == search_result_spec(case_sensitive, query, contents),
    ensures
        r1 == r2,
{
}

} // verus!
