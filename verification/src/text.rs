//! Character classes and string primitives used by the tag scanner,
//! the keyword matcher and the sorted containers: the tag character
//! class, whitespace, lexicographic order on character sequences,
//! substring search, trailing-`s` trimming and lowercasing.

use vstd::prelude::*;

verus! {

/// The characters a tag token may contain after the `@` marker:
/// ASCII letters, digits, `_`, `-` and the hierarchy separator `/`.
pub open spec fn spec_is_valid_tag_char(c: char) -> bool {
    ('a' <= c && c <= 'z') || ('A' <= c && c <= 'Z') || ('0' <= c && c <= '9') || c == '_' || c
        == '-' || c == '/'
}

/// A tag token must start at the beginning of the input or right after
/// whitespace: ASCII space, tab, or one of the ASCII line/page breaks.
pub open spec fn spec_is_space_char(c: char) -> bool {
    c == ' ' || c == '\t' || c == '\n' || c == '\r' || c == '\u{b}' || c == '\u{c}'
}

/// Decide whether `c` is whitespace for the purpose of tag boundaries.
pub fn is_space_char(c: char) -> (r: bool)
    ensures
        r == spec_is_space_char(c),
{
    c == ' ' || c == '\t' || c == '\n' || c == '\r' || c == '\u{b}' || c == '\u{c}'
}

/// Collect the characters of a string into a vector.
pub fn str_to_chars(s: &str) -> (r: Vec<char>)
    ensures
        r@ == s@,
{
    let n = s.unicode_len();
    let mut r: Vec<char> = Vec::new();
    let mut i: usize = 0;
    while i < n
        invariant
            0 <= i <= n,
            n == s@.len(),
            r@ =~= s@.subrange(0, i as int),
        decreases n - i,
    {
        r.push(s.get_char(i));
        i = i + 1;
    }
    assert(r@ =~= s@);
    r
}

/// Relies on `String`'s `FromIterator` over `char`: the built string
/// holds exactly the given characters, in order.
#[verifier::external_body]
pub(crate) fn chars_to_string(v: &Vec<char>) -> (r: String)
    ensures
        r@ == v@,
{
    v.iter().collect()
}

/// The case folding of a character sequence, as `str::to_lowercase`
/// computes it; its value is a function of the characters alone.
pub uninterp spec fn lower_of(s: Seq<char>) -> Seq<char>;

/// Relies on `str::to_lowercase`: the result depends on the characters
/// of the input alone.
#[verifier::external_body]
pub(crate) fn lowercase(s: &str) -> (r: String)
    ensures
        r@ == lower_of(s@),
{
    s.to_lowercase()
}

/// `needle` occurs somewhere in `hay` as a contiguous subsequence.
pub open spec fn contains_seq(hay: Seq<char>, needle: Seq<char>) -> bool {
    exists|i: int|
        0 <= i && i + needle.len() <= hay.len() && #[trigger] hay.subrange(i, i + needle.len())
            == needle
}

/// Substring search: does `hay` contain `needle`?
pub fn str_contains_str(hay: &str, needle: &str) -> (r: bool)
    ensures
        r == contains_seq(hay@, needle@),
{
    let nh = hay.unicode_len();
    let nn = needle.unicode_len();
    if nn == 0 {
        assert(hay@.subrange(0, 0 + needle@.len() as int) =~= needle@);
        return true;
    }
    if nn > nh {
        assert(!contains_seq(hay@, needle@));
        return false;
    }
    let mut i: usize = 0;
    while i <= nh - nn
        invariant
            0 <= i <= nh - nn + 1,
            1 <= nn <= nh,
            nh == hay@.len(),
            nn == needle@.len(),
            forall|p: int|
                0 <= p < i ==> #[trigger] hay@.subrange(p, p + needle@.len()) != needle@,
        decreases nh - i,
    {
        let mut j: usize = 0;
        let mut hit = true;
        while j < nn
            invariant
                0 <= j <= nn,
                0 <= i <= nh - nn,
                nh == hay@.len(),
                nn == needle@.len(),
                hit ==> forall|q: int| 0 <= q < j ==> hay@[i + q] == needle@[q],
                !hit ==> hay@.subrange(i as int, i + needle@.len()) != needle@,
            decreases nn - j,
        {
            if hay.get_char(i + j) != needle.get_char(j) {
                assert(hay@.subrange(i as int, i + needle@.len()) != needle@) by {
                    assert(hay@.subrange(i as int, i + needle@.len())[j as int] == hay@[i + j]);
                }
                hit = false;
                j = nn;
            } else {
                j = j + 1;
            }
        }
        if hit {
            assert(hay@.subrange(i as int, i + needle@.len()) =~= needle@);
            return true;
        }
        i = i + 1;
    }
    assert forall|p: int| 0 <= p && p + needle@.len() <= hay@.len() implies #[trigger] hay@
        .subrange(p, p + needle@.len()) != needle@ by {
        assert(p < i);
    }
    false
}

/// The segments of a tag joined with `/` between them.
pub open spec fn spec_join_slash(segs: Seq<Seq<char>>) -> Seq<char>
    decreases segs.len(),
{
    if segs.len() == 0 {
        Seq::empty()
    } else if segs.len() == 1 {
        segs[0]
    } else {
        spec_join_slash(segs.drop_last()) + seq!['/'] + segs.last()
    }
}

/// Join the segments of a tag into its full `/`-separated path.
pub fn join_slash(t: &Vec<String>) -> (r: String)
    ensures
        r@ == spec_join_slash(t.deep_view()),
{
    let mut out: Vec<char> = Vec::new();
    let mut idx: usize = 0;
    while idx < t.len()
        invariant
            0 <= idx <= t.len(),
            t.deep_view().len() == t.len(),
            forall|q: int| 0 <= q < t.len() ==> t.deep_view()[q] == t@[q]@,
            out@ == spec_join_slash(t.deep_view().take(idx as int)),
        decreases t.len() - idx,
    {
        let ghost dv = t.deep_view();
        if idx > 0 {
            out.push('/');
        }
        let segchars = str_to_chars(t[idx].as_str());
        let mut j: usize = 0;
        while j < segchars.len()
            invariant
                0 <= j <= segchars.len(),
                out@ == if idx == 0 {
                    segchars@.take(j as int)
                } else {
                    spec_join_slash(dv.take(idx as int)) + seq!['/'] + segchars@.take(j as int)
                },
            decreases segchars.len() - j,
        {
            out.push(segchars[j]);
            assert(segchars@.take(j + 1) =~= segchars@.take(j as int).push(segchars@[j as int]));
            j = j + 1;
        }
        assert(segchars@.take(segchars.len() as int) =~= segchars@);
        proof {
            let next = dv.take(idx + 1);
            assert(next.drop_last() =~= dv.take(idx as int));
            assert(next.last() == dv[idx as int]);
            if idx == 0 {
                assert(spec_join_slash(next) == next[0]);
                assert(next[0] == dv[0]);
            }
        }
        idx = idx + 1;
    }
    assert(t.deep_view().take(t.len() as int) =~= t.deep_view());
    chars_to_string(&out)
}

} // verus!
