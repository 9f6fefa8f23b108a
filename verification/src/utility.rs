//! Tag extraction: scanning free text for tag tokens such as
//! `@work/projectA` and turning them into hierarchical tags.
//!
//! A tag token begins at the start of the input or right after
//! whitespace, with the marker `@`, followed by one or more characters
//! from the tag character class; it ends at the first character outside
//! that class or at the end of the input. The marker is stripped and the
//! token is split on `/` into segments. A token that would yield an
//! empty segment (a bare `@/`, a doubled `//`) is discarded silently.
//!
//! Two scanners are offered: a pattern-style scanner that looks for
//! token starts position by position, and a hand-rolled single-pass
//! scanner that tracks whether it is inside a candidate token. Both are
//! proved to return exactly [`canon_tags`] of the input, so they agree
//! on every input.

use vstd::prelude::*;

pub use crate::tree::display_as_tree;

use crate::Tag;
use crate::tagset::{sorted_insert_tag, TagSet};
use crate::text::{
    chars_to_string, spec_is_space_char, spec_is_valid_tag_char, str_to_chars,
};

verus! {

/// The characters a tag token may contain after the `@` marker:
/// ASCII letters, digits, `_`, `-` and the hierarchy separator `/`.
pub fn is_valid_tag_char(ch: char) -> (r: bool)
    ensures
        r == spec_is_valid_tag_char(ch),
{
    ('a' <= ch && ch <= 'z') || ('A' <= ch && ch <= 'Z') || ('0' <= ch && ch <= '9') || ch == '_'
        || ch == '-' || ch == '/'
}

/// A tag token starts at position `i` of `s`: the marker `@` sits at a
/// word boundary (start of input or after whitespace) and at least one
/// tag character follows it.
pub open spec fn starts_token(s: Seq<char>, i: int) -> bool {
    &&& 0 <= i
    &&& i + 1 < s.len()
    &&& s[i] == '@'
    &&& (i == 0 || spec_is_space_char(s[i - 1]))
    &&& spec_is_valid_tag_char(s[i + 1])
}

/// The first position at or after `j` that ends a run of tag characters.
pub open spec fn token_end(s: Seq<char>, j: int) -> int
    decreases s.len() - j,
{
    if j < 0 || j >= s.len() {
        j
    } else if !spec_is_valid_tag_char(s[j]) {
        j
    } else {
        token_end(s, j + 1)
    }
}

pub proof fn lemma_token_end_range(s: Seq<char>, j: int)
    requires
        0 <= j <= s.len(),
    ensures
        j <= token_end(s, j) <= s.len(),
        forall|m: int| j <= m < token_end(s, j) ==> spec_is_valid_tag_char(s[m]),
        token_end(s, j) < s.len() ==> !spec_is_valid_tag_char(s[token_end(s, j)]),
    decreases s.len() - j,
{
    if j < s.len() && spec_is_valid_tag_char(s[j]) {
        lemma_token_end_range(s, j + 1);
    }
}

/// A run of tag characters from `j` to `e` pins down `token_end`.
pub proof fn lemma_token_end_determined(s: Seq<char>, j: int, e: int)
    requires
        0 <= j <= e <= s.len(),
        forall|m: int| j <= m < e ==> spec_is_valid_tag_char(s[m]),
        e < s.len() ==> !spec_is_valid_tag_char(s[e]),
    ensures
        token_end(s, j) == e,
    decreases e - j,
{
    if j < e {
        lemma_token_end_determined(s, j + 1, e);
    }
}

/// Split a character sequence on `/`, as Rust's `split('/')` does:
/// an empty input yields one empty segment, and each separator opens a
/// new segment.
pub open spec fn spec_split_slash(t: Seq<char>) -> Seq<Seq<char>>
    decreases t.len(),
{
    if t.len() == 0 {
        seq![Seq::<char>::empty()]
    } else if t[0] == '/' {
        seq![Seq::<char>::empty()] + spec_split_slash(t.drop_first())
    } else {
        seq![seq![t[0]] + spec_split_slash(t.drop_first())[0]] + spec_split_slash(
            t.drop_first(),
        ).skip(1)
    }
}

pub proof fn lemma_split_slash_len(t: Seq<char>)
    ensures
        spec_split_slash(t).len() >= 1,
    decreases t.len(),
{
    if t.len() > 0 {
        lemma_split_slash_len(t.drop_first());
    }
}

/// Prepending one character to the input shifts the split by one
/// character or one segment.
proof fn lemma_split_slash_step(c: char, t: Seq<char>)
    ensures
        c == '/' ==> spec_split_slash(seq![c] + t) == seq![Seq::<char>::empty()]
            + spec_split_slash(t),
        c != '/' ==> spec_split_slash(seq![c] + t) == seq![seq![c] + spec_split_slash(t)[0]]
            + spec_split_slash(t).skip(1),
{
    let u = seq![c] + t;
    assert(u.len() > 0);
    assert(u[0] == c);
    assert(u.drop_first() =~= t);
}

/// Every segment of the split is non-empty.
pub open spec fn all_segments_nonempty(segs: Seq<Seq<char>>) -> bool {
    forall|i: int| 0 <= i < segs.len() ==> (#[trigger] segs[i]).len() > 0
}

/// The characters of the token that starts at position `i` of `s`
/// (the marker excluded).
pub open spec fn token_chars(s: Seq<char>, i: int) -> Seq<char> {
    s.subrange(i + 1, token_end(s, i + 1))
}

/// The hierarchical tag made from the token that starts at position `i`.
pub open spec fn token_tag(s: Seq<char>, i: int) -> Seq<Seq<char>> {
    spec_split_slash(token_chars(s, i))
}

/// The canonical tagset of the first `b` characters of `s`: tags of all
/// tokens that start before `b`, inserted in scanning order into a
/// sorted, duplicate-free sequence. Tokens with an empty segment are
/// discarded.
pub open spec fn canon_upto(s: Seq<char>, b: int) -> Seq<Seq<Seq<char>>>
    decreases b,
{
    if b <= 0 {
        Seq::empty()
    } else {
        let prev = canon_upto(s, b - 1);
        if starts_token(s, b - 1) && all_segments_nonempty(token_tag(s, b - 1)) {
            sorted_insert_tag(prev, token_tag(s, b - 1))
        } else {
            prev
        }
    }
}

/// The canonical tagset of a whole text: the sorted sequence of the
/// distinct hierarchical tags of all its tag tokens.
pub open spec fn canon_tags(s: Seq<char>) -> Seq<Seq<Seq<char>>> {
    canon_upto(s, s.len() as int)
}

/// Positions without a token start contribute nothing.
pub proof fn lemma_canon_skip(s: Seq<char>, a: int, b: int)
    requires
        0 <= a <= b,
        forall|k: int| a <= k < b ==> !starts_token(s, k),
    ensures
        canon_upto(s, b) == canon_upto(s, a),
    decreases b - a,
{
    if a < b {
        lemma_canon_skip(s, a, b - 1);
    }
}

/// Split a token's characters on `/` into owned segments.
fn parse_segments(tok: &Vec<char>) -> (r: Vec<String>)
    ensures
        r.deep_view() == spec_split_slash(tok@),
{
    let ghost full = tok@;
    let mut done: Vec<String> = Vec::new();
    let mut cur: Vec<char> = Vec::new();
    let mut k: usize = 0;
    proof {
        assert(full.skip(0) =~= full);
    }
    while k < tok.len()
        invariant
            0 <= k <= tok.len(),
            full == tok@,
            forall|q: int| 0 <= q < done@.len() ==> done.deep_view()[q] == done@[q]@,
            done.deep_view().len() == done@.len(),
            spec_split_slash(full) == done.deep_view() + seq![
                cur@ + spec_split_slash(full.skip(k as int))[0],
            ] + spec_split_slash(full.skip(k as int)).skip(1),
        decreases tok.len() - k,
    {
        let ghost suffix = full.skip(k as int);
        let ghost suffix2 = full.skip(k as int + 1);
        proof {
            assert(suffix =~= seq![full[k as int]] + suffix2);
            lemma_split_slash_step(full[k as int], suffix2);
            lemma_split_slash_len(suffix2);
        }
        let c = tok[k];
        if c == '/' {
            let ghost old_done = done.deep_view();
            let seg = chars_to_string(&cur);
            done.push(seg);
            cur = Vec::new();
            proof {
                assert(done.deep_view() =~= old_done.push(seg@)) by {
                    assert(forall|q: int|
                        0 <= q < done@.len() ==> done.deep_view()[q] == done@[q]@);
                }
                assert(spec_split_slash(suffix)[0] =~= Seq::<char>::empty());
                assert(spec_split_slash(suffix).skip(1) =~= spec_split_slash(suffix2));
                assert(spec_split_slash(suffix2) =~= seq![spec_split_slash(suffix2)[0]]
                    + spec_split_slash(suffix2).skip(1));
                assert(done.deep_view() + seq![cur@ + spec_split_slash(suffix2)[0]]
                    + spec_split_slash(suffix2).skip(1) =~~= old_done + seq![
                    seg@ + spec_split_slash(suffix)[0],
                ] + spec_split_slash(suffix).skip(1));
            }
        } else {
            let ghost old_cur = cur@;
            cur.push(c);
            proof {
                assert(spec_split_slash(suffix)[0] =~= seq![c] + spec_split_slash(suffix2)[0]);
                assert(spec_split_slash(suffix).skip(1) =~= spec_split_slash(suffix2).skip(1));
                assert(cur@ + spec_split_slash(suffix2)[0] =~= old_cur + spec_split_slash(
                    suffix,
                )[0]);
                assert(done.deep_view() + seq![cur@ + spec_split_slash(suffix2)[0]]
                    + spec_split_slash(suffix2).skip(1) =~~= done.deep_view() + seq![
                    old_cur + spec_split_slash(suffix)[0],
                ] + spec_split_slash(suffix).skip(1));
            }
        }
        k = k + 1;
    }
    let ghost old_done = done.deep_view();
    let seg = chars_to_string(&cur);
    done.push(seg);
    proof {
        let tail = full.skip(full.len() as int);
        assert(tail =~= Seq::<char>::empty());
        assert(spec_split_slash(tail) =~= seq![Seq::<char>::empty()]);
        assert(done.deep_view() =~= old_done.push(seg@)) by {
            assert(forall|q: int| 0 <= q < done@.len() ==> done.deep_view()[q] == done@[q]@);
        }
        assert(cur@ + spec_split_slash(tail)[0] =~= cur@);
        assert(spec_split_slash(tail).skip(1) =~= Seq::<Seq<char>>::empty());
        assert(done.deep_view() =~~= spec_split_slash(full));
    }
    done
}

/// Scan text for tag tokens with the pattern of the token grammar in
/// mind: at each position, test whether a token starts there; when one
/// does, consume the whole run of tag characters, parse it, and insert
/// the tag. Returns exactly the canonical tagset of the text.
pub fn get_tags_from_string(contents: &str) -> (r: TagSet)
    ensures
        r@ == canon_tags(contents@),
        r.wf(),
        forall|t: Seq<Seq<char>>| #[trigger] r@.contains(t) <==> is_text_tag(contents@, t),
{
    proof {
        lemma_canon_tags_characterization(contents@);
    }
    let ghost s = contents@;
    let cs = str_to_chars(contents);
    let n = cs.len();
    let mut r = TagSet::new();
    let mut i: usize = 0;
    while i < n
        invariant
            0 <= i <= n,
            n == s.len(),
            cs@ == s,
            r@ == canon_upto(s, i as int),
            r.wf(),
        decreases n - i,
    {
        let at_boundary = i == 0 || crate::text::is_space_char(cs[i - 1]);
        if cs[i] == '@' && at_boundary && i + 1 < n && is_valid_tag_char(cs[i + 1]) {
            assert(starts_token(s, i as int));
            let mut j: usize = i + 1;
            while j < n && is_valid_tag_char(cs[j])
                invariant
                    i + 1 <= j <= n,
                    n == s.len(),
                    cs@ == s,
                    forall|m: int| i + 1 <= m < j ==> spec_is_valid_tag_char(s[m]),
                decreases n - j,
            {
                j = j + 1;
            }
            proof {
                lemma_token_end_determined(s, i as int + 1, j as int);
            }
            let mut tok: Vec<char> = Vec::new();
            let mut m: usize = i + 1;
            while m < j
                invariant
                    i + 1 <= m <= j,
                    j <= n,
                    n == s.len(),
                    cs@ == s,
                    tok@ =~= s.subrange(i as int + 1, m as int),
                decreases j - m,
            {
                tok.push(cs[m]);
                assert(tok@ =~= s.subrange(i as int + 1, m as int + 1));
                m = m + 1;
            }
            assert(tok@ =~= token_chars(s, i as int));
            let segs = parse_segments(&tok);
            let ghost dv = segs.deep_view();
            assert(dv == token_tag(s, i as int));
            let mut ok = true;
            let mut q: usize = 0;
            while q < segs.len()
                invariant
                    0 <= q <= segs@.len(),
                    dv == segs.deep_view(),
                    dv.len() == segs@.len(),
                    forall|p: int| 0 <= p < segs@.len() ==> dv[p] == segs@[p]@,
                    ok ==> forall|p: int| 0 <= p < q ==> (#[trigger] dv[p]).len() > 0,
                    !ok ==> !all_segments_nonempty(dv),
                decreases segs@.len() - q,
            {
                if segs[q].as_str().is_empty() {
                    assert(dv[q as int].len() == 0);
                    ok = false;
                }
                q = q + 1;
            }
            assert(ok == all_segments_nonempty(dv));
            if ok {
                r.insert(segs);
            }
            assert(r@ == canon_upto(s, i as int + 1));
            proof {
                assert forall|k: int| i + 1 <= k < j implies !starts_token(s, k) by {
                    assert(spec_is_valid_tag_char(s[k]));
                    assert(s[k] != '@');
                }
                lemma_canon_skip(s, i as int + 1, j as int);
            }
            i = j;
        } else {
            proof {
                assert(!starts_token(s, i as int));
            }
            i = i + 1;
        }
    }
    r
}

/// `t` is the tag of some token that starts before position `b` of `s`
/// and yields no empty segment.
pub open spec fn is_text_tag_upto(s: Seq<char>, b: int, t: Seq<Seq<char>>) -> bool {
    exists|k: int|
        0 <= k < b && #[trigger] starts_token(s, k) && all_segments_nonempty(token_tag(s, k))
            && token_tag(s, k) == t
}

/// `t` is the tag of some token of the text `s`.
pub open spec fn is_text_tag(s: Seq<char>, t: Seq<Seq<char>>) -> bool {
    is_text_tag_upto(s, s.len() as int, t)
}

/// The canonical tagset holds exactly the tags of the text's tokens:
/// what the scanners return is neither more nor less than what the
/// token grammar names.
pub proof fn lemma_canon_tags_characterization(s: Seq<char>)
    ensures
        forall|t: Seq<Seq<char>>| #[trigger] canon_tags(s).contains(t) <==> is_text_tag(s, t),
{
    lemma_canon_upto_characterization(s, s.len() as int);
}

proof fn lemma_canon_upto_characterization(s: Seq<char>, b: int)
    requires
        0 <= b,
    ensures
        forall|t: Seq<Seq<char>>|
            #[trigger] canon_upto(s, b).contains(t) <==> is_text_tag_upto(s, b, t),
    decreases b,
{
    if b > 0 {
        lemma_canon_upto_characterization(s, b - 1);
        let prev = canon_upto(s, b - 1);
        if starts_token(s, b - 1) && all_segments_nonempty(token_tag(s, b - 1)) {
            crate::tagset::lemma_sorted_insert_tag_contains(prev, token_tag(s, b - 1));
            assert forall|t: Seq<Seq<char>>| #[trigger] canon_upto(s, b).contains(t) implies
                is_text_tag_upto(s, b, t) by {
                if prev.contains(t) {
                    let k = choose|k: int|
                        0 <= k < b - 1 && #[trigger] starts_token(s, k) && all_segments_nonempty(
                            token_tag(s, k),
                        ) && token_tag(s, k) == t;
                    assert(starts_token(s, k));
                } else {
                    assert(t == token_tag(s, b - 1));
                    assert(starts_token(s, b - 1));
                }
            }
        } else {
            assert forall|t: Seq<Seq<char>>| is_text_tag_upto(s, b, t) implies #[trigger]
                canon_upto(s, b).contains(t) by {
                let k = choose|k: int|
                    0 <= k < b && #[trigger] starts_token(s, k) && all_segments_nonempty(
                        token_tag(s, k),
                    ) && token_tag(s, k) == t;
                assert(k != b - 1);
                assert(is_text_tag_upto(s, b - 1, t));
            }
        }
    }
}

/// Parse an accumulated token and insert its tag, unless a segment is
/// empty. Brings the canonical tagset from the token's start to its end.
fn flush_token(
    r: &mut TagSet,
    cur: &Vec<char>,
    Ghost(s): Ghost<Seq<char>>,
    Ghost(g): Ghost<int>,
    Ghost(e): Ghost<int>,
)
    requires
        starts_token(s, g),
        0 <= g,
        g + 1 <= e <= s.len(),
        token_end(s, g + 1) == e,
        cur@ == s.subrange(g + 1, e),
        old(r)@ == canon_upto(s, g),
        old(r).wf(),
    ensures
        final(r)@ == canon_upto(s, e),
        final(r).wf(),
{
    let segs = parse_segments(cur);
    let ghost dv = segs.deep_view();
    assert(dv == token_tag(s, g));
    let mut ok = true;
    let mut q: usize = 0;
    while q < segs.len()
        invariant
            0 <= q <= segs@.len(),
            dv == segs.deep_view(),
            dv.len() == segs@.len(),
            forall|p: int| 0 <= p < segs@.len() ==> dv[p] == segs@[p]@,
            ok ==> forall|p: int| 0 <= p < q ==> (#[trigger] dv[p]).len() > 0,
            !ok ==> !all_segments_nonempty(dv),
        decreases segs@.len() - q,
    {
        if segs[q].as_str().is_empty() {
            assert(dv[q as int].len() == 0);
            ok = false;
        }
        q = q + 1;
    }
    assert(ok == all_segments_nonempty(dv));
    if ok {
        r.insert(segs);
    }
    assert(r@ == canon_upto(s, g + 1));
    proof {
        lemma_token_end_range(s, g + 1);
        assert forall|k: int| g + 1 <= k < e implies !starts_token(s, k) by {
            assert(spec_is_valid_tag_char(s[k]));
            assert(s[k] != '@');
        }
        lemma_canon_skip(s, g + 1, e);
    }
}

/// Scan text for tag tokens with a hand-rolled single-pass character
/// scanner: it tracks whether it stands at a word boundary, whether it
/// has just seen a marker, and whether it is inside a candidate token,
/// flushing the accumulated token at the first invalid character or at
/// the end of the input. Returns exactly the canonical tagset of the
/// text, so it agrees with [`get_tags_from_string`] on every input.
pub fn get_tags_from_string_2(contents: &str) -> (r: TagSet)
    ensures
        r@ == canon_tags(contents@),
        r.wf(),
        forall|t: Seq<Seq<char>>| #[trigger] r@.contains(t) <==> is_text_tag(contents@, t),
{
    proof {
        lemma_canon_tags_characterization(contents@);
    }
    let ghost s = contents@;
    let cs = str_to_chars(contents);
    let n = cs.len();
    let mut r = TagSet::new();
    let mut cur: Vec<char> = Vec::new();
    let mut in_marker = false;
    let mut in_token = false;
    let mut boundary = true;
    let ghost mut g: int = 0;
    let mut i: usize = 0;
    while i < n
        invariant
            0 <= i <= n,
            n == s.len(),
            cs@ == s,
            r.wf(),
            !(in_marker && in_token),
            in_marker ==> {
                &&& 0 <= g
                &&& g == i - 1
                &&& s[g] == '@'
                &&& (g == 0 || spec_is_space_char(s[g - 1]))
                &&& r@ == canon_upto(s, g)
                &&& cur@.len() == 0
            },
            in_token ==> {
                &&& 0 <= g
                &&& g + 2 <= i
                &&& starts_token(s, g)
                &&& (forall|m: int| g + 1 <= m < i ==> spec_is_valid_tag_char(s[m]))
                &&& cur@ == s.subrange(g + 1, i as int)
                &&& r@ == canon_upto(s, g)
            },
            (!in_marker && !in_token) ==> {
                &&& r@ == canon_upto(s, i as int)
                &&& cur@.len() == 0
                &&& boundary == (i == 0 || spec_is_space_char(s[i - 1]))
            },
        decreases n - i,
    {
        let c = cs[i];
        if in_token {
            if is_valid_tag_char(c) {
                cur.push(c);
                assert(cur@ =~= s.subrange(g + 1, i as int + 1));
            } else {
                proof {
                    lemma_token_end_determined(s, g + 1, i as int);
                }
                flush_token(&mut r, &cur, Ghost(s), Ghost(g), Ghost(i as int));
                proof {
                    assert(!starts_token(s, i as int)) by {
                        assert(spec_is_valid_tag_char(s[i - 1]));
                        assert(!spec_is_space_char(s[i - 1]));
                    }
                    lemma_canon_skip(s, i as int, i as int + 1);
                }
                in_token = false;
                cur = Vec::new();
                boundary = crate::text::is_space_char(c);
            }
        } else if in_marker {
            if is_valid_tag_char(c) {
                assert(starts_token(s, g));
                in_marker = false;
                in_token = true;
                cur.push(c);
                assert(cur@ =~= s.subrange(g + 1, i as int + 1));
            } else {
                proof {
                    assert(!starts_token(s, g)) by {
                        assert(!spec_is_valid_tag_char(s[g + 1]));
                    }
                    lemma_canon_skip(s, g, g + 1);
                    assert(!starts_token(s, i as int)) by {
                        assert(s[i - 1] == '@');
                        assert(!spec_is_space_char('@'));
                    }
                    lemma_canon_skip(s, i as int, i as int + 1);
                }
                in_marker = false;
                boundary = crate::text::is_space_char(c);
            }
        } else {
            if c == '@' && boundary {
                in_marker = true;
                proof {
                    g = i as int;
                }
            } else {
                proof {
                    assert(!starts_token(s, i as int));
                    lemma_canon_skip(s, i as int, i as int + 1);
                }
                boundary = crate::text::is_space_char(c);
            }
        }
        i = i + 1;
    }
    if in_token {
        proof {
            lemma_token_end_determined(s, g + 1, n as int);
        }
        flush_token(&mut r, &cur, Ghost(s), Ghost(g), Ghost(n as int));
    } else if in_marker {
        proof {
            assert(!starts_token(s, g)) by {
                assert(g + 1 == n);
            }
            lemma_canon_skip(s, g, n as int);
        }
    }
    r
}

/// The input with every leading `@` removed, as
/// `str::trim_start_matches('@')` computes it.
pub open spec fn spec_strip_ats(s: Seq<char>) -> Seq<char>
    decreases s.len(),
{
    if s.len() > 0 && s[0] == '@' {
        spec_strip_ats(s.drop_first())
    } else {
        s
    }
}

proof fn lemma_strip_ats_skip(s: Seq<char>, k: int)
    requires
        0 <= k <= s.len(),
        forall|m: int| 0 <= m < k ==> s[m] == '@',
        k < s.len() ==> s[k] != '@',
    ensures
        spec_strip_ats(s) == s.skip(k),
    decreases k,
{
    if k == 0 {
        assert(s.skip(0) =~= s);
    } else {
        assert(s.len() > 0 && s[0] == '@');
        lemma_strip_ats_skip(s.drop_first(), k - 1);
        assert(s.drop_first().skip(k - 1) =~= s.skip(k));
    }
}

/// Parse one token, already stripped of its surroundings, into a
/// hierarchical tag: leading `@` markers are removed and the rest is
/// split on `/` into segments.
pub fn parse_heirarchical_tag(s: &str) -> (r: Tag)
    ensures
        r.deep_view() == spec_split_slash(spec_strip_ats(s@)),
{
    let cs = str_to_chars(s);
    let n = cs.len();
    let mut k: usize = 0;
    while k < n && cs[k] == '@'
        invariant
            0 <= k <= n,
            n == cs@.len(),
            cs@ == s@,
            forall|m: int| 0 <= m < k ==> s@[m] == '@',
        decreases n - k,
    {
        k = k + 1;
    }
    proof {
        lemma_strip_ats_skip(s@, k as int);
    }
    let mut tok: Vec<char> = Vec::new();
    let mut m: usize = k;
    while m < n
        invariant
            k <= m <= n,
            n == cs@.len(),
            cs@ == s@,
            tok@ =~= s@.subrange(k as int, m as int),
        decreases n - m,
    {
        tok.push(cs[m]);
        m = m + 1;
    }
    assert(tok@ =~= s@.skip(k as int));
    parse_segments(&tok)
}

} // verus!
