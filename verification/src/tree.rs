//! The tree renderer: a sorted tag vocabulary rendered as an indented
//! outline. Tags are sorted (and deduplicated — a duplicate tag would
//! emit nothing anyway); a stack of currently open segments is walked
//! against each tag in turn, and every newly opened segment is emitted
//! as one line, indented four spaces per level above the root.

use vstd::prelude::*;

use crate::Tag;
use crate::tagset::{clone_tag, insert_all_from, insert_all_tags, TagSet};
use crate::text::{chars_to_string, str_to_chars};

verus! {

/// Four spaces of indent for each level.
pub open spec fn spaces(p: int) -> Seq<char>
    decreases p,
{
    if p <= 0 {
        Seq::empty()
    } else {
        spaces(p - 1) + seq![' ', ' ', ' ', ' ']
    }
}

/// Walk one tag's segments from position `p` against the open path:
/// positions already open are passed over; from the first difference
/// on, the path is cut back and every remaining segment is pushed and
/// emitted as one indented line. Yields the emitted text and the new
/// open path.
pub open spec fn render_segs(t: Seq<Seq<char>>, p: int, path: Seq<Seq<char>>) -> (Seq<char>, Seq<
    Seq<char>,
>)
    decreases t.len() - p,
{
    if p < 0 || p >= t.len() {
        (Seq::<char>::empty(), path)
    } else if p < path.len() && path[p] == t[p] {
        render_segs(t, p + 1, path)
    } else {
        let newpath = path.take(if p <= path.len() {
            p
        } else {
            path.len() as int
        }).push(t[p]);
        let line = spaces(p) + t[p] + seq!['\n'];
        let r = render_segs(t, p + 1, newpath);
        (line + r.0, r.1)
    }
}

/// Render the tags from position `k` on, with the given open path.
pub open spec fn render_from(tags: Seq<Seq<Seq<char>>>, k: int, path: Seq<Seq<char>>) -> Seq<char>
    decreases tags.len() - k,
{
    if k < 0 || k >= tags.len() {
        Seq::empty()
    } else {
        let r = render_segs(tags[k], 0, path);
        r.0 + render_from(tags, k + 1, r.1)
    }
}

/// The outline of an already sorted tag sequence.
pub open spec fn spec_render_tree(sorted_tags: Seq<Seq<Seq<char>>>) -> Seq<char> {
    render_from(sorted_tags, 0, Seq::empty())
}

/// The outline of an arbitrary tag sequence: sorted and deduplicated
/// first, then rendered.
pub open spec fn spec_display_as_tree(tags: Seq<Seq<Seq<char>>>) -> Seq<char> {
    spec_render_tree(insert_all_tags(Seq::empty(), tags))
}

/// Render a tag vocabulary as a sorted, indented outline, shared
/// ancestor paths printed exactly once.
pub fn display_as_tree(heirarchy: &Vec<Tag>) -> (r: String)
    ensures
        r@ == spec_display_as_tree(heirarchy.deep_view()),
{
    let ghost dv = heirarchy.deep_view();
    proof {
        assert(forall|p: int| 0 <= p < heirarchy@.len() ==> dv[p] == heirarchy@[p].deep_view());
    }
    let mut sorted = TagSet::new();
    assert(sorted@ =~= Seq::<Seq<Seq<char>>>::empty());
    let mut k: usize = 0;
    while k < heirarchy.len()
        invariant
            0 <= k <= heirarchy@.len(),
            dv == heirarchy.deep_view(),
            dv.len() == heirarchy@.len(),
            forall|p: int| 0 <= p < heirarchy@.len() ==> dv[p] == heirarchy@[p].deep_view(),
            insert_all_tags(Seq::empty(), dv) == insert_all_from(sorted@, dv, k as int),
            sorted.wf(),
        decreases heirarchy@.len() - k,
    {
        let t = clone_tag(&heirarchy[k]);
        sorted.insert(t);
        k = k + 1;
    }
    let ghost v = sorted@;
    proof {
        assert(forall|p: int| 0 <= p < sorted.tags@.len() ==> v[p] == sorted.tags@[p].deep_view());
    }
    let n = sorted.tags.len();
    let mut out: Vec<char> = Vec::new();
    let mut path: Vec<String> = Vec::new();
    proof {
        assert(out@ =~= Seq::<char>::empty());
        assert(path.deep_view() =~= Seq::<Seq<char>>::empty());
    }
    let mut i: usize = 0;
    while i < n
        invariant
            0 <= i <= n,
            v == sorted@,
            v.len() == n,
            n == sorted.tags@.len(),
            forall|p: int| 0 <= p < sorted.tags@.len() ==> v[p] == sorted.tags@[p].deep_view(),
            path.deep_view().len() == path@.len(),
            forall|q: int| 0 <= q < path@.len() ==> path.deep_view()[q] == path@[q]@,
            spec_render_tree(v) == out@ + render_from(v, i as int, path.deep_view()),
        decreases n - i,
    {
        let t = &sorted.tags[i];
        let ghost tv = v[i as int];
        proof {
            assert(tv == t.deep_view());
            assert(forall|q: int| 0 <= q < t@.len() ==> tv[q] == t@[q]@);
        }
        let nt = t.len();
        let mut p: usize = 0;
        while p < nt
            invariant
                0 <= p <= nt,
                0 <= i < n,
                v == sorted@,
                v.len() == n,
                n == sorted.tags@.len(),
                forall|pp: int|
                    0 <= pp < sorted.tags@.len() ==> v[pp] == sorted.tags@[pp].deep_view(),
                tv == v[i as int],
                nt == tv.len(),
                path.deep_view().len() == path@.len(),
                forall|q: int| 0 <= q < path@.len() ==> path.deep_view()[q] == path@[q]@,
                spec_render_tree(v) == out@ + (render_segs(tv, p as int, path.deep_view()).0
                    + render_from(v, i as int + 1, render_segs(
                    tv,
                    p as int,
                    path.deep_view(),
                ).1)),
            decreases nt - p,
        {
            let ghost pdv = path.deep_view();
            let seg = &sorted.tags[i][p];
            proof {
                assert(tv[p as int] == seg@);
            }
            if p < path.len() && path[p] == *seg {
                proof {
                    assert(pdv[p as int] == tv[p as int]);
                }
            } else {
                proof {
                    assert(!(p < pdv.len() && pdv[p as int] == tv[p as int]));
                }
                path.truncate(p);
                path.push(seg.clone());
                proof {
                    assert(path.deep_view() =~= pdv.take(if p <= pdv.len() {
                        p as int
                    } else {
                        pdv.len() as int
                    }).push(tv[p as int])) by {
                        assert(forall|q: int|
                            0 <= q < path@.len() ==> path.deep_view()[q] == path@[q]@);
                    }
                }
                let ghost out0 = out@;
                let mut m: usize = 0;
                while m < p
                    invariant
                        0 <= m <= p,
                        out@ == out0 + spaces(m as int),
                    decreases p - m,
                {
                    out.push(' ');
                    out.push(' ');
                    out.push(' ');
                    out.push(' ');
                    proof {
                        assert(out@ =~= out0 + spaces(m as int + 1));
                    }
                    m = m + 1;
                }
                let segchars = str_to_chars(seg.as_str());
                let mut w: usize = 0;
                while w < segchars.len()
                    invariant
                        0 <= w <= segchars@.len(),
                        segchars@ == tv[p as int],
                        0 <= p,
                        tv == v[i as int],
                        out@ == out0 + spaces(p as int) + tv[p as int].take(w as int),
                    decreases segchars@.len() - w,
                {
                    out.push(segchars[w]);
                    proof {
                        assert(out@ =~= out0 + spaces(p as int) + tv[p as int].take(
                            w as int + 1,
                        ));
                    }
                    w = w + 1;
                }
                out.push('\n');
                proof {
                    assert(tv[p as int].take(tv[p as int].len() as int) =~= tv[p as int]);
                    assert(out@ =~= out0 + (spaces(p as int) + tv[p as int] + seq!['\n']));
                }
            }
            p = p + 1;
        }
        proof {
            assert(render_segs(tv, nt as int, path.deep_view()).0 =~= Seq::<char>::empty());
            assert(out@ + Seq::<char>::empty() =~= out@);
        }
        i = i + 1;
    }
    proof {
        assert(render_from(v, n as int, path.deep_view()) =~= Seq::<char>::empty());
        assert(out@ + Seq::<char>::empty() =~= out@);
    }
    chars_to_string(&out)
}

} // verus!
