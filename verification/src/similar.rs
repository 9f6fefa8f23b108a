//! The near-duplicate heuristic: across the whole tag vocabulary, every
//! ordered pair of tags is compared segment by segment up to the first
//! differing position; segments equal but for case yield a `Case` issue,
//! segments equal but for one trailing `s` on the longer one yield a
//! `Plural` issue, and the comparison never looks past the first
//! difference. Each distinct issue value is reported once.

use vstd::prelude::*;

use crate::Tag;
use crate::filter::{FileText, FileTextV, Filter};
use crate::tagset::{insert_all_tags, TagSet};
use crate::text::{lower_of, lowercase};
use crate::utility::{canon_tags, get_tags_from_string};

verus! {

/// A detected near-duplicate pair of tag segments.
#[derive(Debug, PartialEq, Eq, Clone)]
pub enum Issue {
    Plural(String, String),
    Case(String, String),
}

/// The mathematical image of an [`Issue`].
pub enum IssueV {
    Plural(Seq<char>, Seq<char>),
    Case(Seq<char>, Seq<char>),
}

impl View for Issue {
    type V = IssueV;

    open spec fn view(&self) -> IssueV {
        match self {
            Issue::Plural(a, b) => IssueV::Plural(a@, b@),
            Issue::Case(a, b) => IssueV::Case(a@, b@),
        }
    }
}

impl DeepView for Issue {
    type V = IssueV;

    open spec fn deep_view(&self) -> IssueV {
        self.view()
    }
}

impl Issue {
    /// Render the issue for display, as `Plural - a & b` or
    /// `Case - a & b`.
    pub fn describe(&self) -> (r: String)
        ensures
            r@ == spec_describe_issue(self@),
    {
        match self {
            Issue::Plural(a, b) => {
                let mut s = a.clone();
                s.append(" & ");
                s.append(b.as_str());
                let mut out = String::new();
                out.append("Plural - ");
                out.append(s.as_str());
                out
            },
            Issue::Case(a, b) => {
                let mut s = a.clone();
                s.append(" & ");
                s.append(b.as_str());
                let mut out = String::new();
                out.append("Case - ");
                out.append(s.as_str());
                out
            },
        }
    }
}

/// The display form of an issue.
pub open spec fn spec_describe_issue(i: IssueV) -> Seq<char> {
    match i {
        IssueV::Plural(a, b) => "Plural - "@ + a + " & "@ + b,
        IssueV::Case(a, b) => "Case - "@ + a + " & "@ + b,
    }
}

/// Two segments differ only in plurality: the longer one is the
/// shorter one with a single trailing `s` appended.
pub open spec fn plural_variant(a: Seq<char>, b: Seq<char>) -> bool {
    a == b + seq!['s'] || b == a + seq!['s']
}

/// What one differing segment pair yields: a case issue when the
/// segments agree under case folding, else a plural issue when one is
/// the other with a single trailing `s` appended, else nothing.
pub open spec fn seg_issue(a: Seq<char>, b: Seq<char>) -> Option<IssueV> {
    if lower_of(a) == lower_of(b) {
        Option::Some(IssueV::Case(a, b))
    } else if plural_variant(a, b) {
        Option::Some(IssueV::Plural(a, b))
    } else {
        Option::None
    }
}

/// Decide whether one segment is the other plus a single trailing `s`.
fn is_plural_variant(a: &String, b: &String) -> (r: bool)
    ensures
        r == plural_variant(a@, b@),
{
    proof {
        reveal_strlit("s");
        assert("s"@ =~= seq!['s']);
    }
    let mut a_s = a.clone();
    a_s.append("s");
    let mut b_s = b.clone();
    b_s.append("s");
    *a == b_s || *b == a_s
}

/// Compare two tags segment by segment, stopping at the first
/// difference: the result is decided there and nowhere later.
pub open spec fn tag_issue(t1: Seq<Seq<char>>, t2: Seq<Seq<char>>) -> Option<IssueV>
    decreases t1.len(),
{
    if t1.len() == 0 || t2.len() == 0 {
        Option::None
    } else if t1[0] == t2[0] {
        tag_issue(t1.drop_first(), t2.drop_first())
    } else {
        seg_issue(t1[0], t2[0])
    }
}

/// The comparison is decided at the first differing position.
proof fn lemma_tag_issue_at(t1: Seq<Seq<char>>, t2: Seq<Seq<char>>, k: int)
    requires
        0 <= k <= t1.len(),
        k <= t2.len(),
        forall|m: int| 0 <= m < k ==> t1[m] == t2[m],
    ensures
        (k == t1.len() || k == t2.len()) ==> tag_issue(t1, t2) == Option::<IssueV>::None,
        (k < t1.len() && k < t2.len() && t1[k] != t2[k]) ==> tag_issue(t1, t2) == seg_issue(
            t1[k],
            t2[k],
        ),
    decreases k,
{
    if k == 0 {
    } else {
        assert(t1[0] == t2[0]);
        lemma_tag_issue_at(t1.drop_first(), t2.drop_first(), k - 1);
        assert(t1.drop_first().len() == t1.len() - 1);
        if k < t1.len() && k < t2.len() {
            assert(t1.drop_first()[k - 1] == t1[k]);
            assert(t2.drop_first()[k - 1] == t2[k]);
        }
    }
}

/// The view of an optional issue.
pub open spec fn issue_opt_view(r: Option<Issue>) -> Option<IssueV> {
    match r {
        Option::Some(i) => Option::Some(i@),
        Option::None => Option::None,
    }
}

/// Append a detected issue to the list unless an equal issue is
/// already there.
pub open spec fn push_issue(acc: Seq<IssueV>, o: Option<IssueV>) -> Seq<IssueV> {
    match o {
        Option::None => acc,
        Option::Some(x) => if acc.contains(x) {
            acc
        } else {
            acc.push(x)
        },
    }
}

/// One row of the all-pairs scan: tag `i` against tags `j, j+1, ...`.
pub open spec fn sim_row(
    vocab: Seq<Seq<Seq<char>>>,
    i: int,
    j: int,
    acc: Seq<IssueV>,
) -> Seq<IssueV>
    decreases vocab.len() - j,
{
    if j < 0 || j >= vocab.len() {
        acc
    } else {
        sim_row(vocab, i, j + 1, push_issue(acc, tag_issue(vocab[i], vocab[j])))
    }
}

/// The all-pairs scan from row `i` on.
pub open spec fn sim_rows(vocab: Seq<Seq<Seq<char>>>, i: int, acc: Seq<IssueV>) -> Seq<IssueV>
    decreases vocab.len() - i,
{
    if i < 0 || i >= vocab.len() {
        acc
    } else {
        sim_rows(vocab, i + 1, sim_row(vocab, i, 0, acc))
    }
}

/// Every ordered pair of the vocabulary compared, each distinct issue
/// kept once, in first-encounter order.
pub open spec fn spec_similar_issues(vocab: Seq<Seq<Seq<char>>>) -> Seq<IssueV> {
    sim_rows(vocab, 0, Seq::empty())
}

/// The whole tag vocabulary of the given files: the union of every
/// file's tagset, no filter applied.
pub open spec fn spec_vocabulary(files: Seq<FileTextV>) -> Seq<Seq<Seq<char>>>
    decreases files.len(),
{
    if files.len() == 0 {
        Seq::empty()
    } else {
        insert_all_tags(spec_vocabulary(files.drop_last()), canon_tags(files.last().text))
    }
}

/// The issues of the vocabulary of the given files.
pub open spec fn spec_similar_tags(files: Seq<FileTextV>) -> Seq<IssueV> {
    spec_similar_issues(spec_vocabulary(files))
}

/// What the vocabulary means: it holds exactly the tags that occur in
/// some file's tagset.
pub proof fn lemma_vocabulary_characterization(files: Seq<FileTextV>)
    ensures
        forall|t: Seq<Seq<char>>|
            #[trigger] spec_vocabulary(files).contains(t) <==> exists|i: int|
                0 <= i < files.len() && canon_tags(#[trigger] files[i].text).contains(t),
    decreases files.len(),
{
    if files.len() > 0 {
        let prev = spec_vocabulary(files.drop_last());
        let ts = canon_tags(files.last().text);
        lemma_vocabulary_characterization(files.drop_last());
        crate::tagset::lemma_insert_all_tags_contains(prev, ts);
        assert forall|t: Seq<Seq<char>>| #[trigger] spec_vocabulary(files).contains(t) implies
            exists|i: int|
                0 <= i < files.len() && canon_tags(#[trigger] files[i].text).contains(t) by {
            if prev.contains(t) {
                let i = choose|i: int|
                    0 <= i < files.drop_last().len() && canon_tags(
                        #[trigger] files.drop_last()[i].text,
                    ).contains(t);
                assert(canon_tags(files[i].text).contains(t));
            } else {
                assert(canon_tags(files[files.len() - 1].text).contains(t));
            }
        }
        assert forall|t: Seq<Seq<char>>| (exists|i: int|
            0 <= i < files.len() && canon_tags(#[trigger] files[i].text).contains(t)) implies
            #[trigger] spec_vocabulary(files).contains(t) by {
            let i = choose|i: int|
                0 <= i < files.len() && canon_tags(#[trigger] files[i].text).contains(t);
            if i < files.len() - 1 {
                assert(canon_tags(files.drop_last()[i].text).contains(t));
            } else {
                assert(ts.contains(t));
            }
        }
    }
}

/// Equality of two issues, by variant and both carried strings.
pub fn issue_eq(a: &Issue, b: &Issue) -> (r: bool)
    ensures
        r == (a@ == b@),
{
    match (a, b) {
        (Issue::Plural(a1, a2), Issue::Plural(b1, b2)) => *a1 == *b1 && *a2 == *b2,
        (Issue::Case(a1, a2), Issue::Case(b1, b2)) => *a1 == *b1 && *a2 == *b2,
        _ => false,
    }
}

/// Whether an equal issue is already in the list.
fn contains_issue(out: &Vec<Issue>, x: &Issue) -> (r: bool)
    ensures
        r == out.deep_view().contains(x@),
{
    let ghost dv = out.deep_view();
    proof {
        assert(forall|p: int| 0 <= p < out@.len() ==> dv[p] == out@[p]@);
    }
    let mut k: usize = 0;
    while k < out.len()
        invariant
            0 <= k <= out@.len(),
            dv == out.deep_view(),
            dv.len() == out@.len(),
            forall|p: int| 0 <= p < out@.len() ==> dv[p] == out@[p]@,
            forall|p: int| 0 <= p < k ==> dv[p] != x@,
        decreases out@.len() - k,
    {
        if issue_eq(&out[k], x) {
            assert(dv[k as int] == x@);
            return true;
        }
        k = k + 1;
    }
    false
}

impl Filter {
    /// Compare two tags and report a near-duplicate issue, if the first
    /// differing segment pair yields one.
    pub fn compare_heirarchical_tags(t1: &Tag, t2: &Tag) -> (r: Option<Issue>)
        ensures
            issue_opt_view(r) == tag_issue(t1.deep_view(), t2.deep_view()),
    {
        let ghost d1 = t1.deep_view();
        let ghost d2 = t2.deep_view();
        proof {
            assert(forall|q: int| 0 <= q < t1@.len() ==> d1[q] == t1@[q]@);
            assert(forall|q: int| 0 <= q < t2@.len() ==> d2[q] == t2@[q]@);
        }
        let n1 = t1.len();
        let n2 = t2.len();
        let mut k: usize = 0;
        while k < n1 && k < n2
            invariant
                0 <= k <= n1,
                k <= n2,
                n1 == t1@.len(),
                n2 == t2@.len(),
                d1 == t1.deep_view(),
                d2 == t2.deep_view(),
                d1.len() == n1,
                d2.len() == n2,
                forall|q: int| 0 <= q < t1@.len() ==> d1[q] == t1@[q]@,
                forall|q: int| 0 <= q < t2@.len() ==> d2[q] == t2@[q]@,
                forall|m: int| 0 <= m < k ==> d1[m] == d2[m],
            decreases n1 - k,
        {
            if !(t1[k] == t2[k]) {
                proof {
                    lemma_tag_issue_at(d1, d2, k as int);
                }
                let la = lowercase(t1[k].as_str());
                let lb = lowercase(t2[k].as_str());
                if la == lb {
                    return Some(Issue::Case(t1[k].clone(), t2[k].clone()));
                }
                if is_plural_variant(&t1[k], &t2[k]) {
                    return Some(Issue::Plural(t1[k].clone(), t2[k].clone()));
                }
                return None;
            }
            k = k + 1;
        }
        proof {
            lemma_tag_issue_at(d1, d2, k as int);
        }
        None
    }

    /// List possibly similar tags across the whole vocabulary of the
    /// given files, by the case and plural heuristics. If the ordered
    /// pair (A, B) yields an issue, the reversed pair yields its
    /// mirrored issue as a distinct value.
    pub fn similar_tags(&self, files: &Vec<FileText>) -> (r: Vec<Issue>)
        ensures
            r.deep_view() == spec_similar_tags(files.deep_view()),
    {
        let ghost fdv = files.deep_view();
        proof {
            assert(forall|p: int| 0 <= p < files@.len() ==> fdv[p] == files@[p]@);
        }
        let mut vocab = TagSet::new();
        assert(vocab@ =~= Seq::<Seq<Seq<char>>>::empty());
        let mut fi: usize = 0;
        while fi < files.len()
            invariant
                0 <= fi <= files@.len(),
                fdv == files.deep_view(),
                fdv.len() == files@.len(),
                forall|p: int| 0 <= p < files@.len() ==> fdv[p] == files@[p]@,
                vocab@ == spec_vocabulary(fdv.take(fi as int)),
                vocab.wf(),
            decreases files@.len() - fi,
        {
            let ts = get_tags_from_string(files[fi].text.as_str());
            vocab.insert_all(&ts);
            proof {
                assert(fdv.take(fi + 1).drop_last() =~= fdv.take(fi as int));
                assert(fdv.take(fi + 1).last() == fdv[fi as int]);
            }
            fi = fi + 1;
        }
        proof {
            assert(fdv.take(files@.len() as int) =~= fdv);
        }
        let ghost v = vocab@;
        proof {
            assert(forall|p: int| 0 <= p < vocab.tags@.len() ==> v[p] == vocab.tags@[p].deep_view());
        }
        let n = vocab.tags.len();
        let mut out: Vec<Issue> = Vec::new();
        assert(out.deep_view() =~= Seq::<IssueV>::empty());
        let mut i: usize = 0;
        while i < n
            invariant
                0 <= i <= n,
                v == vocab@,
                v.len() == n,
                n == vocab.tags@.len(),
                forall|p: int| 0 <= p < vocab.tags@.len() ==> v[p] == vocab.tags@[p].deep_view(),
                spec_similar_issues(v) == sim_rows(v, i as int, out.deep_view()),
            decreases n - i,
        {
            let mut j: usize = 0;
            while j < n
                invariant
                    0 <= j <= n,
                    0 <= i < n,
                    v == vocab@,
                    v.len() == n,
                    n == vocab.tags@.len(),
                    forall|p: int|
                        0 <= p < vocab.tags@.len() ==> v[p] == vocab.tags@[p].deep_view(),
                    spec_similar_issues(v) == sim_rows(
                        v,
                        i as int + 1,
                        sim_row(v, i as int, j as int, out.deep_view()),
                    ),
                decreases n - j,
            {
                let ghost before = out.deep_view();
                let found = Filter::compare_heirarchical_tags(&vocab.tags[i], &vocab.tags[j]);
                match found {
                    Some(iss) => {
                        if !contains_issue(&out, &iss) {
                            out.push(iss);
                            proof {
                                assert(out.deep_view() =~= before.push(iss@)) by {
                                    assert(forall|p: int|
                                        0 <= p < out@.len() ==> out.deep_view()[p] == out@[p]@);
                                }
                            }
                        }
                    },
                    None => {},
                }
                proof {
                    assert(out.deep_view() == push_issue(
                        before,
                        tag_issue(v[i as int], v[j as int]),
                    ));
                }
                j = j + 1;
            }
            i = i + 1;
        }
        out
    }
}

} // verus!
