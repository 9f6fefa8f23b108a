//! The keyword filter: decides whether a tagset matches a query of good
//! keywords (required) and bad keywords (vetoing), in AND or OR mode,
//! with exact or fuzzy keyword comparison.
//!
//! Every segment of every tag, and the full `/`-joined path of each tag
//! of depth greater than one, is tested: one bad-keyword hit anywhere
//! fails the whole tagset, whatever the good keywords say; otherwise
//! the items that hit a good keyword are counted against a threshold
//! fixed at construction: one in OR mode, the number of distinct good
//! keywords in AND mode.

use vstd::prelude::*;

use crate::Tag;
use crate::strset::{
    insert_str_sorted, lemma_sorted_dedup_contains, sorted_dedup, strs_sorted,
};
use crate::tagset::{insert_all_tags, TagSet};
use crate::text::{
    contains_seq, lower_of, lowercase, spec_join_slash, join_slash, str_contains_str,
};
use crate::utility::{canon_tags, get_tags_from_string};

verus! {

/// One file handed to the library: its identifier and its full text.
#[derive(Debug, Clone)]
pub struct FileText {
    pub name: String,
    pub text: String,
}

/// The mathematical image of a [`FileText`].
pub struct FileTextV {
    pub name: Seq<char>,
    pub text: Seq<char>,
}

impl View for FileText {
    type V = FileTextV;

    open spec fn view(&self) -> FileTextV {
        FileTextV { name: self.name@, text: self.text@ }
    }
}

impl DeepView for FileText {
    type V = FileTextV;

    open spec fn deep_view(&self) -> FileTextV {
        self.view()
    }
}

/// The mathematical image of a [`Filter`]: the keyword sets as sorted
/// sequences of character sequences, and the two mode flags.
pub struct QueryV {
    pub good: Seq<Seq<char>>,
    pub bad: Seq<Seq<char>>,
    pub or_filter: bool,
    pub fuzzy: bool,
}

/// A keyword matches a candidate string: by case-insensitive equality
/// in exact mode, by case-insensitive substring containment in fuzzy
/// mode.
pub open spec fn kw_match(fuzzy: bool, kw: Seq<char>, cand: Seq<char>) -> bool {
    if fuzzy {
        contains_seq(lower_of(cand), lower_of(kw))
    } else {
        lower_of(cand) == lower_of(kw)
    }
}

/// Some keyword of the set matches the candidate string.
pub open spec fn any_match(fuzzy: bool, kws: Seq<Seq<char>>, cand: Seq<char>) -> bool {
    exists|j: int| 0 <= j < kws.len() && kw_match(fuzzy, #[trigger] kws[j], cand)
}

/// The items of a tag that are tested against the keyword sets: each
/// segment, and the full `/`-joined path when the tag has depth > 1.
pub open spec fn tag_items(t: Seq<Seq<char>>) -> Seq<Seq<char>> {
    if t.len() > 1 {
        t + seq![spec_join_slash(t)]
    } else {
        t
    }
}

/// How many of the given items hit the keyword set.
pub open spec fn count_matching(fuzzy: bool, kws: Seq<Seq<char>>, items: Seq<Seq<char>>) -> nat
    decreases items.len(),
{
    if items.len() == 0 {
        0
    } else {
        count_matching(fuzzy, kws, items.drop_last()) + if any_match(fuzzy, kws, items.last()) {
            1nat
        } else {
            0nat
        }
    }
}

/// The number of items across the tagset that hit the good keywords.
pub open spec fn good_count(q: QueryV, tags: Seq<Seq<Seq<char>>>) -> nat
    decreases tags.len(),
{
    if tags.len() == 0 {
        0
    } else {
        good_count(q, tags.drop_last()) + count_matching(
            q.fuzzy,
            q.good,
            tag_items(tags.last()),
        )
    }
}

/// Some item of the tag hits the bad keywords.
pub open spec fn tag_has_bad(q: QueryV, t: Seq<Seq<char>>) -> bool {
    exists|j: int|
        0 <= j < tag_items(t).len() && any_match(q.fuzzy, q.bad, #[trigger] tag_items(t)[j])
}

/// Some tag of the tagset has a bad-keyword hit.
pub open spec fn has_bad(q: QueryV, tags: Seq<Seq<Seq<char>>>) -> bool {
    exists|i: int| 0 <= i < tags.len() && tag_has_bad(q, #[trigger] tags[i])
}

/// The number of good-keyword hits a matching tagset must reach: one in
/// OR mode, the cardinality of the good keyword set in AND mode.
pub open spec fn threshold(q: QueryV) -> nat {
    if q.or_filter {
        1
    } else {
        q.good.len()
    }
}

/// A tagset matches: no bad-keyword hit anywhere, and at least
/// `threshold` good-keyword hits.
pub open spec fn spec_matches(q: QueryV, tags: Seq<Seq<Seq<char>>>) -> bool {
    !has_bad(q, tags) && good_count(q, tags) >= threshold(q)
}

/// Bad keywords are an absolute veto: a tagset holding any tag with a
/// segment or joined path that hits a bad keyword never matches,
/// whatever the good keywords say and in either AND or OR mode.
pub proof fn lemma_bad_keyword_vetoes(q: QueryV, tags: Seq<Seq<Seq<char>>>, i: int, j: int)
    requires
        0 <= i < tags.len(),
        0 <= j < tag_items(tags[i]).len(),
        any_match(q.fuzzy, q.bad, tag_items(tags[i])[j]),
    ensures
        !spec_matches(q, tags),
{
    assert(tag_has_bad(q, tags[i]));
    assert(has_bad(q, tags));
}

proof fn lemma_count_matching_at_least_one(
    fuzzy: bool,
    kws: Seq<Seq<char>>,
    items: Seq<Seq<char>>,
    j: int,
)
    requires
        0 <= j < items.len(),
        any_match(fuzzy, kws, items[j]),
    ensures
        count_matching(fuzzy, kws, items) >= 1,
    decreases items.len(),
{
    if j < items.len() - 1 {
        assert(items.drop_last()[j] == items[j]);
        lemma_count_matching_at_least_one(fuzzy, kws, items.drop_last(), j);
    }
}

proof fn lemma_good_count_at_least_one(q: QueryV, tags: Seq<Seq<Seq<char>>>, i: int)
    requires
        0 <= i < tags.len(),
        count_matching(q.fuzzy, q.good, tag_items(tags[i])) >= 1,
    ensures
        good_count(q, tags) >= 1,
    decreases tags.len(),
{
    if i < tags.len() - 1 {
        assert(tags.drop_last()[i] == tags[i]);
        lemma_good_count_at_least_one(q, tags.drop_last(), i);
    }
}

/// In OR mode a single good-keyword hit suffices: a tagset without a
/// bad hit, one of whose items matches one good keyword, matches.
pub proof fn lemma_or_mode_single_hit(q: QueryV, tags: Seq<Seq<Seq<char>>>, i: int, j: int)
    requires
        q.or_filter,
        !has_bad(q, tags),
        0 <= i < tags.len(),
        0 <= j < tag_items(tags[i]).len(),
        any_match(q.fuzzy, q.good, tag_items(tags[i])[j]),
    ensures
        spec_matches(q, tags),
{
    lemma_count_matching_at_least_one(q.fuzzy, q.good, tag_items(tags[i]), j);
    lemma_good_count_at_least_one(q, tags, i);
}

/// With no good keyword and AND mode, the threshold is zero, so every
/// tagset without a bad-keyword hit matches: the empty query lists
/// everything.
pub proof fn lemma_empty_query_matches(q: QueryV, tags: Seq<Seq<Seq<char>>>)
    requires
        q.good.len() == 0,
        !q.or_filter,
        !has_bad(q, tags),
    ensures
        spec_matches(q, tags),
{
}

/// The keyword filter: good keywords a tagset must hit, bad keywords
/// that veto it, and the AND/OR and exact/fuzzy mode flags. The keyword
/// vectors are kept sorted and duplicate-free.
#[derive(Debug, Clone)]
pub struct Filter {
    good_keywords: Vec<String>,
    bad_keywords: Vec<String>,
    or_filter: bool,
    fuzzy: bool,
}

impl View for Filter {
    type V = QueryV;

    closed spec fn view(&self) -> QueryV {
        QueryV {
            good: self.good_keywords.deep_view(),
            bad: self.bad_keywords.deep_view(),
            or_filter: self.or_filter,
            fuzzy: self.fuzzy,
        }
    }
}

impl Filter {
    /// Both keyword lists are strictly sorted, hence duplicate-free.
    pub open spec fn wf(&self) -> bool {
        strs_sorted(self@.good) && strs_sorted(self@.bad)
    }

    /// Build a filter from good keywords, bad keywords and the two mode
    /// flags. The keyword lists are deduplicated, so the AND-mode
    /// threshold is the number of distinct good keywords.
    pub fn new(keywords: &Vec<String>, bad_keywords: &Vec<String>, or_filter: bool, fuzzy: bool) -> (r:
        Filter)
        ensures
            r@.good == sorted_dedup(keywords.deep_view()),
            r@.bad == sorted_dedup(bad_keywords.deep_view()),
            r@.or_filter == or_filter,
            r@.fuzzy == fuzzy,
            r.wf(),
            forall|x: Seq<char>| #[trigger] r@.good.contains(x) <==> keywords.deep_view().contains(x),
            forall|x: Seq<char>|
                #[trigger] r@.bad.contains(x) <==> bad_keywords.deep_view().contains(x),
    {
        let good = sorted_dedup_exec(keywords);
        let bad = sorted_dedup_exec(bad_keywords);
        proof {
            lemma_sorted_dedup_contains(keywords.deep_view());
            lemma_sorted_dedup_contains(bad_keywords.deep_view());
        }
        Filter { good_keywords: good, bad_keywords: bad, or_filter, fuzzy }
    }

    /// The empty filter: no keywords, AND mode, exact comparison. Its
    /// threshold is zero, so it matches every tagset.
    pub fn empty() -> (r: Filter)
        ensures
            r@.good.len() == 0,
            r@.bad.len() == 0,
            !r@.or_filter,
            !r@.fuzzy,
            r.wf(),
    {
        let r = Filter {
            good_keywords: Vec::new(),
            bad_keywords: Vec::new(),
            or_filter: false,
            fuzzy: false,
        };
        assert(r@.good =~= Seq::<Seq<char>>::empty());
        assert(r@.bad =~= Seq::<Seq<char>>::empty());
        r
    }

    /// Check whether a set of tags pulled from one file matches the
    /// filter.
    pub fn matches(&self, tags: &TagSet) -> (r: bool)
        ensures
            r == spec_matches(self@, tags@),
    {
        let ghost q = self@;
        proof {
            assert(q.good == self.good_keywords.deep_view());
            assert(q.bad == self.bad_keywords.deep_view());
            assert(q.fuzzy == self.fuzzy);
            assert(q.or_filter == self.or_filter);
        }
        let needed: usize = if self.or_filter {
            1
        } else {
            self.good_keywords.len()
        };
        proof {
            assert(self.good_keywords.deep_view().len() == self.good_keywords@.len());
            assert(needed as nat == threshold(q));
        }
        let mut num: usize = 0;
        let nt = tags.tags.len();
        let ghost tv = tags@;
        proof {
            assert(tv.len() == nt);
            assert(forall|p: int| 0 <= p < nt ==> tv[p] == tags.tags@[p].deep_view());
        }
        let mut ti: usize = 0;
        while ti < nt
            invariant
                0 <= ti <= nt,
                q == self@,
                tv == tags@,
                tv.len() == nt,
                nt == tags.tags@.len(),
                forall|p: int| 0 <= p < nt ==> tv[p] == tags.tags@[p].deep_view(),
                needed as nat == threshold(q),
                !has_bad(q, tv.take(ti as int)),
                num as int == vstd::math::min(
                    good_count(q, tv.take(ti as int)) as int,
                    needed as int,
                ),
            decreases nt - ti,
        {
            let items = build_items(&tags.tags[ti]);
            let ghost idv = items.deep_view();
            proof {
                assert(idv == tag_items(tv[ti as int]));
                assert(forall|p: int| 0 <= p < items@.len() ==> idv[p] == items@[p]@);
            }
            let ni = items.len();
            let mut ii: usize = 0;
            while ii < ni
                invariant
                    0 <= ii <= ni,
                    0 <= ti < nt,
                    q == self@,
                    tv == tags@,
                    tv.len() == nt,
                    ni == items@.len(),
                    idv == items.deep_view(),
                    idv == tag_items(tv[ti as int]),
                    idv.len() == ni,
                    forall|p: int| 0 <= p < items@.len() ==> idv[p] == items@[p]@,
                    needed as nat == threshold(q),
                    !has_bad(q, tv.take(ti as int)),
                    forall|p: int| 0 <= p < ii ==> !any_match(q.fuzzy, q.bad, #[trigger] idv[p]),
                    num as int == vstd::math::min(
                        (good_count(q, tv.take(ti as int)) + count_matching(
                            q.fuzzy,
                            q.good,
                            idv.take(ii as int),
                        )) as int,
                        needed as int,
                    ),
                decreases ni - ii,
            {
                let cand_lower = lowercase(items[ii].as_str());
                if keyword_hits(&self.bad_keywords, &cand_lower, self.fuzzy, Ghost(idv[ii as int]))
                {
                    proof {
                        assert(any_match(q.fuzzy, q.bad, tag_items(tv[ti as int])[ii as int]));
                        assert(tag_has_bad(q, tv[ti as int]));
                        assert(tv.take(nt as int) =~= tv);
                        assert(has_bad(q, tv)) by {
                            assert(0 <= ti < tv.len() && tag_has_bad(q, tv[ti as int]));
                        }
                    }
                    return false;
                }
                let good_hit = keyword_hits(
                    &self.good_keywords,
                    &cand_lower,
                    self.fuzzy,
                    Ghost(idv[ii as int]),
                );
                proof {
                    assert(idv.take(ii + 1).drop_last() =~= idv.take(ii as int));
                    assert(idv.take(ii + 1).last() == idv[ii as int]);
                }
                if good_hit {
                    if num < needed {
                        num = num + 1;
                    }
                }
                ii = ii + 1;
            }
            proof {
                assert(idv.take(ni as int) =~= idv);
                assert(tv.take(ti + 1).drop_last() =~= tv.take(ti as int));
                assert(tv.take(ti + 1).last() == tv[ti as int]);
                assert(!has_bad(q, tv.take(ti + 1))) by {
                    if has_bad(q, tv.take(ti + 1)) {
                        let w = choose|w: int|
                            0 <= w < tv.take(ti + 1).len() && tag_has_bad(
                                q,
                                #[trigger] tv.take(ti + 1)[w],
                            );
                        if w < ti {
                            assert(tag_has_bad(q, tv.take(ti as int)[w]));
                        } else {
                            assert(tag_has_bad(q, tv[ti as int]));
                            let j = choose|j: int|
                                0 <= j < tag_items(tv[ti as int]).len() && any_match(
                                    q.fuzzy,
                                    q.bad,
                                    #[trigger] tag_items(tv[ti as int])[j],
                                );
                            assert(!any_match(q.fuzzy, q.bad, idv[j]));
                        }
                    }
                }
            }
            ti = ti + 1;
        }
        proof {
            assert(tv.take(nt as int) =~= tv);
        }
        num >= needed
    }
}

/// The names, in input order, of the files whose tagsets match the
/// query.
pub open spec fn spec_files_matching(q: QueryV, files: Seq<FileTextV>) -> Seq<Seq<char>>
    decreases files.len(),
{
    if files.len() == 0 {
        Seq::empty()
    } else {
        let rest = spec_files_matching(q, files.drop_last());
        if spec_matches(q, canon_tags(files.last().text)) {
            rest.push(files.last().name)
        } else {
            rest
        }
    }
}

/// The names, in input order, of the files whose text holds no tag.
pub open spec fn spec_untagged(files: Seq<FileTextV>) -> Seq<Seq<char>>
    decreases files.len(),
{
    if files.len() == 0 {
        Seq::empty()
    } else {
        let rest = spec_untagged(files.drop_last());
        if canon_tags(files.last().text).len() == 0 {
            rest.push(files.last().name)
        } else {
            rest
        }
    }
}

/// The union of the tagsets of the matching files, built up file by
/// file from position `k`.
pub open spec fn spec_tags_matching_from(
    q: QueryV,
    files: Seq<FileTextV>,
    k: int,
    acc: Seq<Seq<Seq<char>>>,
) -> Seq<Seq<Seq<char>>>
    decreases files.len() - k,
{
    if k < 0 || k >= files.len() {
        acc
    } else {
        let ts = canon_tags(files[k].text);
        spec_tags_matching_from(
            q,
            files,
            k + 1,
            if spec_matches(q, ts) {
                insert_all_tags(acc, ts)
            } else {
                acc
            },
        )
    }
}

/// All tags of all files whose tagset matches the query, deduplicated
/// and sorted.
pub open spec fn spec_tags_matching(q: QueryV, files: Seq<FileTextV>) -> Seq<Seq<Seq<char>>> {
    spec_tags_matching_from(q, files, 0, Seq::empty())
}

/// The tags of the matching files, from file `k` on, folded into `acc`:
/// exactly the tags of `acc` and of every matching file's tagset.
proof fn lemma_tags_matching_from_contains(
    q: QueryV,
    files: Seq<FileTextV>,
    k: int,
    acc: Seq<Seq<Seq<char>>>,
)
    requires
        0 <= k <= files.len(),
    ensures
        forall|t: Seq<Seq<char>>|
            #[trigger] spec_tags_matching_from(q, files, k, acc).contains(t) <==> (acc.contains(t)
                || exists|i: int|
                k <= i < files.len() && spec_matches(q, canon_tags(#[trigger] files[i].text))
                    && canon_tags(files[i].text).contains(t)),
    decreases files.len() - k,
{
    let r = spec_tags_matching_from(q, files, k, acc);
    if k == files.len() {
        assert(r == acc);
    } else {
        let ts = canon_tags(files[k].text);
        let acc2 = if spec_matches(q, ts) {
            insert_all_tags(acc, ts)
        } else {
            acc
        };
        crate::tagset::lemma_insert_all_from_contains(acc, ts, 0);
        lemma_tags_matching_from_contains(q, files, k + 1, acc2);
        assert(r == spec_tags_matching_from(q, files, k + 1, acc2));
        assert forall|t: Seq<Seq<char>>| #[trigger] r.contains(t) implies (acc.contains(t)
            || exists|i: int|
            k <= i < files.len() && spec_matches(q, canon_tags(#[trigger] files[i].text))
                && canon_tags(files[i].text).contains(t)) by {
            assert(spec_tags_matching_from(q, files, k + 1, acc2).contains(t));
            if acc2.contains(t) {
                if !acc.contains(t) {
                    assert(spec_matches(q, ts));
                    assert(ts.contains(t)) by {
                        let w = choose|w: int| 0 <= w < ts.len() && ts[w] == t;
                        assert(ts[w] == t);
                    }
                    assert(spec_matches(q, canon_tags(files[k].text)) && canon_tags(
                        files[k].text,
                    ).contains(t));
                }
            } else {
                let i = choose|i: int|
                    k + 1 <= i < files.len() && spec_matches(
                        q,
                        canon_tags(#[trigger] files[i].text),
                    ) && canon_tags(files[i].text).contains(t);
                assert(spec_matches(q, canon_tags(files[i].text)) && canon_tags(
                    files[i].text,
                ).contains(t));
            }
        }
        assert forall|t: Seq<Seq<char>>| acc.contains(t) || (exists|i: int|
            k <= i < files.len() && spec_matches(q, canon_tags(#[trigger] files[i].text))
                && canon_tags(files[i].text).contains(t)) implies #[trigger] r.contains(t) by {
            if acc.contains(t) {
                assert(acc2.contains(t));
            } else {
                let i = choose|i: int|
                    k <= i < files.len() && spec_matches(q, canon_tags(#[trigger] files[i].text))
                        && canon_tags(files[i].text).contains(t);
                if i == k {
                    assert(acc2.contains(t));
                } else {
                    assert(k + 1 <= i < files.len() && spec_matches(
                        q,
                        canon_tags(files[i].text),
                    ) && canon_tags(files[i].text).contains(t));
                }
            }
            assert(spec_tags_matching_from(q, files, k + 1, acc2).contains(t));
        }
    }
}

/// What `tags_matching` means: a tag is reported exactly when some
/// file's tagset matches the query and holds it — the union, over the
/// matching files, of their tags.
pub proof fn lemma_tags_matching_characterization(q: QueryV, files: Seq<FileTextV>)
    ensures
        forall|t: Seq<Seq<char>>|
            #[trigger] spec_tags_matching(q, files).contains(t) <==> exists|i: int|
                0 <= i < files.len() && spec_matches(q, canon_tags(#[trigger] files[i].text))
                    && canon_tags(files[i].text).contains(t),
{
    lemma_tags_matching_from_contains(q, files, 0, Seq::empty());
}

impl Filter {
    /// Keep the files whose extracted tagset matches the filter; the
    /// input order is preserved.
    pub fn files_matching_tag_query(&self, files: &Vec<FileText>) -> (r: Vec<String>)
        ensures
            r.deep_view() == spec_files_matching(self@, files.deep_view()),
    {
        let ghost q = self@;
        let ghost fdv = files.deep_view();
        proof {
            assert(forall|p: int| 0 <= p < files@.len() ==> fdv[p] == files@[p]@);
        }
        let mut out: Vec<String> = Vec::new();
        assert(out.deep_view() =~= Seq::<Seq<char>>::empty());
        let mut fi: usize = 0;
        while fi < files.len()
            invariant
                0 <= fi <= files@.len(),
                q == self@,
                fdv == files.deep_view(),
                fdv.len() == files@.len(),
                forall|p: int| 0 <= p < files@.len() ==> fdv[p] == files@[p]@,
                out.deep_view() == spec_files_matching(q, fdv.take(fi as int)),
            decreases files@.len() - fi,
        {
            let ghost before = out.deep_view();
            let ts = get_tags_from_string(files[fi].text.as_str());
            if self.matches(&ts) {
                out.push(files[fi].name.clone());
                proof {
                    assert(out.deep_view() =~= before.push(fdv[fi as int].name)) by {
                        assert(forall|p: int|
                            0 <= p < out@.len() ==> out.deep_view()[p] == out@[p]@);
                    }
                }
            }
            proof {
                assert(fdv.take(fi + 1).drop_last() =~= fdv.take(fi as int));
                assert(fdv.take(fi + 1).last() == fdv[fi as int]);
            }
            fi = fi + 1;
        }
        proof {
            assert(fdv.take(files@.len() as int) =~= fdv);
        }
        out
    }

    /// Keep the files whose text holds no tag at all; the input order
    /// is preserved.
    pub fn untagged_files(&self, files: &Vec<FileText>) -> (r: Vec<String>)
        ensures
            r.deep_view() == spec_untagged(files.deep_view()),
    {
        let ghost fdv = files.deep_view();
        proof {
            assert(forall|p: int| 0 <= p < files@.len() ==> fdv[p] == files@[p]@);
        }
        let mut out: Vec<String> = Vec::new();
        assert(out.deep_view() =~= Seq::<Seq<char>>::empty());
        let mut fi: usize = 0;
        while fi < files.len()
            invariant
                0 <= fi <= files@.len(),
                fdv == files.deep_view(),
                fdv.len() == files@.len(),
                forall|p: int| 0 <= p < files@.len() ==> fdv[p] == files@[p]@,
                out.deep_view() == spec_untagged(fdv.take(fi as int)),
            decreases files@.len() - fi,
        {
            let ghost before = out.deep_view();
            let ts = get_tags_from_string(files[fi].text.as_str());
            if ts.is_empty() {
                out.push(files[fi].name.clone());
                proof {
                    assert(out.deep_view() =~= before.push(fdv[fi as int].name)) by {
                        assert(forall|p: int|
                            0 <= p < out@.len() ==> out.deep_view()[p] == out@[p]@);
                    }
                }
            }
            proof {
                assert(fdv.take(fi + 1).drop_last() =~= fdv.take(fi as int));
                assert(fdv.take(fi + 1).last() == fdv[fi as int]);
            }
            fi = fi + 1;
        }
        proof {
            assert(fdv.take(files@.len() as int) =~= fdv);
        }
        out
    }

    /// Gather every tag of every file whose tagset matches the filter,
    /// deduplicated, in sorted order.
    pub fn tags_matching_tag_query(&self, files: &Vec<FileText>) -> (r: TagSet)
        ensures
            r@ == spec_tags_matching(self@, files.deep_view()),
            r.wf(),
    {
        let ghost q = self@;
        let ghost fdv = files.deep_view();
        proof {
            assert(forall|p: int| 0 <= p < files@.len() ==> fdv[p] == files@[p]@);
        }
        let mut acc = TagSet::new();
        assert(acc@ =~= Seq::<Seq<Seq<char>>>::empty());
        let mut fi: usize = 0;
        while fi < files.len()
            invariant
                0 <= fi <= files@.len(),
                q == self@,
                fdv == files.deep_view(),
                fdv.len() == files@.len(),
                forall|p: int| 0 <= p < files@.len() ==> fdv[p] == files@[p]@,
                spec_tags_matching(q, fdv) == spec_tags_matching_from(q, fdv, fi as int, acc@),
                acc.wf(),
            decreases files@.len() - fi,
        {
            let ts = get_tags_from_string(files[fi].text.as_str());
            if self.matches(&ts) {
                acc.insert_all(&ts);
            }
            fi = fi + 1;
        }
        acc
    }
}

impl Default for Filter {
    /// The empty filter, as [`Filter::empty`] builds it.
    fn default() -> (r: Filter)
        ensures
            r@.good.len() == 0,
            r@.bad.len() == 0,
            !r@.or_filter,
            !r@.fuzzy,
            r.wf(),
    {
        Filter::empty()
    }
}

/// Deduplicate and sort a keyword list.
fn sorted_dedup_exec(keywords: &Vec<String>) -> (r: Vec<String>)
    ensures
        r.deep_view() == sorted_dedup(keywords.deep_view()),
        strs_sorted(r.deep_view()),
{
    let ghost kdv = keywords.deep_view();
    proof {
        assert(forall|p: int| 0 <= p < keywords@.len() ==> kdv[p] == keywords@[p]@);
    }
    let mut r: Vec<String> = Vec::new();
    assert(r.deep_view() =~= Seq::<Seq<char>>::empty());
    let mut k: usize = 0;
    while k < keywords.len()
        invariant
            0 <= k <= keywords@.len(),
            kdv == keywords.deep_view(),
            kdv.len() == keywords@.len(),
            forall|p: int| 0 <= p < keywords@.len() ==> kdv[p] == keywords@[p]@,
            r.deep_view() == sorted_dedup(kdv.take(k as int)),
            strs_sorted(r.deep_view()),
        decreases keywords@.len() - k,
    {
        insert_str_sorted(&mut r, keywords[k].clone());
        proof {
            assert(kdv.take(k + 1).drop_last() =~= kdv.take(k as int));
            assert(kdv.take(k + 1).last() == kdv[k as int]);
        }
        k = k + 1;
    }
    proof {
        assert(kdv.take(keywords@.len() as int) =~= kdv);
    }
    r
}

/// The items of one tag that the keyword sets are tested against:
/// each segment, then the full joined path for tags of depth > 1.
pub(crate) fn build_items(t: &Tag) -> (r: Vec<String>)
    ensures
        r.deep_view() == tag_items(t.deep_view()),
{
    let ghost dv = t.deep_view();
    proof {
        assert(forall|p: int| 0 <= p < t@.len() ==> dv[p] == t@[p]@);
    }
    let mut items: Vec<String> = Vec::new();
    let mut k: usize = 0;
    while k < t.len()
        invariant
            0 <= k <= t@.len(),
            dv == t.deep_view(),
            dv.len() == t@.len(),
            forall|p: int| 0 <= p < t@.len() ==> dv[p] == t@[p]@,
            items.deep_view() =~= dv.take(k as int),
        decreases t@.len() - k,
    {
        items.push(t[k].clone());
        proof {
            assert(items.deep_view() =~= dv.take(k as int).push(dv[k as int])) by {
                assert(forall|p: int|
                    0 <= p < items@.len() ==> items.deep_view()[p] == items@[p]@);
            }
            assert(dv.take(k + 1) =~= dv.take(k as int).push(dv[k as int]));
        }
        k = k + 1;
    }
    proof {
        assert(dv.take(t@.len() as int) =~= dv);
    }
    if t.len() > 1 {
        let joined = join_slash(t);
        items.push(joined);
        proof {
            assert(items.deep_view() =~= dv + seq![spec_join_slash(dv)]) by {
                assert(forall|p: int|
                    0 <= p < items@.len() ==> items.deep_view()[p] == items@[p]@);
            }
        }
    }
    items
}

/// Does any keyword of the set match the candidate, whose lowercase
/// form is handed in?
fn keyword_hits(kws: &Vec<String>, cand_lower: &String, fuzzy: bool, Ghost(cand): Ghost<
    Seq<char>,
>) -> (r: bool)
    requires
        cand_lower@ == lower_of(cand),
    ensures
        r == any_match(fuzzy, kws.deep_view(), cand),
{
    let ghost kdv = kws.deep_view();
    proof {
        assert(forall|p: int| 0 <= p < kws@.len() ==> kdv[p] == kws@[p]@);
    }
    let mut j: usize = 0;
    while j < kws.len()
        invariant
            0 <= j <= kws@.len(),
            kdv == kws.deep_view(),
            kdv.len() == kws@.len(),
            forall|p: int| 0 <= p < kws@.len() ==> kdv[p] == kws@[p]@,
            cand_lower@ == lower_of(cand),
            forall|p: int| 0 <= p < j ==> !kw_match(fuzzy, #[trigger] kdv[p], cand),
        decreases kws@.len() - j,
    {
        let kl = lowercase(kws[j].as_str());
        let hit = if fuzzy {
            str_contains_str(cand_lower.as_str(), kl.as_str())
        } else {
            *cand_lower == kl
        };
        if hit {
            assert(kw_match(fuzzy, kdv[j as int], cand));
            return true;
        }
        j = j + 1;
    }
    false
}

} // verus!
