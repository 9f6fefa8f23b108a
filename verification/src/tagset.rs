//! The canonical set of hierarchical tags found in one file's text:
//! a vector kept strictly sorted in tag order, so that it holds no
//! duplicate and enumerates tags in a deterministic order.

use vstd::prelude::*;

use crate::Tag;
use crate::order::{
    lemma_tag_le_antisym, lemma_tag_le_total, lemma_tag_le_trans, lemma_tag_lt_first_diff,
    lemma_tag_lt_prefix, lemma_seq_char_le_antisym, lemma_seq_char_lt_first_diff,
    lemma_seq_char_lt_prefix, lemma_seq_char_eq_pointwise, seq_char_lt, tag_lt,
};

verus! {

/// Strict lexicographic comparison of two strings, by code point.
pub fn str_lt(a: &str, b: &str) -> (r: bool)
    ensures
        r == seq_char_lt(a@, b@),
{
    let na = a.unicode_len();
    let nb = b.unicode_len();
    let mut i: usize = 0;
    while i < na && i < nb
        invariant
            0 <= i <= na,
            i <= nb,
            na == a@.len(),
            nb == b@.len(),
            forall|k: int| 0 <= k < i ==> a@[k] == b@[k],
        decreases na - i,
    {
        let ca = a.get_char(i);
        let cb = b.get_char(i);
        if ca != cb {
            proof {
                lemma_seq_char_lt_first_diff(a@, b@, i as int);
            }
            return (ca as u32) < (cb as u32);
        }
        i = i + 1;
    }
    if na < nb {
        proof {
            lemma_seq_char_lt_prefix(a@, b@);
        }
        true
    } else if na == nb {
        proof {
            lemma_seq_char_eq_pointwise(a@, b@);
        }
        false
    } else {
        proof {
            lemma_seq_char_lt_prefix(b@, a@);
            if seq_char_lt(a@, b@) {
                lemma_seq_char_le_antisym(a@, b@);
            }
        }
        false
    }
}

/// Equality of two tags, segment by segment.
pub fn tag_eq(a: &Tag, b: &Tag) -> (r: bool)
    ensures
        r == (a.deep_view() == b.deep_view()),
{
    let ghost da = a.deep_view();
    let ghost db = b.deep_view();
    proof {
        assert(forall|q: int| 0 <= q < a@.len() ==> da[q] == a@[q]@);
        assert(forall|q: int| 0 <= q < b@.len() ==> db[q] == b@[q]@);
    }
    if a.len() != b.len() {
        assert(da.len() != db.len());
        return false;
    }
    let mut i: usize = 0;
    while i < a.len()
        invariant
            0 <= i <= a.len(),
            a@.len() == b@.len(),
            da == a.deep_view(),
            db == b.deep_view(),
            da.len() == a@.len(),
            db.len() == b@.len(),
            forall|q: int| 0 <= q < a@.len() ==> da[q] == a@[q]@,
            forall|q: int| 0 <= q < b@.len() ==> db[q] == b@[q]@,
            forall|k: int| 0 <= k < i ==> da[k] == db[k],
        decreases a.len() - i,
    {
        if !(a[i] == b[i]) {
            assert(da[i as int] != db[i as int]);
            return false;
        }
        i = i + 1;
    }
    assert(da =~= db);
    true
}

/// Strict comparison of two tags in segment-sequence lexicographic order.
pub fn tag_before(a: &Tag, b: &Tag) -> (r: bool)
    ensures
        r == tag_lt(a.deep_view(), b.deep_view()),
{
    let ghost da = a.deep_view();
    let ghost db = b.deep_view();
    proof {
        assert(forall|q: int| 0 <= q < a@.len() ==> da[q] == a@[q]@);
        assert(forall|q: int| 0 <= q < b@.len() ==> db[q] == b@[q]@);
    }
    let na = a.len();
    let nb = b.len();
    let mut i: usize = 0;
    while i < na && i < nb
        invariant
            0 <= i <= na,
            i <= nb,
            na == a@.len(),
            nb == b@.len(),
            da == a.deep_view(),
            db == b.deep_view(),
            da.len() == na,
            db.len() == nb,
            forall|q: int| 0 <= q < a@.len() ==> da[q] == a@[q]@,
            forall|q: int| 0 <= q < b@.len() ==> db[q] == b@[q]@,
            forall|k: int| 0 <= k < i ==> da[k] == db[k],
        decreases na - i,
    {
        if !(a[i] == b[i]) {
            proof {
                lemma_tag_lt_first_diff(da, db, i as int);
            }
            return str_lt(a[i].as_str(), b[i].as_str());
        }
        i = i + 1;
    }
    if na < nb {
        proof {
            lemma_tag_lt_prefix(da, db);
        }
        true
    } else if na == nb {
        assert(da =~= db);
        false
    } else {
        proof {
            lemma_tag_lt_prefix(db, da);
            if tag_lt(da, db) {
                lemma_tag_le_antisym(da, db);
            }
        }
        false
    }
}

/// Clone a tag; the clone has the same segments.
pub fn clone_tag(t: &Tag) -> (r: Tag)
    ensures
        r@ == t@,
        r.deep_view() == t.deep_view(),
{
    let r = t.clone();
    proof {
        assert forall|i: int| 0 <= i < t@.len() implies r@[i] == t@[i] by {
            assert(vstd::pervasive::cloned::<String>(t@[i], r@[i]));
        }
        assert(r@ =~= t@);
        assert(r.deep_view() =~= t.deep_view());
    }
    r
}

/// Insert a tag into a sorted tag sequence, keeping it sorted and
/// skipping the insertion when the tag is already present.
pub open spec fn sorted_insert_tag(ts: Seq<Seq<Seq<char>>>, t: Seq<Seq<char>>) -> Seq<
    Seq<Seq<char>>,
>
    decreases ts.len(),
{
    if ts.len() == 0 {
        seq![t]
    } else if t == ts[0] {
        ts
    } else if tag_lt(t, ts[0]) {
        seq![t] + ts
    } else {
        seq![ts[0]] + sorted_insert_tag(ts.drop_first(), t)
    }
}

/// Where a linear scan stops, that is where `sorted_insert_tag` puts the tag.
proof fn lemma_sorted_insert_at(ts: Seq<Seq<Seq<char>>>, t: Seq<Seq<char>>, i: int)
    requires
        0 <= i <= ts.len(),
        forall|k: int| 0 <= k < i ==> tag_lt(#[trigger] ts[k], t),
        i < ts.len() ==> !tag_lt(ts[i], t),
    ensures
        i < ts.len() && ts[i] == t ==> sorted_insert_tag(ts, t) == ts,
        !(i < ts.len() && ts[i] == t) ==> sorted_insert_tag(ts, t) == ts.take(i) + seq![t]
            + ts.skip(i),
    decreases ts.len(),
{
    if ts.len() == 0 {
        assert(sorted_insert_tag(ts, t) =~= ts.take(0) + seq![t] + ts.skip(0));
    } else if i == 0 {
        if ts[0] == t {
        } else {
            assert(tag_lt(t, ts[0])) by {
                lemma_tag_le_total(t, ts[0]);
                if !tag_lt(t, ts[0]) {
                    assert(crate::order::tag_le(ts[0], t));
                }
            }
            assert(sorted_insert_tag(ts, t) =~= ts.take(0) + seq![t] + ts.skip(0));
        }
    } else {
        assert(tag_lt(ts[0], t));
        assert(ts[0] != t);
        assert(!tag_lt(t, ts[0])) by {
            if tag_lt(t, ts[0]) {
                lemma_tag_le_antisym(t, ts[0]);
            }
        }
        let rest = ts.drop_first();
        assert(forall|k: int| 0 <= k < i - 1 ==> tag_lt(#[trigger] rest[k], t));
        lemma_sorted_insert_at(rest, t, i - 1);
        if i < ts.len() && ts[i] == t {
            assert(rest[i - 1] == t);
            assert(sorted_insert_tag(ts, t) =~= seq![ts[0]] + rest);
            assert(seq![ts[0]] + rest =~= ts);
        } else {
            assert(sorted_insert_tag(ts, t) =~= seq![ts[0]] + (rest.take(i - 1) + seq![t]
                + rest.skip(i - 1)));
            assert(seq![ts[0]] + (rest.take(i - 1) + seq![t] + rest.skip(i - 1)) =~= ts.take(i)
                + seq![t] + ts.skip(i));
        }
    }
}

/// Inserting adds exactly the one tag to the elements.
pub proof fn lemma_sorted_insert_tag_contains(ts: Seq<Seq<Seq<char>>>, t: Seq<Seq<char>>)
    ensures
        forall|x: Seq<Seq<char>>|
            #[trigger] sorted_insert_tag(ts, t).contains(x) <==> (ts.contains(x) || x == t),
    decreases ts.len(),
{
    let r = sorted_insert_tag(ts, t);
    if ts.len() == 0 {
        assert forall|x: Seq<Seq<char>>| #[trigger] r.contains(x) implies (ts.contains(x) || x
            == t) by {
            let w = choose|w: int| 0 <= w < r.len() && r[w] == x;
        }
        assert(r[0] == t);
    } else if t == ts[0] {
        assert(ts.contains(t)) by {
            assert(ts[0] == t);
        }
    } else if tag_lt(t, ts[0]) {
        assert(r == seq![t] + ts);
        assert forall|x: Seq<Seq<char>>| #[trigger] r.contains(x) implies (ts.contains(x) || x
            == t) by {
            let w = choose|w: int| 0 <= w < r.len() && r[w] == x;
            if w > 0 {
                assert(ts[w - 1] == x);
            }
        }
        assert forall|x: Seq<Seq<char>>| ts.contains(x) || x == t implies #[trigger] r.contains(
            x,
        ) by {
            if ts.contains(x) {
                let w = choose|w: int| 0 <= w < ts.len() && ts[w] == x;
                assert(r[w + 1] == x);
            } else {
                assert(r[0] == x);
            }
        }
    } else {
        let rest = ts.drop_first();
        lemma_sorted_insert_tag_contains(rest, t);
        assert(r == seq![ts[0]] + sorted_insert_tag(rest, t));
        assert forall|x: Seq<Seq<char>>| #[trigger] r.contains(x) implies (ts.contains(x) || x
            == t) by {
            let w = choose|w: int| 0 <= w < r.len() && r[w] == x;
            if w == 0 {
                assert(ts[0] == x);
            } else {
                assert(sorted_insert_tag(rest, t).contains(x)) by {
                    assert(sorted_insert_tag(rest, t)[w - 1] == x);
                }
                if rest.contains(x) {
                    let v = choose|v: int| 0 <= v < rest.len() && rest[v] == x;
                    assert(ts[v + 1] == x);
                }
            }
        }
        assert forall|x: Seq<Seq<char>>| ts.contains(x) || x == t implies #[trigger] r.contains(
            x,
        ) by {
            if ts.contains(x) {
                let w = choose|w: int| 0 <= w < ts.len() && ts[w] == x;
                if w == 0 {
                    assert(r[0] == x);
                } else {
                    assert(rest[w - 1] == x);
                    assert(sorted_insert_tag(rest, t).contains(x));
                    let v = choose|v: int|
                        0 <= v < sorted_insert_tag(rest, t).len() && sorted_insert_tag(
                            rest,
                            t,
                        )[v] == x;
                    assert(r[v + 1] == x);
                }
            } else {
                assert(sorted_insert_tag(rest, t).contains(x));
                let v = choose|v: int|
                    0 <= v < sorted_insert_tag(rest, t).len() && sorted_insert_tag(rest, t)[v]
                        == x;
                assert(r[v + 1] == x);
            }
        }
    }
}

/// A set of distinct hierarchical tags, kept in ascending tag order.
#[derive(Debug, PartialEq, Eq, Clone)]
pub struct TagSet {
    pub tags: Vec<Tag>,
}

impl View for TagSet {
    type V = Seq<Seq<Seq<char>>>;

    open spec fn view(&self) -> Seq<Seq<Seq<char>>> {
        self.tags.deep_view()
    }
}

impl TagSet {
    /// Strictly ascending in tag order: no duplicates, deterministic order.
    pub open spec fn wf(&self) -> bool {
        forall|i: int, j: int| 0 <= i < j < self@.len() ==> tag_lt(#[trigger] self@[i], #[trigger] self@[j])
    }

    /// The set of tags this container holds.
    pub open spec fn to_set(&self) -> Set<Seq<Seq<char>>> {
        self@.to_set()
    }

    /// The empty tag set.
    pub fn new() -> (r: TagSet)
        ensures
            r@ == Seq::<Seq<Seq<char>>>::empty(),
            r.wf(),
    {
        let r = TagSet { tags: Vec::new() };
        assert(r@ =~= Seq::<Seq<Seq<char>>>::empty());
        r
    }

    /// How many distinct tags the set holds.
    pub fn len(&self) -> (r: usize)
        ensures
            r == self@.len(),
    {
        self.tags.len()
    }

    /// Whether the set holds no tag at all.
    pub fn is_empty(&self) -> (r: bool)
        ensures
            r == (self@.len() == 0),
    {
        self.tags.len() == 0
    }

    /// Insert a tag, keeping the container sorted and duplicate-free.
    pub fn insert(&mut self, t: Tag)
        ensures
            final(self)@ == sorted_insert_tag(old(self)@, t.deep_view()),
            old(self).wf() ==> final(self).wf(),
            forall|x: Seq<Seq<char>>|
                #[trigger] final(self)@.contains(x) <==> (old(self)@.contains(x) || x
                    == t.deep_view()),
    {
        let ghost ts0 = self@;
        let ghost dt = t.deep_view();
        let mut i: usize = 0;
        while i < self.tags.len() && tag_before(&self.tags[i], &t)
            invariant
                0 <= i <= self.tags.len(),
                self@ == ts0,
                dt == t.deep_view(),
                forall|q: int| 0 <= q < self.tags@.len() ==> self@[q] == self.tags@[q].deep_view(),
                forall|k: int| 0 <= k < i ==> tag_lt(#[trigger] ts0[k], dt),
            decreases self.tags.len() - i,
        {
            i = i + 1;
        }
        if i < self.tags.len() && tag_eq(&self.tags[i], &t) {
            proof {
                lemma_sorted_insert_at(ts0, dt, i as int);
                assert(ts0.contains(dt)) by {
                    assert(ts0[i as int] == dt);
                }
            }
            return ;
        }
        proof {
            lemma_sorted_insert_at(ts0, dt, i as int);
        }
        self.tags.insert(i, t);
        proof {
            assert(self@ =~= ts0.take(i as int) + seq![dt] + ts0.skip(i as int)) by {
                assert(forall|q: int|
                    0 <= q < self.tags@.len() ==> self@[q] == self.tags@[q].deep_view());
            }
            let r = self@;
            if old(self).wf() {
                assert forall|p: int, q: int| 0 <= p < q < r.len() implies tag_lt(
                    #[trigger] r[p],
                    #[trigger] r[q],
                ) by {
                    lemma_sorted_insert_wf_helper(ts0, dt, i as int, p, q);
                }
            }
            assert forall|x: Seq<Seq<char>>| #[trigger] r.contains(x) implies (ts0.contains(x) || x
                == dt) by {
                let w = choose|w: int| 0 <= w < r.len() && r[w] == x;
                if w < i {
                    assert(ts0[w] == x);
                } else if w > i {
                    assert(ts0[w - 1] == x);
                }
            }
            assert forall|x: Seq<Seq<char>>| ts0.contains(x) || x == dt implies #[trigger] r
                .contains(x) by {
                if ts0.contains(x) {
                    let w = choose|w: int| 0 <= w < ts0.len() && ts0[w] == x;
                    if w < i {
                        assert(r[w] == x);
                    } else {
                        assert(r[w + 1] == x);
                    }
                } else {
                    assert(r[i as int] == x);
                }
            }
        }
    }
}

/// Insert the tags of `more` from position `k` on, one after the other.
pub open spec fn insert_all_from(
    ts: Seq<Seq<Seq<char>>>,
    more: Seq<Seq<Seq<char>>>,
    k: int,
) -> Seq<Seq<Seq<char>>>
    decreases more.len() - k,
{
    if k < 0 || k >= more.len() {
        ts
    } else {
        insert_all_from(sorted_insert_tag(ts, more[k]), more, k + 1)
    }
}

/// The union of a sorted tag sequence with the tags of `more`.
pub open spec fn insert_all_tags(ts: Seq<Seq<Seq<char>>>, more: Seq<Seq<Seq<char>>>) -> Seq<
    Seq<Seq<char>>,
> {
    insert_all_from(ts, more, 0)
}

/// The union holds exactly the tags of both sides.
pub proof fn lemma_insert_all_from_contains(
    ts: Seq<Seq<Seq<char>>>,
    more: Seq<Seq<Seq<char>>>,
    k: int,
)
    requires
        0 <= k <= more.len(),
    ensures
        forall|x: Seq<Seq<char>>|
            #[trigger] insert_all_from(ts, more, k).contains(x) <==> (ts.contains(x) || exists|i: int|
                k <= i < more.len() && more[i] == x),
    decreases more.len() - k,
{
    let r = insert_all_from(ts, more, k);
    if k == more.len() {
        assert(r == ts);
    } else {
        let acc2 = sorted_insert_tag(ts, more[k]);
        lemma_sorted_insert_tag_contains(ts, more[k]);
        lemma_insert_all_from_contains(acc2, more, k + 1);
        assert(r == insert_all_from(acc2, more, k + 1));
        assert forall|x: Seq<Seq<char>>| #[trigger] r.contains(x) implies (ts.contains(x)
            || exists|i: int| k <= i < more.len() && more[i] == x) by {
            assert(insert_all_from(acc2, more, k + 1).contains(x));
            if acc2.contains(x) {
                if !ts.contains(x) {
                    assert(more[k] == x);
                }
            } else {
                let i = choose|i: int| k + 1 <= i < more.len() && more[i] == x;
                assert(k <= i < more.len() && more[i] == x);
            }
        }
        assert forall|x: Seq<Seq<char>>| ts.contains(x) || (exists|i: int|
            k <= i < more.len() && more[i] == x) implies #[trigger] r.contains(x) by {
            if ts.contains(x) {
                assert(acc2.contains(x));
            } else {
                let i = choose|i: int| k <= i < more.len() && more[i] == x;
                if i == k {
                    assert(acc2.contains(x));
                } else {
                    assert(k + 1 <= i < more.len() && more[i] == x);
                }
            }
            assert(insert_all_from(acc2, more, k + 1).contains(x));
        }
    }
}

/// The union of two tag sequences holds exactly the tags of both.
pub proof fn lemma_insert_all_tags_contains(ts: Seq<Seq<Seq<char>>>, more: Seq<Seq<Seq<char>>>)
    ensures
        forall|x: Seq<Seq<char>>|
            #[trigger] insert_all_tags(ts, more).contains(x) <==> (ts.contains(x)
                || more.contains(x)),
{
    lemma_insert_all_from_contains(ts, more, 0);
}

impl TagSet {
    /// Insert every tag of `other` into this set.
    pub fn insert_all(&mut self, other: &TagSet)
        ensures
            final(self)@ == insert_all_tags(old(self)@, other@),
            old(self).wf() ==> final(self).wf(),
    {
        let ghost acc0 = self@;
        let ghost ov = other@;
        let ghost wf0 = old(self).wf();
        proof {
            assert(forall|p: int| 0 <= p < other.tags@.len() ==> ov[p] == other.tags@[p].deep_view());
        }
        let mut k: usize = 0;
        while k < other.tags.len()
            invariant
                0 <= k <= other.tags@.len(),
                ov == other@,
                ov.len() == other.tags@.len(),
                forall|p: int| 0 <= p < other.tags@.len() ==> ov[p] == other.tags@[p].deep_view(),
                insert_all_tags(acc0, ov) == insert_all_from(self@, ov, k as int),
                wf0 ==> self.wf(),
            decreases other.tags@.len() - k,
        {
            let t = clone_tag(&other.tags[k]);
            self.insert(t);
            k = k + 1;
        }
    }
}

/// After an insertion at the scan position, the vector is still strictly
/// sorted, provided it was before.
proof fn lemma_sorted_insert_wf_helper(
    ts: Seq<Seq<Seq<char>>>,
    t: Seq<Seq<char>>,
    i: int,
    p: int,
    q: int,
)
    requires
        0 <= i <= ts.len(),
        forall|k: int| 0 <= k < i ==> tag_lt(#[trigger] ts[k], t),
        i < ts.len() ==> !tag_lt(ts[i], t) && ts[i] != t,
        forall|a: int, b: int| 0 <= a < b < ts.len() ==> tag_lt(#[trigger] ts[a], #[trigger] ts[b]),
        0 <= p < q < ts.len() + 1,
    ensures
        tag_lt(
            (ts.take(i) + seq![t] + ts.skip(i))[p],
            (ts.take(i) + seq![t] + ts.skip(i))[q],
        ),
{
    let r = ts.take(i) + seq![t] + ts.skip(i);
    assert(r.len() == ts.len() + 1);
    if i < ts.len() {
        assert(tag_lt(t, ts[i])) by {
            lemma_tag_le_total(t, ts[i]);
            if !tag_lt(t, ts[i]) {
                assert(crate::order::tag_le(ts[i], t));
            }
        }
    }
    assert forall|k: int| i <= k < ts.len() implies tag_lt(t, #[trigger] ts[k]) by {
        if k > i {
            lemma_tag_le_trans(t, ts[i], ts[k]);
            assert(t != ts[k]) by {
                if t == ts[k] {
                    lemma_tag_le_antisym(t, ts[i]);
                }
            }
        }
    }
    if p < i && q < i {
    } else if p < i && q == i {
        assert(r[p] == ts[p] && r[q] == t);
    } else if p < i {
        assert(r[p] == ts[p] && r[q] == ts[q - 1]);
    } else if p == i {
        assert(r[p] == t && r[q] == ts[q - 1]);
    } else {
        assert(r[p] == ts[p - 1] && r[q] == ts[q - 1]);
    }
}

} // verus!
