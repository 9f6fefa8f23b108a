//! Tag-usage counting: every tag of every file contributes one count
//! for each of its segments and, for tags of depth greater than one,
//! one for its full `/`-joined path. The result is the list of
//! `(count, key)` pairs, sorted by count descending with ties broken by
//! key ascending, so the output is deterministic. The aggregation is a
//! commutative fold: permuting the input file list never changes it.

use vstd::prelude::*;
use vstd::multiset::Multiset;

use crate::filter::{build_items, tag_items, FileText, FileTextV, Filter};
use crate::order::{
    lemma_seq_char_le_antisym, lemma_seq_char_le_total, lemma_seq_char_le_trans, seq_char_le,
    seq_char_lt,
};
use crate::tagset::str_lt;
use crate::utility::{canon_tags, get_tags_from_string};

verus! {

/// The count keys contributed by a sequence of tags: the items of each
/// tag, in order.
pub open spec fn keys_of_tags(tags: Seq<Seq<Seq<char>>>) -> Seq<Seq<char>>
    decreases tags.len(),
{
    if tags.len() == 0 {
        Seq::empty()
    } else {
        keys_of_tags(tags.drop_last()) + tag_items(tags.last())
    }
}

/// The count keys of every file's tagset, concatenated.
pub open spec fn all_keys(files: Seq<FileTextV>) -> Seq<Seq<char>>
    decreases files.len(),
{
    if files.len() == 0 {
        Seq::empty()
    } else {
        all_keys(files.drop_last()) + keys_of_tags(canon_tags(files.last().text))
    }
}

/// A count table: keys strictly ascending.
pub open spec fn table_sorted(m: Seq<(Seq<char>, nat)>) -> bool {
    forall|i: int, j: int|
        0 <= i < j < m.len() ==> seq_char_lt((#[trigger] m[i]).0, (#[trigger] m[j]).0)
}

/// One more occurrence of key `k` folded into a sorted count table.
pub open spec fn spec_bump(m: Seq<(Seq<char>, nat)>, k: Seq<char>) -> Seq<(Seq<char>, nat)>
    decreases m.len(),
{
    if m.len() == 0 {
        seq![(k, 1nat)]
    } else if k == m[0].0 {
        seq![(m[0].0, (m[0].1 + 1) as nat)] + m.drop_first()
    } else if seq_char_lt(k, m[0].0) {
        seq![(k, 1nat)] + m
    } else {
        seq![m[0]] + spec_bump(m.drop_first(), k)
    }
}

/// The count table of a key sequence, one occurrence at a time.
pub open spec fn spec_count_map(keys: Seq<Seq<char>>) -> Seq<(Seq<char>, nat)>
    decreases keys.len(),
{
    if keys.len() == 0 {
        Seq::empty()
    } else {
        spec_bump(spec_count_map(keys.drop_last()), keys.last())
    }
}

/// The count a table holds for key `x` (zero when absent).
pub open spec fn table_count(m: Seq<(Seq<char>, nat)>, x: Seq<char>) -> nat
    decreases m.len(),
{
    if m.len() == 0 {
        0
    } else if m[0].0 == x {
        m[0].1
    } else {
        table_count(m.drop_first(), x)
    }
}

/// A key none of the entries carries counts zero.
proof fn lemma_table_count_absent(m: Seq<(Seq<char>, nat)>, x: Seq<char>)
    requires
        forall|i: int| 0 <= i < m.len() ==> (#[trigger] m[i]).0 != x,
    ensures
        table_count(m, x) == 0,
    decreases m.len(),
{
    if m.len() > 0 {
        assert(m[0].0 != x);
        assert(forall|i: int|
            0 <= i < m.drop_first().len() ==> (#[trigger] m.drop_first()[i]).0 != x);
        lemma_table_count_absent(m.drop_first(), x);
    }
}

/// In a sorted table, the entry for a key holds `table_count` of it.
proof fn lemma_table_count_entry(m: Seq<(Seq<char>, nat)>, i: int)
    requires
        table_sorted(m),
        0 <= i < m.len(),
    ensures
        table_count(m, m[i].0) == m[i].1,
    decreases m.len(),
{
    if i == 0 {
    } else {
        assert(seq_char_lt(m[0].0, m[i].0));
        assert(m[0].0 != m[i].0);
        assert(table_sorted(m.drop_first())) by {
            assert(forall|p: int, q: int|
                0 <= p < q < m.drop_first().len() ==> seq_char_lt(
                    (#[trigger] m.drop_first()[p]).0,
                    (#[trigger] m.drop_first()[q]).0,
                ));
        }
        lemma_table_count_entry(m.drop_first(), i - 1);
    }
}

/// If a sorted table counts a key positively, some entry carries it.
proof fn lemma_table_count_positive(m: Seq<(Seq<char>, nat)>, x: Seq<char>)
    requires
        table_count(m, x) > 0,
    ensures
        exists|i: int| 0 <= i < m.len() && (#[trigger] m[i]).0 == x,
    decreases m.len(),
{
    if m.len() > 0 {
        if m[0].0 == x {
            assert(m[0].0 == x);
        } else {
            lemma_table_count_positive(m.drop_first(), x);
            let i = choose|i: int|
                0 <= i < m.drop_first().len() && (#[trigger] m.drop_first()[i]).0 == x;
            assert(m[i + 1].0 == x);
        }
    }
}

/// Bumping a sorted table: counts shift by one exactly at the bumped
/// key; the table stays sorted, every entry stays positive, and every
/// entry's count grows by at most one.
proof fn lemma_bump_effect(m: Seq<(Seq<char>, nat)>, k: Seq<char>, x: Seq<char>)
    requires
        table_sorted(m),
    ensures
        table_count(spec_bump(m, k), x) == table_count(m, x) + (if x == k {
            1int
        } else {
            0int
        }),
        table_sorted(spec_bump(m, k)),
        forall|i: int|
            0 <= i < spec_bump(m, k).len() ==> (#[trigger] spec_bump(m, k)[i]).1 >= 1 || exists|j: int|
                0 <= j < m.len() && m[j].1 == spec_bump(m, k)[i].1,
    decreases m.len(),
{
    let r = spec_bump(m, k);
    if m.len() == 0 {
        assert(r == seq![(k, 1nat)]);
        if x != k {
            assert(table_count(r, x) == table_count(r.drop_first(), x));
            assert(r.drop_first() =~= Seq::<(Seq<char>, nat)>::empty());
        }
    } else if k == m[0].0 {
        assert(r == seq![(m[0].0, (m[0].1 + 1) as nat)] + m.drop_first());
        assert(r.drop_first() =~= m.drop_first());
        assert(r[0].0 == m[0].0);
        if x != k {
            assert(table_count(r, x) == table_count(m.drop_first(), x));
        }
        assert forall|i: int, j: int| 0 <= i < j < r.len() implies seq_char_lt(
            (#[trigger] r[i]).0,
            (#[trigger] r[j]).0,
        ) by {
            assert(r[i].0 == m[i].0 && r[j].0 == m[j].0);
        }
        assert forall|i: int| 0 <= i < r.len() implies (#[trigger] r[i]).1 >= 1 || exists|j: int|
            0 <= j < m.len() && m[j].1 == r[i].1 by {
            if i > 0 {
                assert(m[i].1 == r[i].1);
            }
        }
    } else if seq_char_lt(k, m[0].0) {
        assert(r == seq![(k, 1nat)] + m);
        assert(r.drop_first() =~= m);
        if x != k {
            assert(table_count(r, x) == table_count(m, x));
        } else {
            assert(forall|i: int| 0 <= i < m.len() ==> (#[trigger] m[i]).0 != k) by {
                assert forall|i: int| 0 <= i < m.len() implies (#[trigger] m[i]).0 != k by {
                    if i == 0 {
                    } else {
                        assert(seq_char_lt(m[0].0, m[i].0));
                        if m[i].0 == k {
                            lemma_seq_char_le_antisym(k, m[0].0);
                        }
                    }
                }
            }
            lemma_table_count_absent(m, k);
        }
        assert forall|i: int, j: int| 0 <= i < j < r.len() implies seq_char_lt(
            (#[trigger] r[i]).0,
            (#[trigger] r[j]).0,
        ) by {
            if i == 0 {
                if j > 1 {
                    assert(seq_char_lt(m[0].0, m[j - 1].0));
                    lemma_seq_char_le_trans(k, m[0].0, m[j - 1].0);
                    assert(k != m[j - 1].0) by {
                        if k == m[j - 1].0 {
                            lemma_seq_char_le_antisym(k, m[0].0);
                        }
                    }
                }
            } else {
                assert(r[i].0 == m[i - 1].0 && r[j].0 == m[j - 1].0);
            }
        }
        assert forall|i: int| 0 <= i < r.len() implies (#[trigger] r[i]).1 >= 1 || exists|j: int|
            0 <= j < m.len() && m[j].1 == r[i].1 by {
            if i > 0 {
                assert(m[i - 1].1 == r[i].1);
            }
        }
    } else {
        assert(!seq_char_lt(k, m[0].0) && k != m[0].0);
        assert(seq_char_lt(m[0].0, k)) by {
            lemma_seq_char_le_total(k, m[0].0);
        }
        assert(table_sorted(m.drop_first())) by {
            assert(forall|p: int, q: int|
                0 <= p < q < m.drop_first().len() ==> seq_char_lt(
                    (#[trigger] m.drop_first()[p]).0,
                    (#[trigger] m.drop_first()[q]).0,
                ));
        }
        lemma_bump_effect(m.drop_first(), k, x);
        let sub = spec_bump(m.drop_first(), k);
        assert(r == seq![m[0]] + sub);
        assert(r.drop_first() =~= sub);
        assert(r[0] == m[0]);
        if x == m[0].0 {
            assert(x != k);
            assert(table_count(r, x) == m[0].1);
        } else {
            assert(table_count(r, x) == table_count(sub, x));
            assert(table_count(m, x) == table_count(m.drop_first(), x));
        }
        // sortedness: the head is below everything in `sub`
        assert forall|j: int| 0 <= j < sub.len() implies seq_char_lt(m[0].0, (#[trigger] sub[j]).0)
            by {
            lemma_bump_key_set(m.drop_first(), k, j);
            if sub[j].0 == k {
            } else {
                let w = choose|w: int|
                    0 <= w < m.drop_first().len() && (#[trigger] m.drop_first()[w]).0 == sub[j].0;
                assert(seq_char_lt(m[0].0, m[w + 1].0));
            }
        }
        assert forall|i: int, j: int| 0 <= i < j < r.len() implies seq_char_lt(
            (#[trigger] r[i]).0,
            (#[trigger] r[j]).0,
        ) by {
            if i == 0 {
                assert(r[j].0 == sub[j - 1].0);
            } else {
                assert(r[i].0 == sub[i - 1].0 && r[j].0 == sub[j - 1].0);
            }
        }
        assert forall|i: int| 0 <= i < r.len() implies (#[trigger] r[i]).1 >= 1 || exists|j: int|
            0 <= j < m.len() && m[j].1 == r[i].1 by {
            if i > 0 {
                assert(sub[i - 1].1 == r[i].1);
                if !(sub[i - 1].1 >= 1) {
                    let j = choose|j: int|
                        0 <= j < m.drop_first().len() && m.drop_first()[j].1 == sub[i - 1].1;
                    assert(m[j + 1].1 == r[i].1);
                }
            }
        }
    }
}

/// Every key of the bumped table is the bumped key or one of the old
/// keys.
proof fn lemma_bump_key_set(m: Seq<(Seq<char>, nat)>, k: Seq<char>, j: int)
    requires
        0 <= j < spec_bump(m, k).len(),
    ensures
        spec_bump(m, k)[j].0 == k || exists|w: int|
            0 <= w < m.len() && (#[trigger] m[w]).0 == spec_bump(m, k)[j].0,
    decreases m.len(),
{
    let r = spec_bump(m, k);
    if m.len() == 0 {
    } else if k == m[0].0 {
        if j > 0 {
            assert(m[j].0 == r[j].0);
        } else {
            assert(m[0].0 == r[0].0);
        }
    } else if seq_char_lt(k, m[0].0) {
        if j > 0 {
            assert(m[j - 1].0 == r[j].0);
        }
    } else {
        if j == 0 {
            assert(m[0].0 == r[0].0);
        } else {
            lemma_bump_key_set(m.drop_first(), k, j - 1);
            let sub = spec_bump(m.drop_first(), k);
            assert(r[j] == sub[j - 1]);
            if sub[j - 1].0 != k {
                let w = choose|w: int|
                    0 <= w < m.drop_first().len() && (#[trigger] m.drop_first()[w]).0 == sub[j
                        - 1].0;
                assert(m[w + 1].0 == r[j].0);
            }
        }
    }
}

/// The count table of a key sequence is sorted, counts every key with
/// its number of occurrences, and holds only positive counts bounded by
/// the number of keys.
pub proof fn lemma_count_map_represents(keys: Seq<Seq<char>>)
    ensures
        table_sorted(spec_count_map(keys)),
        forall|x: Seq<char>|
            table_count(spec_count_map(keys), x) == keys.to_multiset().count(x),
        forall|i: int|
            0 <= i < spec_count_map(keys).len() ==> 1 <= (#[trigger] spec_count_map(keys)[i]).1
                <= keys.len(),
    decreases keys.len(),
{
    broadcast use vstd::seq_lib::group_to_multiset_ensures;

    let m = spec_count_map(keys);
    if keys.len() == 0 {
        assert(forall|x: Seq<char>| keys.to_multiset().count(x) == 0) by {
            assert(keys.to_multiset() =~= Multiset::empty());
        }
    } else {
        let prev = spec_count_map(keys.drop_last());
        lemma_count_map_represents(keys.drop_last());
        assert forall|x: Seq<char>| table_count(m, x) == keys.to_multiset().count(x) by {
            lemma_bump_effect(prev, keys.last(), x);
            assert(keys =~= keys.drop_last().push(keys.last()));
            assert(keys.to_multiset() =~= keys.drop_last().to_multiset().insert(keys.last()));
        }
        assert(table_sorted(m)) by {
            lemma_bump_effect(prev, keys.last(), keys.last());
        }
        assert forall|i: int| 0 <= i < m.len() implies 1 <= (#[trigger] m[i]).1 <= keys.len() by {
            lemma_bump_effect(prev, keys.last(), keys.last());
            lemma_table_count_entry(m, i);
            assert(table_count(m, m[i].0) == keys.to_multiset().count(m[i].0));
            assert(keys.to_multiset().count(m[i].0) <= keys.to_multiset().len());
            if m[i].1 >= 1 {
            } else {
                let j = choose|j: int| 0 <= j < prev.len() && prev[j].1 == m[i].1;
                assert(prev[j].1 >= 1);
            }
        }
    }
}

/// Two sorted tables that count every key alike are the same table.
proof fn lemma_table_unique(m1: Seq<(Seq<char>, nat)>, m2: Seq<(Seq<char>, nat)>)
    requires
        table_sorted(m1),
        table_sorted(m2),
        forall|i: int| 0 <= i < m1.len() ==> (#[trigger] m1[i]).1 >= 1,
        forall|i: int| 0 <= i < m2.len() ==> (#[trigger] m2[i]).1 >= 1,
        forall|x: Seq<char>| #[trigger] table_count(m1, x) == table_count(m2, x),
    ensures
        m1 == m2,
    decreases m1.len(),
{
    if m1.len() == 0 && m2.len() == 0 {
        assert(m1 =~= m2);
    } else if m1.len() == 0 {
        lemma_table_count_entry(m2, 0);
        assert(table_count(m1, m2[0].0) == 0);
    } else if m2.len() == 0 {
        lemma_table_count_entry(m1, 0);
        assert(table_count(m2, m1[0].0) == 0);
    } else {
        lemma_table_count_entry(m1, 0);
        lemma_table_count_entry(m2, 0);
        assert(m1[0].0 == m2[0].0) by {
            if m1[0].0 != m2[0].0 {
                assert(table_count(m2, m1[0].0) == m1[0].1 >= 1);
                lemma_table_count_positive(m2, m1[0].0);
                let j = choose|j: int| 0 <= j < m2.len() && (#[trigger] m2[j]).0 == m1[0].0;
                assert(j > 0);
                assert(seq_char_lt(m2[0].0, m1[0].0));
                assert(table_count(m1, m2[0].0) == m2[0].1 >= 1);
                lemma_table_count_positive(m1, m2[0].0);
                let w = choose|w: int| 0 <= w < m1.len() && (#[trigger] m1[w]).0 == m2[0].0;
                assert(w > 0);
                assert(seq_char_lt(m1[0].0, m2[0].0));
                lemma_seq_char_le_antisym(m1[0].0, m2[0].0);
            }
        }
        assert(m1[0].1 == m2[0].1) by {
            assert(table_count(m1, m1[0].0) == table_count(m2, m1[0].0));
        }
        let t1 = m1.drop_first();
        let t2 = m2.drop_first();
        assert(table_sorted(t1) && table_sorted(t2)) by {
            assert(forall|p: int, q: int|
                0 <= p < q < t1.len() ==> seq_char_lt((#[trigger] t1[p]).0, (#[trigger] t1[q]).0));
            assert(forall|p: int, q: int|
                0 <= p < q < t2.len() ==> seq_char_lt((#[trigger] t2[p]).0, (#[trigger] t2[q]).0));
        }
        assert forall|x: Seq<char>| #[trigger] table_count(t1, x) == table_count(t2, x) by {
            if x == m1[0].0 {
                assert(forall|i: int| 0 <= i < t1.len() ==> (#[trigger] t1[i]).0 != x) by {
                    assert forall|i: int| 0 <= i < t1.len() implies (#[trigger] t1[i]).0 != x by {
                        assert(t1[i] == m1[i + 1]);
                        assert(seq_char_lt(m1[0].0, m1[i + 1].0));
                        if m1[i + 1].0 == x {
                            lemma_seq_char_le_antisym(m1[0].0, m1[i + 1].0);
                        }
                    }
                }
                assert(forall|i: int| 0 <= i < t2.len() ==> (#[trigger] t2[i]).0 != x) by {
                    assert forall|i: int| 0 <= i < t2.len() implies (#[trigger] t2[i]).0 != x by {
                        assert(t2[i] == m2[i + 1]);
                        assert(seq_char_lt(m2[0].0, m2[i + 1].0));
                        if m2[i + 1].0 == x {
                            lemma_seq_char_le_antisym(m2[0].0, m2[i + 1].0);
                        }
                    }
                }
                lemma_table_count_absent(t1, x);
                lemma_table_count_absent(t2, x);
            } else {
                assert(table_count(m1, x) == table_count(t1, x));
                assert(table_count(m2, x) == table_count(t2, x));
            }
        }
        assert(forall|i: int| 0 <= i < t1.len() ==> (#[trigger] t1[i]).1 >= 1) by {
            assert(forall|i: int| 0 <= i < t1.len() ==> t1[i] == m1[i + 1]);
        }
        assert(forall|i: int| 0 <= i < t2.len() ==> (#[trigger] t2[i]).1 >= 1) by {
            assert(forall|i: int| 0 <= i < t2.len() ==> t2[i] == m2[i + 1]);
        }
        lemma_table_unique(t1, t2);
        assert(m1 =~= m2) by {
            assert(forall|i: int| 1 <= i < m1.len() ==> m1[i] == t1[i - 1] && m2[i] == t2[i - 1]);
        }
    }
}

/// The count table is a function of the key multiset alone: permuting
/// the keys changes nothing.
pub proof fn lemma_count_map_permutation(keys1: Seq<Seq<char>>, keys2: Seq<Seq<char>>)
    requires
        keys1.to_multiset() == keys2.to_multiset(),
    ensures
        spec_count_map(keys1) == spec_count_map(keys2),
{
    lemma_count_map_represents(keys1);
    lemma_count_map_represents(keys2);
    lemma_table_unique(spec_count_map(keys1), spec_count_map(keys2));
}

/// One tag's contribution to a tagset's key bag: it adds exactly one
/// occurrence of each of its items — one per segment and, at depth
/// greater than one, one for its full joined path. A depth-3 tag thus
/// raises the counts of its three segments and of its joined path by
/// one each.
pub proof fn lemma_tag_contribution(tags: Seq<Seq<Seq<char>>>, i: int)
    requires
        0 <= i < tags.len(),
    ensures
        keys_of_tags(tags).to_multiset() == keys_of_tags(tags.remove(i)).to_multiset().add(
            tag_items(tags[i]).to_multiset(),
        ),
        forall|x: Seq<char>|
            keys_of_tags(tags).to_multiset().count(x) == keys_of_tags(
                tags.remove(i),
            ).to_multiset().count(x) + tag_items(tags[i]).to_multiset().count(x),
    decreases tags.len(),
{
    broadcast use vstd::multiset::group_multiset_axioms;

    let last = tags.last();
    vstd::seq_lib::lemma_multiset_commutative(keys_of_tags(tags.drop_last()), tag_items(last));
    if i == tags.len() - 1 {
        assert(tags.remove(i) =~= tags.drop_last());
        assert(keys_of_tags(tags).to_multiset() =~= keys_of_tags(
            tags.remove(i),
        ).to_multiset().add(tag_items(tags[i]).to_multiset()));
    } else {
        lemma_tag_contribution(tags.drop_last(), i);
        assert(tags.remove(i).drop_last() =~= tags.drop_last().remove(i));
        assert(tags.remove(i).last() == last);
        vstd::seq_lib::lemma_multiset_commutative(
            keys_of_tags(tags.drop_last().remove(i)),
            tag_items(last),
        );
        assert(keys_of_tags(tags).to_multiset() =~= keys_of_tags(
            tags.remove(i),
        ).to_multiset().add(tag_items(tags[i]).to_multiset()));
    }
}

/// Taking one file out of the list takes exactly its keys out of the
/// key bag.
pub proof fn lemma_all_keys_extract(files: Seq<FileTextV>, j: int)
    requires
        0 <= j < files.len(),
    ensures
        all_keys(files).to_multiset() == all_keys(files.remove(j)).to_multiset().add(
            keys_of_tags(canon_tags(files[j].text)).to_multiset(),
        ),
    decreases files.len(),
{
    broadcast use vstd::multiset::group_multiset_axioms;

    let last = files.last();
    let lastkeys = keys_of_tags(canon_tags(last.text));
    vstd::seq_lib::lemma_multiset_commutative(all_keys(files.drop_last()), lastkeys);
    if j == files.len() - 1 {
        assert(files.remove(j) =~= files.drop_last());
        assert(all_keys(files).to_multiset() =~= all_keys(files.remove(j)).to_multiset().add(
            keys_of_tags(canon_tags(files[j].text)).to_multiset(),
        ));
    } else {
        lemma_all_keys_extract(files.drop_last(), j);
        assert(files.remove(j).drop_last() =~= files.drop_last().remove(j));
        assert(files.remove(j).last() == last);
        vstd::seq_lib::lemma_multiset_commutative(
            all_keys(files.drop_last().remove(j)),
            lastkeys,
        );
        assert(all_keys(files).to_multiset() =~= all_keys(files.remove(j)).to_multiset().add(
            keys_of_tags(canon_tags(files[j].text)).to_multiset(),
        ));
    }
}

/// The key bag is a function of the file multiset alone.
proof fn lemma_all_keys_permutation(files1: Seq<FileTextV>, files2: Seq<FileTextV>)
    requires
        files1.to_multiset() == files2.to_multiset(),
    ensures
        all_keys(files1).to_multiset() == all_keys(files2).to_multiset(),
    decreases files1.len(),
{
    broadcast use vstd::seq_lib::group_to_multiset_ensures;
    broadcast use vstd::multiset::group_multiset_axioms;

    if files1.len() == 0 {
        assert(files2.len() == 0) by {
            if files2.len() > 0 {
                assert(files2.to_multiset().count(files2[0]) > 0);
            }
        }
    } else {
        let x = files1.last();
        assert(files1.contains(x));
        assert(files2.to_multiset().count(x) > 0);
        assert(files2.contains(x));
        let j = choose|j: int| 0 <= j < files2.len() && files2[j] == x;
        assert(files1.drop_last() =~= files1.remove(files1.len() - 1));
        assert(files1.drop_last().to_multiset() =~= files1.to_multiset().remove(x));
        assert(files2.remove(j).to_multiset() =~= files2.to_multiset().remove(x));
        lemma_all_keys_permutation(files1.drop_last(), files2.remove(j));
        lemma_all_keys_extract(files2, j);
        vstd::seq_lib::lemma_multiset_commutative(
            all_keys(files1.drop_last()),
            keys_of_tags(canon_tags(x.text)),
        );
        assert(all_keys(files1).to_multiset() =~= all_keys(files2).to_multiset());
    }
}

/// The order of the count report: count descending, then key
/// ascending.
pub open spec fn count_pair_lt(a: (nat, Seq<char>), b: (nat, Seq<char>)) -> bool {
    a.0 > b.0 || (a.0 == b.0 && seq_char_lt(a.1, b.1))
}

proof fn lemma_pair_total(a: (nat, Seq<char>), b: (nat, Seq<char>))
    requires
        !count_pair_lt(a, b),
        a != b,
    ensures
        count_pair_lt(b, a),
{
    if a.0 == b.0 {
        assert(a.1 != b.1);
        lemma_seq_char_le_total(a.1, b.1);
        assert(seq_char_le(b.1, a.1));
    }
}

proof fn lemma_pair_antisym(a: (nat, Seq<char>), b: (nat, Seq<char>))
    requires
        count_pair_lt(a, b),
    ensures
        !count_pair_lt(b, a),
        a != b,
{
    if a.0 == b.0 {
        if count_pair_lt(b, a) {
            lemma_seq_char_le_antisym(a.1, b.1);
        }
        assert(a.1 != b.1);
    }
}

proof fn lemma_pair_trans(a: (nat, Seq<char>), b: (nat, Seq<char>), c: (nat, Seq<char>))
    requires
        count_pair_lt(a, b),
        count_pair_lt(b, c),
    ensures
        count_pair_lt(a, c),
{
    if a.0 == b.0 && b.0 == c.0 {
        lemma_seq_char_le_trans(a.1, b.1, c.1);
        if a.1 == c.1 {
            lemma_seq_char_le_antisym(a.1, b.1);
        }
    }
}

/// Sorted by count descending, key ascending; strictly, so entries are
/// distinct.
pub open spec fn pairs_sorted(ps: Seq<(nat, Seq<char>)>) -> bool {
    forall|i: int, j: int|
        0 <= i < j < ps.len() ==> count_pair_lt(#[trigger] ps[i], #[trigger] ps[j])
}

/// Insert a pair into a sorted pair sequence.
pub open spec fn sorted_insert_pair(ps: Seq<(nat, Seq<char>)>, p: (nat, Seq<char>)) -> Seq<
    (nat, Seq<char>),
>
    decreases ps.len(),
{
    if ps.len() == 0 {
        seq![p]
    } else if p == ps[0] {
        ps
    } else if count_pair_lt(p, ps[0]) {
        seq![p] + ps
    } else {
        seq![ps[0]] + sorted_insert_pair(ps.drop_first(), p)
    }
}

/// Where a linear scan stops, that is where `sorted_insert_pair` puts
/// the pair.
proof fn lemma_insert_pair_at(ps: Seq<(nat, Seq<char>)>, p: (nat, Seq<char>), i: int)
    requires
        0 <= i <= ps.len(),
        forall|m: int| 0 <= m < i ==> count_pair_lt(#[trigger] ps[m], p),
        i < ps.len() ==> !count_pair_lt(ps[i], p),
    ensures
        i < ps.len() && ps[i] == p ==> sorted_insert_pair(ps, p) == ps,
        !(i < ps.len() && ps[i] == p) ==> sorted_insert_pair(ps, p) == ps.take(i) + seq![p]
            + ps.skip(i),
    decreases ps.len(),
{
    if ps.len() == 0 {
        assert(sorted_insert_pair(ps, p) =~= ps.take(0) + seq![p] + ps.skip(0));
    } else if i == 0 {
        if ps[0] == p {
        } else {
            assert(count_pair_lt(p, ps[0])) by {
                lemma_pair_total(ps[0], p);
            }
            assert(sorted_insert_pair(ps, p) =~= ps.take(0) + seq![p] + ps.skip(0));
        }
    } else {
        assert(count_pair_lt(ps[0], p));
        lemma_pair_antisym(ps[0], p);
        let rest = ps.drop_first();
        assert(forall|m: int| 0 <= m < i - 1 ==> count_pair_lt(#[trigger] rest[m], p));
        lemma_insert_pair_at(rest, p, i - 1);
        if i < ps.len() && ps[i] == p {
            assert(rest[i - 1] == p);
            assert(sorted_insert_pair(ps, p) =~= seq![ps[0]] + rest);
            assert(seq![ps[0]] + rest =~= ps);
        } else {
            assert(sorted_insert_pair(ps, p) =~= seq![ps[0]] + (rest.take(i - 1) + seq![p]
                + rest.skip(i - 1)));
            assert(seq![ps[0]] + (rest.take(i - 1) + seq![p] + rest.skip(i - 1)) =~= ps.take(i)
                + seq![p] + ps.skip(i));
        }
    }
}

/// Inserting keeps the pair list strictly sorted.
proof fn lemma_insert_pair_wf_helper(
    ps: Seq<(nat, Seq<char>)>,
    p: (nat, Seq<char>),
    i: int,
    a: int,
    b: int,
)
    requires
        0 <= i <= ps.len(),
        forall|m: int| 0 <= m < i ==> count_pair_lt(#[trigger] ps[m], p),
        i < ps.len() ==> !count_pair_lt(ps[i], p) && ps[i] != p,
        pairs_sorted(ps),
        0 <= a < b < ps.len() + 1,
    ensures
        count_pair_lt(
            (ps.take(i) + seq![p] + ps.skip(i))[a],
            (ps.take(i) + seq![p] + ps.skip(i))[b],
        ),
{
    let r = ps.take(i) + seq![p] + ps.skip(i);
    if i < ps.len() {
        assert(count_pair_lt(p, ps[i])) by {
            lemma_pair_total(ps[i], p);
        }
    }
    assert forall|m: int| i <= m < ps.len() implies count_pair_lt(p, #[trigger] ps[m]) by {
        if m > i {
            lemma_pair_trans(p, ps[i], ps[m]);
        }
    }
    if a < i && b < i {
    } else if a < i && b == i {
        assert(r[a] == ps[a] && r[b] == p);
    } else if a < i {
        assert(r[a] == ps[a] && r[b] == ps[b - 1]);
    } else if a == i {
        assert(r[a] == p && r[b] == ps[b - 1]);
    } else {
        assert(r[a] == ps[a - 1] && r[b] == ps[b - 1]);
    }
}

/// The report rows of a count table from entry `k` on, folded into a
/// sorted pair list.
pub open spec fn pairs_of_from(
    m: Seq<(Seq<char>, nat)>,
    k: int,
    acc: Seq<(nat, Seq<char>)>,
) -> Seq<(nat, Seq<char>)>
    decreases m.len() - k,
{
    if k < 0 || k >= m.len() {
        acc
    } else {
        pairs_of_from(m, k + 1, sorted_insert_pair(acc, (m[k].1, m[k].0)))
    }
}

/// The sorted count report of a count table.
pub open spec fn spec_count_pairs(m: Seq<(Seq<char>, nat)>) -> Seq<(nat, Seq<char>)> {
    pairs_of_from(m, 0, Seq::empty())
}

/// The sorted count report of a file list: count each key occurrence
/// of each file, then sort by count descending and key ascending.
pub open spec fn spec_count_result(files: Seq<FileTextV>) -> Seq<(nat, Seq<char>)> {
    spec_count_pairs(spec_count_map(all_keys(files)))
}

/// Where a linear scan stops, that is where `spec_bump` counts or
/// inserts.
proof fn lemma_bump_at_scan(m: Seq<(Seq<char>, nat)>, k: Seq<char>, i: int)
    requires
        0 <= i <= m.len(),
        forall|p: int| 0 <= p < i ==> seq_char_lt((#[trigger] m[p]).0, k),
        i < m.len() ==> !seq_char_lt(m[i].0, k),
    ensures
        i < m.len() && m[i].0 == k ==> spec_bump(m, k) == m.update(i, (k, (m[i].1 + 1) as nat)),
        !(i < m.len() && m[i].0 == k) ==> spec_bump(m, k) == m.take(i) + seq![(k, 1nat)]
            + m.skip(i),
    decreases m.len(),
{
    if m.len() == 0 {
        assert(spec_bump(m, k) =~= m.take(0) + seq![(k, 1nat)] + m.skip(0));
    } else if i == 0 {
        if m[0].0 == k {
            assert(spec_bump(m, k) =~= m.update(0, (k, (m[0].1 + 1) as nat)));
        } else {
            assert(seq_char_lt(k, m[0].0)) by {
                lemma_seq_char_le_total(k, m[0].0);
                if !seq_char_lt(k, m[0].0) {
                    assert(seq_char_le(m[0].0, k));
                }
            }
            assert(spec_bump(m, k) =~= m.take(0) + seq![(k, 1nat)] + m.skip(0));
        }
    } else {
        assert(seq_char_lt(m[0].0, k));
        assert(m[0].0 != k);
        assert(!seq_char_lt(k, m[0].0)) by {
            if seq_char_lt(k, m[0].0) {
                lemma_seq_char_le_antisym(k, m[0].0);
            }
        }
        let rest = m.drop_first();
        assert(forall|p: int| 0 <= p < i - 1 ==> seq_char_lt((#[trigger] rest[p]).0, k));
        lemma_bump_at_scan(rest, k, i - 1);
        if i < m.len() && m[i].0 == k {
            assert(rest[i - 1] == m[i]);
            assert(spec_bump(m, k) =~= m.update(i, (k, (m[i].1 + 1) as nat)));
        } else {
            assert(spec_bump(m, k) =~= seq![m[0]] + (rest.take(i - 1) + seq![(k, 1nat)]
                + rest.skip(i - 1)));
            assert(seq![m[0]] + (rest.take(i - 1) + seq![(k, 1nat)] + rest.skip(i - 1)) =~= m.take(
                i,
            ) + seq![(k, 1nat)] + m.skip(i));
        }
    }
}

/// The mathematical image of the in-progress count table.
pub open spec fn entries_view(es: Seq<(String, usize)>) -> Seq<(Seq<char>, nat)> {
    Seq::new(es.len(), |i: int| (es[i].0@, es[i].1 as nat))
}

/// The mathematical image of the count report rows.
pub open spec fn pairs_view(ps: Seq<(usize, String)>) -> Seq<(nat, Seq<char>)> {
    Seq::new(ps.len(), |i: int| (ps[i].0 as nat, ps[i].1@))
}

/// Count one more occurrence of `key` in the table.
fn bump_entry(es: &mut Vec<(String, usize)>, key: String)
    requires
        forall|i: int| 0 <= i < old(es)@.len() ==> (#[trigger] old(es)@[i]).1 < usize::MAX,
    ensures
        entries_view(final(es)@) == spec_bump(entries_view(old(es)@), key@),
{
    let ghost m0 = entries_view(es@);
    let mut i: usize = 0;
    while i < es.len() && str_lt(es[i].0.as_str(), key.as_str())
        invariant
            0 <= i <= es@.len(),
            es@ == old(es)@,
            m0 == entries_view(es@),
            forall|p: int| 0 <= p < i ==> seq_char_lt((#[trigger] m0[p]).0, key@),
        decreases es@.len() - i,
    {
        i = i + 1;
    }
    proof {
        lemma_bump_at_scan(m0, key@, i as int);
    }
    if i < es.len() && es[i].0 == key {
        let c = es[i].1;
        assert(c == m0[i as int].1);
        es[i] = (key, c + 1);
        proof {
            assert(entries_view(es@) =~= m0.update(i as int, (key@, (m0[i as int].1 + 1) as nat)));
        }
    } else {
        es.insert(i, (key, 1));
        proof {
            assert(entries_view(es@) =~= m0.take(i as int) + seq![(key@, 1nat)] + m0.skip(
                i as int,
            ));
        }
    }
}

/// Insert one report row at its sorted position.
fn insert_pair_sorted(out: &mut Vec<(usize, String)>, c: usize, key: String)
    ensures
        pairs_view(final(out)@) == sorted_insert_pair(pairs_view(old(out)@), (c as nat, key@)),
{
    let ghost p0 = pairs_view(out@);
    let ghost np = (c as nat, key@);
    let mut i: usize = 0;
    while i < out.len() && (out[i].0 > c || (out[i].0 == c && str_lt(
        out[i].1.as_str(),
        key.as_str(),
    )))
        invariant
            0 <= i <= out@.len(),
            out@ == old(out)@,
            p0 == pairs_view(out@),
            np == (c as nat, key@),
            forall|m: int| 0 <= m < i ==> count_pair_lt(#[trigger] p0[m], np),
        decreases out@.len() - i,
    {
        i = i + 1;
    }
    proof {
        if i < out@.len() {
            assert(!count_pair_lt(p0[i as int], np));
        }
        lemma_insert_pair_at(p0, np, i as int);
    }
    if i < out.len() && out[i].0 == c && out[i].1 == key {
        assert(p0[i as int] == np);
        return ;
    }
    proof {
        if i < out@.len() {
            assert(p0[i as int] != np) by {
                if out@[i as int].0 == c {
                    assert(out@[i as int].1@ != key@);
                }
            }
        }
    }
    out.insert(i, (c, key));
    proof {
        assert(pairs_view(out@) =~= p0.take(i as int) + seq![np] + p0.skip(i as int));
    }
}

/// The count report is invariant under permutation of the input file
/// list: the aggregation is commutative, so two file lists with the
/// same files in any order yield the same report.
pub proof fn lemma_count_result_permutation(files1: Seq<FileTextV>, files2: Seq<FileTextV>)
    requires
        files1.to_multiset() == files2.to_multiset(),
    ensures
        spec_count_result(files1) == spec_count_result(files2),
{
    lemma_all_keys_permutation(files1, files2);
    lemma_count_map_permutation(all_keys(files1), all_keys(files2));
}

impl Filter {
    /// Count how often each key — each segment of each tag, and each
    /// full joined path of a tag of depth > 1 — occurs across all the
    /// files, the filter playing no part. The rows come sorted by
    /// count, high to low, ties broken by key ascending.
    pub fn count_of_tags(&self, files: &Vec<FileText>) -> (r: Vec<(usize, String)>)
        ensures
            pairs_view(r@) == spec_count_result(files.deep_view()),
    {
        let ghost fdv = files.deep_view();
        proof {
            assert(forall|p: int| 0 <= p < files@.len() ==> fdv[p] == files@[p]@);
        }
        let mut keys: Vec<String> = Vec::new();
        proof {
            assert(keys.deep_view() =~= Seq::<Seq<char>>::empty());
            assert(keys.deep_view() =~= all_keys(fdv.take(0)));
        }
        let mut fi: usize = 0;
        while fi < files.len()
            invariant
                0 <= fi <= files@.len(),
                fdv == files.deep_view(),
                fdv.len() == files@.len(),
                forall|p: int| 0 <= p < files@.len() ==> fdv[p] == files@[p]@,
                keys.deep_view() == all_keys(fdv.take(fi as int)),
            decreases files@.len() - fi,
        {
            let ts = get_tags_from_string(files[fi].text.as_str());
            let ghost tsv = ts@;
            proof {
                assert(tsv == canon_tags(fdv[fi as int].text));
                assert(forall|p: int| 0 <= p < ts.tags@.len() ==> tsv[p] == ts.tags@[p].deep_view());
                assert(keys.deep_view() + keys_of_tags(tsv.take(0)) =~= keys.deep_view());
            }
            let nt = ts.tags.len();
            let mut ti: usize = 0;
            while ti < nt
                invariant
                    0 <= ti <= nt,
                    0 <= fi < fdv.len(),
                    fdv == files.deep_view(),
                    tsv == ts@,
                    tsv.len() == nt,
                    nt == ts.tags@.len(),
                    forall|p: int|
                        0 <= p < ts.tags@.len() ==> tsv[p] == ts.tags@[p].deep_view(),
                    keys.deep_view() == all_keys(fdv.take(fi as int)) + keys_of_tags(
                        tsv.take(ti as int),
                    ),
                decreases nt - ti,
            {
                let items = build_items(&ts.tags[ti]);
                let ghost idv = items.deep_view();
                proof {
                    assert(idv == tag_items(tsv[ti as int]));
                    assert(forall|p: int| 0 <= p < items@.len() ==> idv[p] == items@[p]@);
                }
                let ghost base = keys.deep_view();
                let mut w: usize = 0;
                while w < items.len()
                    invariant
                        0 <= w <= items@.len(),
                        idv == items.deep_view(),
                        idv.len() == items@.len(),
                        forall|p: int| 0 <= p < items@.len() ==> idv[p] == items@[p]@,
                        keys.deep_view() == base + idv.take(w as int),
                    decreases items@.len() - w,
                {
                    let ghost prevdv = keys.deep_view();
                    let ghost prevv = keys@;
                    keys.push(items[w].clone());
                    proof {
                        assert(keys.deep_view() =~= prevdv.push(idv[w as int])) by {
                            assert(forall|p: int| 0 <= p < prevv.len() ==> keys@[p] == prevv[p]);
                            assert(forall|p: int|
                                0 <= p < prevv.len() ==> prevdv[p] == prevv[p]@);
                            assert(forall|p: int|
                                0 <= p < keys@.len() ==> keys.deep_view()[p] == keys@[p]@);
                            assert(keys@[prevv.len() as int]@ == idv[w as int]);
                        }
                        assert(prevdv.push(idv[w as int]) =~= base + idv.take(w as int + 1));
                    }
                    w = w + 1;
                }
                proof {
                    assert(idv.take(items@.len() as int) =~= idv);
                    assert(tsv.take(ti + 1).drop_last() =~= tsv.take(ti as int));
                    assert(tsv.take(ti + 1).last() == tsv[ti as int]);
                    assert(keys.deep_view() =~= all_keys(fdv.take(fi as int)) + keys_of_tags(
                        tsv.take(ti + 1),
                    ));
                }
                ti = ti + 1;
            }
            proof {
                assert(tsv.take(nt as int) =~= tsv);
                assert(fdv.take(fi + 1).drop_last() =~= fdv.take(fi as int));
                assert(fdv.take(fi + 1).last() == fdv[fi as int]);
            }
            fi = fi + 1;
        }
        proof {
            assert(fdv.take(files@.len() as int) =~= fdv);
        }
        let ghost kdv = keys.deep_view();
        proof {
            assert(forall|p: int| 0 <= p < keys@.len() ==> kdv[p] == keys@[p]@);
        }
        let mut es: Vec<(String, usize)> = Vec::new();
        proof {
            assert(entries_view(es@) =~= Seq::<(Seq<char>, nat)>::empty());
            assert(entries_view(es@) =~= spec_count_map(kdv.take(0)));
        }
        let nk = keys.len();
        let mut k: usize = 0;
        while k < nk
            invariant
                0 <= k <= nk,
                kdv == keys.deep_view(),
                kdv.len() == keys@.len(),
                nk == keys@.len(),
                forall|p: int| 0 <= p < keys@.len() ==> kdv[p] == keys@[p]@,
                entries_view(es@) == spec_count_map(kdv.take(k as int)),
            decreases nk - k,
        {
            proof {
                lemma_count_map_represents(kdv.take(k as int));
                assert forall|i: int| 0 <= i < es@.len() implies (#[trigger] es@[i]).1
                    < usize::MAX by {
                    assert(entries_view(es@)[i].1 <= kdv.take(k as int).len());
                }
            }
            bump_entry(&mut es, keys[k].clone());
            proof {
                assert(kdv.take(k + 1).drop_last() =~= kdv.take(k as int));
                assert(kdv.take(k + 1).last() == kdv[k as int]);
            }
            k = k + 1;
        }
        proof {
            assert(kdv.take(nk as int) =~= kdv);
        }
        let ghost mv = entries_view(es@);
        let mut out: Vec<(usize, String)> = Vec::new();
        proof {
            assert(pairs_view(out@) =~= Seq::<(nat, Seq<char>)>::empty());
        }
        let ne = es.len();
        let mut e: usize = 0;
        while e < ne
            invariant
                0 <= e <= ne,
                mv == entries_view(es@),
                ne == es@.len(),
                mv.len() == ne,
                spec_count_pairs(mv) == pairs_of_from(mv, e as int, pairs_view(out@)),
            decreases ne - e,
        {
            let c = es[e].1;
            let key = es[e].0.clone();
            proof {
                assert((c as nat, key@) == (mv[e as int].1, mv[e as int].0));
            }
            insert_pair_sorted(&mut out, c, key);
            e = e + 1;
        }
        out
    }
}

} // verus!
