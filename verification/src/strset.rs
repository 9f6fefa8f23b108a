//! Sorted, duplicate-free keyword lists: the good and bad keyword sets
//! of a filter are held as vectors of strings in strictly ascending
//! lexicographic order, so that their length is the cardinality of the
//! keyword set and their enumeration order is deterministic.

use vstd::prelude::*;

use crate::order::{
    lemma_seq_char_le_antisym, lemma_seq_char_le_total, lemma_seq_char_le_trans, seq_char_le,
    seq_char_lt,
};
use crate::tagset::str_lt;

verus! {

/// Strictly ascending, hence duplicate-free.
pub open spec fn strs_sorted(ks: Seq<Seq<char>>) -> bool {
    forall|i: int, j: int|
        0 <= i < j < ks.len() ==> seq_char_lt(#[trigger] ks[i], #[trigger] ks[j])
}

/// Insert a string into a sorted string sequence, keeping it sorted and
/// skipping the insertion when the string is already present.
pub open spec fn sorted_insert_str(ks: Seq<Seq<char>>, k: Seq<char>) -> Seq<Seq<char>>
    decreases ks.len(),
{
    if ks.len() == 0 {
        seq![k]
    } else if k == ks[0] {
        ks
    } else if seq_char_lt(k, ks[0]) {
        seq![k] + ks
    } else {
        seq![ks[0]] + sorted_insert_str(ks.drop_first(), k)
    }
}

/// The sorted, duplicate-free form of a string sequence: every element
/// inserted in turn.
pub open spec fn sorted_dedup(ks: Seq<Seq<char>>) -> Seq<Seq<char>>
    decreases ks.len(),
{
    if ks.len() == 0 {
        Seq::empty()
    } else {
        sorted_insert_str(sorted_dedup(ks.drop_last()), ks.last())
    }
}

/// Where a linear scan stops, that is where `sorted_insert_str` puts the
/// string.
proof fn lemma_sorted_insert_str_at(ks: Seq<Seq<char>>, k: Seq<char>, i: int)
    requires
        0 <= i <= ks.len(),
        forall|m: int| 0 <= m < i ==> seq_char_lt(#[trigger] ks[m], k),
        i < ks.len() ==> !seq_char_lt(ks[i], k),
    ensures
        i < ks.len() && ks[i] == k ==> sorted_insert_str(ks, k) == ks,
        !(i < ks.len() && ks[i] == k) ==> sorted_insert_str(ks, k) == ks.take(i) + seq![k]
            + ks.skip(i),
    decreases ks.len(),
{
    if ks.len() == 0 {
        assert(sorted_insert_str(ks, k) =~= ks.take(0) + seq![k] + ks.skip(0));
    } else if i == 0 {
        if ks[0] == k {
        } else {
            assert(seq_char_lt(k, ks[0])) by {
                lemma_seq_char_le_total(k, ks[0]);
                if !seq_char_lt(k, ks[0]) {
                    assert(seq_char_le(ks[0], k));
                }
            }
            assert(sorted_insert_str(ks, k) =~= ks.take(0) + seq![k] + ks.skip(0));
        }
    } else {
        assert(seq_char_lt(ks[0], k));
        assert(!seq_char_lt(k, ks[0])) by {
            if seq_char_lt(k, ks[0]) {
                lemma_seq_char_le_antisym(k, ks[0]);
            }
        }
        let rest = ks.drop_first();
        assert(forall|m: int| 0 <= m < i - 1 ==> seq_char_lt(#[trigger] rest[m], k));
        lemma_sorted_insert_str_at(rest, k, i - 1);
        if i < ks.len() && ks[i] == k {
            assert(rest[i - 1] == k);
            assert(sorted_insert_str(ks, k) =~= seq![ks[0]] + rest);
            assert(seq![ks[0]] + rest =~= ks);
        } else {
            assert(sorted_insert_str(ks, k) =~= seq![ks[0]] + (rest.take(i - 1) + seq![k]
                + rest.skip(i - 1)));
            assert(seq![ks[0]] + (rest.take(i - 1) + seq![k] + rest.skip(i - 1)) =~= ks.take(i)
                + seq![k] + ks.skip(i));
        }
    }
}

/// Inserting keeps the list strictly sorted.
proof fn lemma_sorted_insert_str_wf_helper(ks: Seq<Seq<char>>, k: Seq<char>, i: int, p: int, q: int)
    requires
        0 <= i <= ks.len(),
        forall|m: int| 0 <= m < i ==> seq_char_lt(#[trigger] ks[m], k),
        i < ks.len() ==> !seq_char_lt(ks[i], k) && ks[i] != k,
        strs_sorted(ks),
        0 <= p < q < ks.len() + 1,
    ensures
        seq_char_lt(
            (ks.take(i) + seq![k] + ks.skip(i))[p],
            (ks.take(i) + seq![k] + ks.skip(i))[q],
        ),
{
    let r = ks.take(i) + seq![k] + ks.skip(i);
    if i < ks.len() {
        assert(seq_char_lt(k, ks[i])) by {
            lemma_seq_char_le_total(k, ks[i]);
            if !seq_char_lt(k, ks[i]) {
                assert(seq_char_le(ks[i], k));
            }
        }
    }
    assert forall|m: int| i <= m < ks.len() implies seq_char_lt(k, #[trigger] ks[m]) by {
        if m > i {
            lemma_seq_char_le_trans(k, ks[i], ks[m]);
            assert(k != ks[m]) by {
                if k == ks[m] {
                    lemma_seq_char_le_antisym(k, ks[i]);
                }
            }
        }
    }
    if p < i && q < i {
    } else if p < i && q == i {
        assert(r[p] == ks[p] && r[q] == k);
    } else if p < i {
        assert(r[p] == ks[p] && r[q] == ks[q - 1]);
    } else if p == i {
        assert(r[p] == k && r[q] == ks[q - 1]);
    } else {
        assert(r[p] == ks[p - 1] && r[q] == ks[q - 1]);
    }
}

/// Inserting adds exactly the one string to the elements.
pub proof fn lemma_sorted_insert_str_contains(ks: Seq<Seq<char>>, k: Seq<char>)
    ensures
        forall|x: Seq<char>|
            #[trigger] sorted_insert_str(ks, k).contains(x) <==> (ks.contains(x) || x == k),
    decreases ks.len(),
{
    let r = sorted_insert_str(ks, k);
    if ks.len() == 0 {
        assert forall|x: Seq<char>| #[trigger] r.contains(x) implies (ks.contains(x) || x == k) by {
            let w = choose|w: int| 0 <= w < r.len() && r[w] == x;
        }
        assert(r[0] == k);
    } else if k == ks[0] {
        assert(ks.contains(k)) by {
            assert(ks[0] == k);
        }
    } else if seq_char_lt(k, ks[0]) {
        assert(r == seq![k] + ks);
        assert forall|x: Seq<char>| #[trigger] r.contains(x) implies (ks.contains(x) || x == k) by {
            let w = choose|w: int| 0 <= w < r.len() && r[w] == x;
            if w > 0 {
                assert(ks[w - 1] == x);
            }
        }
        assert forall|x: Seq<char>| ks.contains(x) || x == k implies #[trigger] r.contains(x) by {
            if ks.contains(x) {
                let w = choose|w: int| 0 <= w < ks.len() && ks[w] == x;
                assert(r[w + 1] == x);
            } else {
                assert(r[0] == x);
            }
        }
    } else {
        let rest = ks.drop_first();
        lemma_sorted_insert_str_contains(rest, k);
        assert(r == seq![ks[0]] + sorted_insert_str(rest, k));
        assert forall|x: Seq<char>| #[trigger] r.contains(x) implies (ks.contains(x) || x == k) by {
            let w = choose|w: int| 0 <= w < r.len() && r[w] == x;
            if w == 0 {
                assert(ks[0] == x);
            } else {
                assert(sorted_insert_str(rest, k).contains(x)) by {
                    assert(sorted_insert_str(rest, k)[w - 1] == x);
                }
                if rest.contains(x) {
                    let v = choose|v: int| 0 <= v < rest.len() && rest[v] == x;
                    assert(ks[v + 1] == x);
                }
            }
        }
        assert forall|x: Seq<char>| ks.contains(x) || x == k implies #[trigger] r.contains(x) by {
            if ks.contains(x) && x != k {
                let w = choose|w: int| 0 <= w < ks.len() && ks[w] == x;
                if w == 0 {
                    assert(r[0] == x);
                } else {
                    assert(rest[w - 1] == x);
                    assert(sorted_insert_str(rest, k).contains(x));
                    let v = choose|v: int|
                        0 <= v < sorted_insert_str(rest, k).len() && sorted_insert_str(
                            rest,
                            k,
                        )[v] == x;
                    assert(r[v + 1] == x);
                }
            } else {
                assert(sorted_insert_str(rest, k).contains(k)) by {
                    assert(rest.contains(k) || k == k);
                }
                let v = choose|v: int|
                    0 <= v < sorted_insert_str(rest, k).len() && sorted_insert_str(rest, k)[v]
                        == k;
                assert(r[v + 1] == k);
            }
        }
    }
}

/// The sorted, duplicate-free form holds exactly the input's elements.
pub proof fn lemma_sorted_dedup_contains(ks: Seq<Seq<char>>)
    ensures
        forall|x: Seq<char>| #[trigger] sorted_dedup(ks).contains(x) <==> ks.contains(x),
    decreases ks.len(),
{
    if ks.len() > 0 {
        lemma_sorted_dedup_contains(ks.drop_last());
        lemma_sorted_insert_str_contains(sorted_dedup(ks.drop_last()), ks.last());
        assert forall|x: Seq<char>| #[trigger] sorted_dedup(ks).contains(x) implies ks.contains(
            x,
        ) by {
            if sorted_dedup(ks.drop_last()).contains(x) {
                let w = choose|w: int| 0 <= w < ks.drop_last().len() && ks.drop_last()[w] == x;
                assert(ks[w] == x);
            } else {
                assert(ks.last() == x);
            }
        }
        assert forall|x: Seq<char>| ks.contains(x) implies #[trigger] sorted_dedup(ks).contains(
            x,
        ) by {
            let w = choose|w: int| 0 <= w < ks.len() && ks[w] == x;
            if w < ks.len() - 1 {
                assert(ks.drop_last()[w] == x);
            }
        }
    }
}

/// Insert one keyword into a sorted keyword vector.
pub fn insert_str_sorted(v: &mut Vec<String>, s: String)
    ensures
        final(v).deep_view() == sorted_insert_str(old(v).deep_view(), s@),
        strs_sorted(old(v).deep_view()) ==> strs_sorted(final(v).deep_view()),
{
    let ghost ks0 = v.deep_view();
    proof {
        assert(forall|q: int| 0 <= q < v@.len() ==> ks0[q] == v@[q]@);
    }
    let mut i: usize = 0;
    while i < v.len() && str_lt(v[i].as_str(), s.as_str())
        invariant
            0 <= i <= v.len(),
            v.deep_view() == ks0,
            ks0.len() == v@.len(),
            forall|q: int| 0 <= q < v@.len() ==> ks0[q] == v@[q]@,
            forall|m: int| 0 <= m < i ==> seq_char_lt(#[trigger] ks0[m], s@),
        decreases v.len() - i,
    {
        i = i + 1;
    }
    if i < v.len() && v[i] == s {
        proof {
            lemma_sorted_insert_str_at(ks0, s@, i as int);
            assert(ks0[i as int] == s@);
        }
        return ;
    }
    proof {
        lemma_sorted_insert_str_at(ks0, s@, i as int);
    }
    v.insert(i, s);
    proof {
        assert(v.deep_view() =~= ks0.take(i as int) + seq![s@] + ks0.skip(i as int)) by {
            assert(forall|q: int| 0 <= q < v@.len() ==> v.deep_view()[q] == v@[q]@);
        }
        if strs_sorted(ks0) {
            assert forall|p: int, q: int| 0 <= p < q < v.deep_view().len() implies seq_char_lt(
                #[trigger] v.deep_view()[p],
                #[trigger] v.deep_view()[q],
            ) by {
                lemma_sorted_insert_str_wf_helper(ks0, s@, i as int, p, q);
            }
        }
    }
}

} // verus!
