//! Lexicographic orders used throughout the library: character-sequence
//! order (the order of Rust's `String`), tag order (segment-sequence
//! order), and the count-table order (count descending, key ascending).
//! Each order comes with the lemmas that make it a total order, so the
//! sorted containers built on them have a unique representation.

use vstd::prelude::*;

verus! {

/// Non-strict lexicographic order on character sequences, by code point.
pub open spec fn seq_char_le(a: Seq<char>, b: Seq<char>) -> bool
    decreases a.len(),
{
    if a.len() == 0 {
        true
    } else if b.len() == 0 {
        false
    } else if a[0] == b[0] {
        seq_char_le(a.drop_first(), b.drop_first())
    } else {
        (a[0] as u32) < (b[0] as u32)
    }
}

/// Strict lexicographic order on character sequences.
pub open spec fn seq_char_lt(a: Seq<char>, b: Seq<char>) -> bool {
    seq_char_le(a, b) && a != b
}

/// Distinct characters have distinct code points.
proof fn lemma_char_cast_injective(x: char, y: char)
    ensures
        x != y ==> (x as u32) != (y as u32),
{
    vstd::utf8::char_u32_cast(x, x as u32);
    vstd::utf8::char_u32_cast(y, y as u32);
}

pub proof fn lemma_seq_char_le_total(a: Seq<char>, b: Seq<char>)
    ensures
        seq_char_le(a, b) || seq_char_le(b, a),
    decreases a.len(),
{
    if a.len() > 0 && b.len() > 0 {
        if a[0] == b[0] {
            lemma_seq_char_le_total(a.drop_first(), b.drop_first());
        } else {
            lemma_char_cast_injective(a[0], b[0]);
        }
    }
}

pub proof fn lemma_seq_char_le_antisym(a: Seq<char>, b: Seq<char>)
    requires
        seq_char_le(a, b),
        seq_char_le(b, a),
    ensures
        a == b,
    decreases a.len(),
{
    if a.len() == 0 {
        assert(b.len() == 0);
        assert(a =~= b);
    } else {
        assert(a[0] == b[0]) by {
            if a[0] != b[0] {
                assert((a[0] as u32) < (b[0] as u32));
                assert((b[0] as u32) < (a[0] as u32));
            }
        }
        lemma_seq_char_le_antisym(a.drop_first(), b.drop_first());
        assert(a.len() == b.len());
        assert forall|i: int| 0 <= i < a.len() implies a[i] == b[i] by {
            if i > 0 {
                assert(a[i] == a.drop_first()[i - 1]);
                assert(b[i] == b.drop_first()[i - 1]);
            }
        }
        assert(a =~= b);
    }
}

pub proof fn lemma_seq_char_le_trans(a: Seq<char>, b: Seq<char>, c: Seq<char>)
    requires
        seq_char_le(a, b),
        seq_char_le(b, c),
    ensures
        seq_char_le(a, c),
    decreases a.len(),
{
    if a.len() > 0 && b.len() > 0 && c.len() > 0 {
        if a[0] == b[0] && b[0] == c[0] {
            lemma_seq_char_le_trans(a.drop_first(), b.drop_first(), c.drop_first());
        }
    }
}

/// If `a` and `b` agree on a prefix and differ at position `i`, the order
/// is decided by the characters at `i`.
pub proof fn lemma_seq_char_lt_first_diff(a: Seq<char>, b: Seq<char>, i: int)
    requires
        0 <= i < a.len(),
        i < b.len(),
        forall|k: int| 0 <= k < i ==> a[k] == b[k],
        a[i] != b[i],
    ensures
        seq_char_lt(a, b) <==> (a[i] as u32) < (b[i] as u32),
        a != b,
    decreases i,
{
    if i == 0 {
        assert(a != b) by {
            assert(a[0] != b[0]);
        }
    } else {
        assert(a[0] == b[0]);
        lemma_seq_char_lt_first_diff(a.drop_first(), b.drop_first(), i - 1);
        assert(a.drop_first()[i - 1] == a[i] && b.drop_first()[i - 1] == b[i]);
        assert(a != b) by {
            assert(a[i] != b[i]);
        }
        assert(a.drop_first() != b.drop_first()) by {
            assert(a.drop_first()[i - 1] != b.drop_first()[i - 1]);
        }
    }
}

/// If `a` is a proper prefix of `b`, then `a` comes strictly first.
pub proof fn lemma_seq_char_lt_prefix(a: Seq<char>, b: Seq<char>)
    requires
        a.len() < b.len(),
        forall|k: int| 0 <= k < a.len() ==> a[k] == b[k],
    ensures
        seq_char_lt(a, b),
    decreases a.len(),
{
    if a.len() > 0 {
        lemma_seq_char_lt_prefix(a.drop_first(), b.drop_first());
    }
    assert(a != b) by {
        assert(a.len() != b.len());
    }
}

/// Equal-length sequences that agree everywhere are the same sequence.
pub proof fn lemma_seq_char_eq_pointwise(a: Seq<char>, b: Seq<char>)
    requires
        a.len() == b.len(),
        forall|k: int| 0 <= k < a.len() ==> a[k] == b[k],
    ensures
        a == b,
{
    assert(a =~= b);
}

/// Non-strict lexicographic order on tags: segment sequences compared
/// pairwise, a shorter prefix coming first on a tie.
pub open spec fn tag_le(a: Seq<Seq<char>>, b: Seq<Seq<char>>) -> bool
    decreases a.len(),
{
    if a.len() == 0 {
        true
    } else if b.len() == 0 {
        false
    } else if a[0] == b[0] {
        tag_le(a.drop_first(), b.drop_first())
    } else {
        seq_char_lt(a[0], b[0])
    }
}

/// Strict order on tags.
pub open spec fn tag_lt(a: Seq<Seq<char>>, b: Seq<Seq<char>>) -> bool {
    tag_le(a, b) && a != b
}

pub proof fn lemma_tag_le_total(a: Seq<Seq<char>>, b: Seq<Seq<char>>)
    ensures
        tag_le(a, b) || tag_le(b, a),
    decreases a.len(),
{
    if a.len() > 0 && b.len() > 0 {
        if a[0] == b[0] {
            lemma_tag_le_total(a.drop_first(), b.drop_first());
        } else {
            lemma_seq_char_le_total(a[0], b[0]);
        }
    }
}

pub proof fn lemma_tag_le_antisym(a: Seq<Seq<char>>, b: Seq<Seq<char>>)
    requires
        tag_le(a, b),
        tag_le(b, a),
    ensures
        a == b,
    decreases a.len(),
{
    if a.len() == 0 {
        assert(b.len() == 0);
        assert(a =~= b);
    } else {
        assert(a[0] == b[0]) by {
            if a[0] != b[0] {
                assert(seq_char_lt(a[0], b[0]));
                assert(seq_char_lt(b[0], a[0]));
                lemma_seq_char_le_antisym(a[0], b[0]);
            }
        }
        lemma_tag_le_antisym(a.drop_first(), b.drop_first());
        assert(a.len() == b.len());
        assert forall|i: int| 0 <= i < a.len() implies a[i] == b[i] by {
            if i > 0 {
                assert(a[i] == a.drop_first()[i - 1]);
                assert(b[i] == b.drop_first()[i - 1]);
            }
        }
        assert(a =~= b);
    }
}

pub proof fn lemma_tag_le_trans(a: Seq<Seq<char>>, b: Seq<Seq<char>>, c: Seq<Seq<char>>)
    requires
        tag_le(a, b),
        tag_le(b, c),
    ensures
        tag_le(a, c),
    decreases a.len(),
{
    if a.len() > 0 && b.len() > 0 && c.len() > 0 {
        if a[0] == b[0] && b[0] == c[0] {
            lemma_tag_le_trans(a.drop_first(), b.drop_first(), c.drop_first());
        } else if a[0] == b[0] {
            // order decided between b[0] and c[0]
        } else if b[0] == c[0] {
            // order decided between a[0] and b[0]
        } else {
            assert(seq_char_lt(a[0], b[0]) && seq_char_lt(b[0], c[0]));
            lemma_seq_char_le_trans(a[0], b[0], c[0]);
            assert(a[0] != c[0]) by {
                if a[0] == c[0] {
                    lemma_seq_char_le_antisym(a[0], b[0]);
                }
            }
        }
    }
}

/// If `a` and `b` agree on the first `i` segments and differ at segment
/// `i`, the tag order is decided by the segments at `i`.
pub proof fn lemma_tag_lt_first_diff(a: Seq<Seq<char>>, b: Seq<Seq<char>>, i: int)
    requires
        0 <= i < a.len(),
        i < b.len(),
        forall|k: int| 0 <= k < i ==> a[k] == b[k],
        a[i] != b[i],
    ensures
        tag_lt(a, b) <==> seq_char_lt(a[i], b[i]),
        a != b,
    decreases i,
{
    if i == 0 {
        assert(a != b) by {
            assert(a[0] != b[0]);
        }
        if seq_char_lt(a[0], b[0]) {
            assert(tag_le(a, b));
        }
    } else {
        assert(a[0] == b[0]);
        lemma_tag_lt_first_diff(a.drop_first(), b.drop_first(), i - 1);
        assert(a.drop_first()[i - 1] == a[i] && b.drop_first()[i - 1] == b[i]);
        assert(a != b) by {
            assert(a[i] != b[i]);
        }
        assert(a.drop_first() != b.drop_first()) by {
            assert(a.drop_first()[i - 1] != b.drop_first()[i - 1]);
        }
    }
}

/// If tag `a` is a proper prefix of tag `b`, then `a` comes strictly first.
pub proof fn lemma_tag_lt_prefix(a: Seq<Seq<char>>, b: Seq<Seq<char>>)
    requires
        a.len() < b.len(),
        forall|k: int| 0 <= k < a.len() ==> a[k] == b[k],
    ensures
        tag_lt(a, b),
    decreases a.len(),
{
    if a.len() > 0 {
        lemma_tag_lt_prefix(a.drop_first(), b.drop_first());
    }
    assert(a != b) by {
        assert(a.len() != b.len());
    }
}

} // verus!
