//! The order of `String`s (`Ord for String`): character by character, a prefix first.

use crate::text::chars_of;
use vstd::prelude::*;

verus! {

pub open spec fn seq_lt(a: Seq<char>, b: Seq<char>) -> bool
    decreases a.len(),
{
    if a.len() == 0 {
        b.len() > 0
    } else if b.len() == 0 {
        false
    } else if a[0] != b[0] {
        (a[0] as u32) < (b[0] as u32)
    } else {
        seq_lt(a.drop_first(), b.drop_first())
    }
}

pub open spec fn strictly_sorted(s: Seq<Seq<char>>) -> bool {
    forall|i: int, j: int| 0 <= i < j < s.len() ==> seq_lt(#[trigger] s[i], #[trigger] s[j])
}

pub proof fn lemma_lt_irreflexive(a: Seq<char>)
    ensures
        !seq_lt(a, a),
    decreases a.len(),
{
    if a.len() > 0 {
        lemma_lt_irreflexive(a.drop_first());
    }
}

pub proof fn lemma_lt_transitive(a: Seq<char>, b: Seq<char>, c: Seq<char>)
    requires
        seq_lt(a, b),
        seq_lt(b, c),
    ensures
        seq_lt(a, c),
    decreases a.len(),
{
    if a.len() > 0 && b.len() > 0 && c.len() > 0 {
        if a[0] == b[0] && b[0] == c[0] {
            lemma_lt_transitive(a.drop_first(), b.drop_first(), c.drop_first());
        }
    }
}

pub proof fn lemma_lt_total(a: Seq<char>, b: Seq<char>)
    requires
        a != b,
    ensures
        seq_lt(a, b) || seq_lt(b, a),
    decreases a.len(),
{
    if a.len() > 0 && b.len() > 0 && a[0] == b[0] {
        if a.drop_first() == b.drop_first() {
            assert(a =~= seq![a[0]] + a.drop_first());
            assert(b =~= seq![b[0]] + b.drop_first());
        }
        lemma_lt_total(a.drop_first(), b.drop_first());
    } else if a.len() > 0 && b.len() > 0 {
        let x = a[0] as u32;
        let y = b[0] as u32;
        vstd::utf8::char_u32_cast(a[0], x);
        vstd::utf8::char_u32_cast(b[0], y);
        assert(x != y);
    } else if a.len() == 0 && b.len() == 0 {
        assert(a =~= b);
    }
}

pub proof fn lemma_lt_asymmetric(a: Seq<char>, b: Seq<char>)
    requires
        seq_lt(a, b),
    ensures
        !seq_lt(b, a),
{
    if seq_lt(b, a) {
        lemma_lt_transitive(a, b, a);
        lemma_lt_irreflexive(a);
    }
}

pub fn chars_lt(a: &[char], b: &[char]) -> (r: bool)
    ensures
        r == seq_lt(a@, b@),
{
    let mut i: usize = 0;
    assert(a@.skip(0) =~= a@);
    assert(b@.skip(0) =~= b@);
    while i < a.len() && i < b.len() && a[i] == b[i]
        invariant
            i <= a.len(),
            i <= b.len(),
            seq_lt(a@, b@) == seq_lt(a@.skip(i as int), b@.skip(i as int)),
        decreases a.len() - i,
    {
        assert(a@.skip(i as int).drop_first() =~= a@.skip(i + 1));
        assert(b@.skip(i as int).drop_first() =~= b@.skip(i + 1));
        i = i + 1;
    }
    if i == a.len() {
        i < b.len()
    } else if i == b.len() {
        false
    } else {
        (a[i] as u32) < (b[i] as u32)
    }
}

pub open spec fn str_views(v: Seq<String>) -> Seq<Seq<char>> {
    v.map_values(|s: String| s@)
}

/// The strings in ascending order (`Vec::sort` on distinct strings).
pub fn sorted_strings(items: Vec<String>) -> (r: Vec<String>)
    requires
        str_views(items@).no_duplicates(),
    ensures
        strictly_sorted(str_views(r@)),
        str_views(r@).to_set() == str_views(items@).to_set(),
        r@.len() == items@.len(),
{
    let mut r: Vec<String> = Vec::new();
    let mut i: usize = 0;
    let ghost src = str_views(items@);
    assert(str_views(r@).to_set() =~= src.take(0).to_set());
    while i < items.len()
        invariant
            i <= items@.len(),
            src == str_views(items@),
            src.no_duplicates(),
            strictly_sorted(str_views(r@)),
            str_views(r@).to_set() == src.take(i as int).to_set(),
            r@.len() == i,
        decreases items.len() - i,
    {
        let x = chars_of(&items[i]);
        let mut k: usize = 0;
        while k < r.len() && chars_lt(&chars_of(&r[k]), &x)
            invariant
                k <= r@.len(),
                x@ == src[i as int],
                forall|j: int| 0 <= j < k ==> seq_lt(#[trigger] str_views(r@)[j], x@),
            decreases r.len() - k,
        {
            k = k + 1;
        }
        let ghost before = str_views(r@);
        proof {
            assert(!before.contains(x@)) by {
                if before.contains(x@) {
                    assert(src.take(i as int).to_set().contains(x@));
                    let w = choose|w: int| 0 <= w < i && src.take(i as int)[w] == x@;
                    assert(src[w] == src[i as int]);
                }
            }
            if k < r@.len() {
                assert(!seq_lt(before[k as int], x@));
                lemma_lt_total(before[k as int], x@);
            }
        }
        r.insert(k, items[i].clone());
        proof {
            let after = str_views(r@);
            assert(after =~= before.insert(k as int, x@));
            assert forall|a: int, b: int| 0 <= a < b < after.len() implies seq_lt(
                #[trigger] after[a],
                #[trigger] after[b],
            ) by {
                if b < k {
                } else if a < k && b == k {
                } else if a < k && b > k {
                    assert(seq_lt(before[a], x@));
                    if k < before.len() {
                        if b - 1 > k {
                            assert(seq_lt(before[k as int], before[b - 1]));
                            lemma_lt_transitive(x@, before[k as int], before[b - 1]);
                        }
                    }
                    lemma_lt_transitive(before[a], x@, before[b - 1]);
                } else if a == k {
                    if b - 1 > k {
                        assert(seq_lt(before[k as int], before[b - 1]));
                        lemma_lt_transitive(x@, before[k as int], before[b - 1]);
                    }
                } else {
                    assert(seq_lt(before[a - 1], before[b - 1]));
                }
            }
            assert(src.take(i + 1) =~= src.take(i as int).push(x@));
            src.take(i as int).lemma_push_to_set_commute(x@);
            assert(after.to_set() =~= before.to_set().insert(x@)) by {
                assert forall|y: Seq<char>| after.to_set().contains(y) implies before.to_set().insert(x@).contains(y) by {
                    let w = choose|w: int| 0 <= w < after.len() && after[w] == y;
                    if w < k {
                        assert(before[w] == y);
                    } else if w > k {
                        assert(before[w - 1] == y);
                    }
                }
                assert forall|y: Seq<char>| before.to_set().insert(x@).contains(y) implies after.to_set().contains(y) by {
                    if y == x@ {
                        assert(after[k as int] == y);
                    } else {
                        let w = choose|w: int| 0 <= w < before.len() && before[w] == y;
                        if w < k {
                            assert(after[w] == y);
                        } else {
                            assert(after[w + 1] == y);
                        }
                    }
                }
            }
        }
        i = i + 1;
    }
    assert(src.take(items@.len() as int) =~= src);
    r
}

} // verus!
