use vstd::prelude::*;
use crate::text::{chars_lt, lemma_lt_trichotomy, lemma_lt_transitive, str_lt};

verus! {

/// The character contents of a list of strings.
pub open spec fn views_of(v: Seq<String>) -> Seq<Seq<char>> {
    v.map_values(|s: String| s@)
}

/// Each entry sorts strictly before every later one: the list is sorted and
/// holds no entry twice.
pub open spec fn strictly_sorted(s: Seq<Seq<char>>) -> bool {
    forall|i: int, j: int| 0 <= i < j < s.len() ==> chars_lt(#[trigger] s[i], #[trigger] s[j])
}

/// A strictly sorted list is determined by the names it holds: two such
/// lists with the same entries are the same list.
pub proof fn lemma_sorted_lists_equal(a: Seq<Seq<char>>, b: Seq<Seq<char>>)
    requires
        strictly_sorted(a),
        strictly_sorted(b),
        forall|n: Seq<char>| a.contains(n) <==> b.contains(n),
    ensures
        a == b,
    decreases a.len(),
{
    if a.len() == 0 {
        if b.len() > 0 {
            assert(b.contains(b[0]));
        }
        assert(a =~= b);
    } else {
        assert(a.contains(a[0]));
        assert(b.len() > 0);
        assert(b.contains(b[0]));
        let i = choose|i: int| 0 <= i < b.len() && b[i] == a[0];
        let j = choose|j: int| 0 <= j < a.len() && a[j] == b[0];
        // a[0] is the least entry of a, b[0] the least of b, so they agree.
        if i > 0 && j > 0 {
            assert(chars_lt(b[0], b[i]));
            assert(chars_lt(a[0], a[j]));
            lemma_lt_trichotomy(a[0], b[0]);
        }
        assert(a[0] == b[0]);
        let ta = a.drop_first();
        let tb = b.drop_first();
        assert forall|x: int, y: int| 0 <= x < y < ta.len() implies chars_lt(#[trigger] ta[x], #[trigger] ta[y]) by {
            assert(chars_lt(a[x + 1], a[y + 1]));
        }
        assert forall|x: int, y: int| 0 <= x < y < tb.len() implies chars_lt(#[trigger] tb[x], #[trigger] tb[y]) by {
            assert(chars_lt(b[x + 1], b[y + 1]));
        }
        assert forall|n: Seq<char>| ta.contains(n) <==> tb.contains(n) by {
            if ta.contains(n) {
                let k = choose|k: int| 0 <= k < ta.len() && ta[k] == n;
                assert(a.contains(n) && a[k + 1] == n);
                assert(chars_lt(a[0], n));
                lemma_lt_trichotomy(a[0], n);
                let m = choose|m: int| 0 <= m < b.len() && b[m] == n;
                assert(m != 0);
                assert(tb[m - 1] == n);
            }
            if tb.contains(n) {
                let k = choose|k: int| 0 <= k < tb.len() && tb[k] == n;
                assert(b.contains(n) && b[k + 1] == n);
                assert(chars_lt(b[0], n));
                lemma_lt_trichotomy(b[0], n);
                let m = choose|m: int| 0 <= m < a.len() && a[m] == n;
                assert(m != 0);
                assert(ta[m - 1] == n);
            }
        }
        lemma_sorted_lists_equal(ta, tb);
        assert(a =~= seq![a[0]] + ta);
        assert(b =~= seq![b[0]] + tb);
    }
}

/// Adds `name` to a sorted list of distinct names, keeping it sorted and
/// distinct: nothing changes when the name is already there.
pub fn insert_sorted(list: &mut Vec<String>, name: &String)
    requires
        strictly_sorted(views_of(old(list)@)),
    ensures
        strictly_sorted(views_of(final(list)@)),
        forall|n: Seq<char>|
            views_of(final(list)@).contains(n) <==> (views_of(old(list)@).contains(n) || n == name@),
{
    let ghost old_v = views_of(list@);
    let n = list.len();
    let mut i: usize = 0;
    while i < n && str_lt(list[i].as_str(), name.as_str())
        invariant
            n == list.len(),
            list@ == old(list)@,
            old_v == views_of(list@),
            i <= n,
            forall|k: int| 0 <= k < i ==> chars_lt(#[trigger] old_v[k], name@),
        decreases n - i,
    {
        i = i + 1;
    }
    if i < n && list[i] == *name {
        assert(old_v[i as int] == name@);
        return;
    }
    proof {
        if i < n {
            lemma_lt_trichotomy(old_v[i as int], name@);
        }
    }
    // Now every entry before `i` sorts before `name`, and `name` before every
    // entry from `i` on.
    assert forall|k: int| i <= k < n implies chars_lt(name@, #[trigger] old_v[k]) by {
        if k > i {
            lemma_lt_transitive(name@, old_v[i as int], old_v[k]);
        }
    }
    list.insert(i, name.clone());
    let ghost new_v = views_of(list@);
    assert(new_v =~= old_v.insert(i as int, name@));
    assert forall|a: int, b: int| 0 <= a < b < new_v.len() implies chars_lt(
        #[trigger] new_v[a],
        #[trigger] new_v[b],
    ) by {
        if b < i {
        } else if b == i {
        } else if a < i {
            lemma_lt_transitive(old_v[a], name@, old_v[b - 1]);
        } else if a == i {
        } else {
            assert(chars_lt(old_v[a - 1], old_v[b - 1]));
        }
    }
    assert forall|m: Seq<char>| new_v.contains(m) <==> (old_v.contains(m) || m == name@) by {
        if new_v.contains(m) {
            let k = choose|k: int| 0 <= k < new_v.len() && new_v[k] == m;
            if k < i {
                assert(old_v[k] == m);
            } else if k > i {
                assert(old_v[k - 1] == m);
            }
        }
        if old_v.contains(m) {
            let k = choose|k: int| 0 <= k < old_v.len() && old_v[k] == m;
            if k < i {
                assert(new_v[k] == m);
            } else {
                assert(new_v[k + 1] == m);
            }
        }
        if m == name@ {
            assert(new_v[i as int] == m);
        }
    }
}

} // verus!
