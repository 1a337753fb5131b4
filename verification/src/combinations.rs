//! Enumeration of the k-element subsets of `0..n`, each written as a strictly
//! increasing index sequence.  The roster-balancing search is exhaustive, so
//! the listing comes with proofs that every entry is such a subset
//! (`lemma_combos_sound`), that every such subset is listed
//! (`lemma_combos_complete`), and that the listing has the binomial
//! coefficient's length (`lemma_combos_count`).

use vstd::prelude::*;

verus! {

/// All strictly increasing sequences of length `k` over `0..n`: first those
/// that avoid `n - 1`, then those that end in it.
pub open spec fn combos(n: int, k: int) -> Seq<Seq<int>>
    decreases n, k,
{
    if k <= 0 {
        seq![Seq::empty()]
    } else if n <= 0 {
        Seq::empty()
    } else {
        combos(n - 1, k) + combos(n - 1, k - 1).map(|i: int, s: Seq<int>| s.push(n - 1))
    }
}

/// `s` is a k-element subset of `0..n`, written in increasing order.
pub open spec fn is_combo(n: int, k: int, s: Seq<int>) -> bool {
    &&& s.len() == k
    &&& (forall|i: int| 0 <= i < s.len() ==> 0 <= #[trigger] s[i] < n)
    &&& (forall|i: int, j: int| 0 <= i < j < s.len() ==> s[i] < s[j])
}

/// The binomial coefficient, by Pascal's recurrence.
pub open spec fn binomial(n: int, k: int) -> int
    decreases n, k,
{
    if k <= 0 {
        1
    } else if n <= 0 {
        0
    } else {
        binomial(n - 1, k) + binomial(n - 1, k - 1)
    }
}

/// Every entry of `combos(n, k)` is a k-element subset of `0..n` in
/// increasing order.
pub proof fn lemma_combos_sound(n: int, k: int)
    requires
        0 <= k,
    ensures
        forall|i: int| 0 <= i < combos(n, k).len() ==> is_combo(n, k, #[trigger] combos(n, k)[i]),
    decreases n, k,
{
    if k <= 0 {
        assert(combos(n, k)[0] =~= Seq::empty());
    } else if n <= 0 {
    } else {
        lemma_combos_sound(n - 1, k);
        lemma_combos_sound(n - 1, k - 1);
        let head = combos(n - 1, k);
        let tail = combos(n - 1, k - 1).map(|i: int, s: Seq<int>| s.push(n - 1));
        assert forall|i: int| 0 <= i < combos(n, k).len() implies is_combo(
            n,
            k,
            #[trigger] combos(n, k)[i],
        ) by {
            if i < head.len() {
                assert(combos(n, k)[i] == head[i]);
                assert(is_combo(n - 1, k, head[i]));
            } else {
                let j = i - head.len();
                let s = combos(n - 1, k - 1)[j];
                assert(combos(n, k)[i] == s.push(n - 1));
                assert(is_combo(n - 1, k - 1, s));
                let t = s.push(n - 1);
                assert forall|a: int| 0 <= a < t.len() implies 0 <= #[trigger] t[a] < n by {
                    if a < s.len() {
                        assert(t[a] == s[a]);
                    }
                }
                assert forall|a: int, b: int| 0 <= a < b < t.len() implies t[a] < t[b] by {
                    if b < s.len() {
                        assert(t[a] == s[a] && t[b] == s[b]);
                    } else {
                        assert(t[b] == n - 1);
                        assert(t[a] == s[a] && s[a] < n - 1);
                    }
                }
            }
        }
    }
}

/// Every k-element subset of `0..n` in increasing order appears in
/// `combos(n, k)`.
pub proof fn lemma_combos_complete(n: int, k: int, s: Seq<int>)
    requires
        0 <= n,
        0 <= k,
        is_combo(n, k, s),
    ensures
        combos(n, k).contains(s),
    decreases n,
{
    if k == 0 {
        assert(s =~= Seq::empty());
        assert(combos(n, k)[0] == s);
    } else {
        assert(0 <= s[0] < n);
        let head = combos(n - 1, k);
        let last = s[k - 1];
        if last == n - 1 {
            let s0 = s.take(k - 1);
            assert forall|i: int| 0 <= i < s0.len() implies 0 <= #[trigger] s0[i] < n - 1 by {
                assert(s0[i] == s[i]);
                assert(s[i] < s[k - 1]);
            }
            assert(is_combo(n - 1, k - 1, s0));
            lemma_combos_complete(n - 1, k - 1, s0);
            let j = choose|j: int|
                0 <= j < combos(n - 1, k - 1).len() && #[trigger] combos(n - 1, k - 1)[j] == s0;
            assert(combos(n, k)[head.len() + j] == s0.push(n - 1));
            assert(s0.push(n - 1) =~= s);
            assert(combos(n, k).contains(s));
        } else {
            assert forall|i: int| 0 <= i < s.len() implies 0 <= #[trigger] s[i] < n - 1 by {
                if i < k - 1 {
                    assert(s[i] < s[k - 1]);
                }
                assert(s[k - 1] < n && s[k - 1] != n - 1);
            }
            assert(is_combo(n - 1, k, s));
            lemma_combos_complete(n - 1, k, s);
            let j = choose|j: int| 0 <= j < head.len() && #[trigger] head[j] == s;
            assert(combos(n, k)[j] == s);
            assert(combos(n, k).contains(s));
        }
    }
}

/// `combos(n, k)` lists each subset at most once: the exhaustive search that
/// ranges over the listing visits no candidate twice.
pub proof fn lemma_combos_distinct(n: int, k: int)
    requires
        0 <= k,
    ensures
        forall|i: int, j: int|
            0 <= i < j < combos(n, k).len() ==> combos(n, k)[i] != combos(n, k)[j],
    decreases n, k,
{
    if k <= 0 {
    } else if n <= 0 {
    } else {
        lemma_combos_distinct(n - 1, k);
        lemma_combos_distinct(n - 1, k - 1);
        lemma_combos_sound(n - 1, k);
        lemma_combos_sound(n - 1, k - 1);
        let head = combos(n - 1, k);
        let sub = combos(n - 1, k - 1);
        assert forall|i: int, j: int|
            0 <= i < j < combos(n, k).len() implies combos(n, k)[i] != combos(n, k)[j] by {
            if j < head.len() {
                assert(combos(n, k)[i] == head[i] && combos(n, k)[j] == head[j]);
            } else if i < head.len() {
                let s2 = sub[j - head.len()];
                assert(combos(n, k)[i] == head[i]);
                assert(combos(n, k)[j] == s2.push(n - 1));
                assert(is_combo(n - 1, k, head[i]));
                assert(is_combo(n - 1, k - 1, s2));
                assert(head[i][k - 1] < n - 1);
                assert(s2.push(n - 1)[k - 1] == n - 1);
            } else {
                let s1 = sub[i - head.len()];
                let s2 = sub[j - head.len()];
                assert(combos(n, k)[i] == s1.push(n - 1));
                assert(combos(n, k)[j] == s2.push(n - 1));
                assert(is_combo(n - 1, k - 1, s1));
                assert(is_combo(n - 1, k - 1, s2));
                if combos(n, k)[i] == combos(n, k)[j] {
                    assert(s1 =~= s2) by {
                        assert forall|a: int| 0 <= a < s1.len() implies s1[a] == s2[a] by {
                            assert(s1.push(n - 1)[a] == s1[a]);
                            assert(s2.push(n - 1)[a] == s2[a]);
                        }
                    }
                    assert(false);
                }
            }
        }
    }
}

/// The members of `v`, as mathematical integers.
pub open spec fn indices(v: Seq<usize>) -> Seq<int> {
    v.map_values(|x: usize| x as int)
}

/// The listed subsets of `r`, as mathematical integer sequences.
pub open spec fn combo_views(r: Seq<Vec<usize>>) -> Seq<Seq<int>> {
    r.map_values(|v: Vec<usize>| indices(v@))
}

/// Lists the k-element subsets of `0..n`, each in increasing order, exactly
/// as `combos` describes them; `lemma_combos_sound`, `lemma_combos_complete`
/// and `lemma_combos_count` say what that listing holds.
pub fn combinations(n: usize, k: usize) -> (r: Vec<Vec<usize>>)
    ensures
        combo_views(r@) == combos(n as int, k as int),
    decreases n,
{
    let mut r: Vec<Vec<usize>> = Vec::new();
    if k == 0 {
        r.push(Vec::new());
        proof {
            assert(indices(r@[0]@) =~= Seq::empty());
            assert(combo_views(r@) =~= combos(n as int, 0));
        }
        r
    } else if n == 0 {
        proof {
            assert(combo_views(r@) =~= combos(0, k as int));
        }
        r
    } else {
        let mut r: Vec<Vec<usize>> = combinations(n - 1, k);
        let rest = combinations(n - 1, k - 1);
        let ghost head = combos(n as int - 1, k as int);
        let ghost sub = combos(n as int - 1, k as int - 1);
        let mut i: usize = 0;
        while i < rest.len()
            invariant
                1 <= n,
                1 <= k,
                i <= rest.len(),
                combo_views(rest@) == sub,
                r@.len() == head.len() + i,
                forall|a: int| 0 <= a < head.len() ==> #[trigger] combo_views(r@)[a] == head[a],
                forall|a: int|
                    0 <= a < i ==> #[trigger] combo_views(r@)[head.len() + a] == sub[a].push(
                        n as int - 1,
                    ),
            decreases rest.len() - i,
        {
            let c = &rest[i];
            let mut c2: Vec<usize> = Vec::new();
            let mut j: usize = 0;
            while j < c.len()
                invariant
                    j <= c.len(),
                    c2@ == c@.take(j as int),
                decreases c.len() - j,
            {
                let x: usize = c[j];
                c2.push(x);
                j = j + 1;
                proof {
                    assert(c2@ =~= c@.take(j as int));
                }
            }
            proof {
                assert(c2@ =~= c@);
            }
            c2.push(n - 1);
            proof {
                assert(indices(c@) == combo_views(rest@)[i as int]);
                assert(indices(c2@) =~= sub[i as int].push(n as int - 1));
            }
            let ghost r0 = r@;
            r.push(c2);
            i = i + 1;
            proof {
                assert forall|a: int| 0 <= a < r0.len() implies #[trigger] combo_views(r@)[a]
                    == combo_views(r0)[a] by {
                    assert(r@[a] == r0[a]);
                }
                assert(combo_views(r@)[head.len() + (i - 1)] == indices(c2@));
            }
        }
        proof {
            assert(sub.len() == rest@.len());
            assert(combo_views(r@) =~= combos(n as int, k as int)) by {
                assert(combos(n as int, k as int) == head + sub.map(
                    |q: int, s: Seq<int>| s.push(n as int - 1),
                ));
                assert forall|a: int|
                    0 <= a < combo_views(r@).len() implies #[trigger] combo_views(r@)[a] == (head
                    + sub.map(|q: int, s: Seq<int>| s.push(n as int - 1)))[a] by {
                    if a >= head.len() {
                        assert(combo_views(r@)[head.len() + (a - head.len())] == sub[a
                            - head.len()].push(n as int - 1));
                    }
                }
            }
        }
        r
    }
}

/// `combos(n, k)` lists `binomial(n, k)` subsets.
pub proof fn lemma_combos_count(n: int, k: int)
    ensures
        combos(n, k).len() == binomial(n, k),
    decreases n, k,
{
    if k <= 0 {
    } else if n <= 0 {
    } else {
        lemma_combos_count(n - 1, k);
        lemma_combos_count(n - 1, k - 1);
    }
}

} // verus!
