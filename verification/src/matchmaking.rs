//! The roster-balancing search ranges over every way to split the players
//! `0..len` into two teams, with player 0 pinned to the first team and the
//! second team holding `len / 2` players.  This module lists those candidate
//! splits (`candidate_splits`), proves the listing sound and exhaustive, and
//! picks the best-scoring candidate (`pick_best`) the way the search does:
//! first strict improvement wins, and a score of zero never wins.

use vstd::prelude::*;

use crate::combinations::binomial;
use crate::combinations::combinations;
use crate::combinations::combo_views;
use crate::combinations::combos;
use crate::combinations::indices;
use crate::combinations::is_combo;
use crate::combinations::lemma_combos_complete;
use crate::combinations::lemma_combos_count;
use crate::combinations::lemma_combos_distinct;
use crate::combinations::lemma_combos_sound;

verus! {

/// The members of `s` are in strictly increasing order.
pub open spec fn strictly_increasing(s: Seq<int>) -> bool {
    forall|i: int, j: int| 0 <= i < j < s.len() ==> s[i] < s[j]
}

/// Every member of `s`, raised by one.
pub open spec fn shift_up(s: Seq<int>) -> Seq<int> {
    s.map_values(|x: int| x + 1)
}

/// The members of `0..len` that are not in `s`, in increasing order.
pub open spec fn range_complement(len: int, s: Seq<int>) -> Seq<int>
    decreases len,
{
    if len <= 0 {
        Seq::empty()
    } else if s.contains(len - 1) {
        range_complement(len - 1, s)
    } else {
        range_complement(len - 1, s).push(len - 1)
    }
}

/// Every candidate split of the roster `0..len`: the second team is each
/// choice of `len / 2` players among `1..len`, the first team is the rest.
pub open spec fn splits(len: int) -> Seq<(Seq<int>, Seq<int>)> {
    combos(len - 1, len / 2).map(
        |i: int, s: Seq<int>| (range_complement(len, shift_up(s)), shift_up(s)),
    )
}

/// `(t1, t2)` is a valid split of the roster `0..len`: both teams are in
/// increasing order, the second holds `len / 2` players, none of them player
/// 0, and every player stands in exactly one team.
pub open spec fn is_split(len: int, t1: Seq<int>, t2: Seq<int>) -> bool {
    &&& strictly_increasing(t1)
    &&& strictly_increasing(t2)
    &&& t2.len() == len / 2
    &&& (forall|x: int| #[trigger] t2.contains(x) ==> 1 <= x < len)
    &&& (forall|x: int| #[trigger] t1.contains(x) ==> 0 <= x < len)
    &&& (forall|x: int| #[trigger] t1.contains(x) ==> !t2.contains(x))
    &&& (forall|x: int| 0 <= x < len ==> (#[trigger] t1.contains(x) || t2.contains(x)))
}

/// Every listed candidate is a valid split of the roster `0..len`.
pub proof fn lemma_splits_sound(len: int)
    requires
        0 <= len,
    ensures
        forall|i: int|
            0 <= i < splits(len).len() ==> is_split(
                len,
                (#[trigger] splits(len)[i]).0,
                splits(len)[i].1,
            ),
{
    lemma_combos_sound(len - 1, len / 2);
    assert forall|i: int|
        0 <= i < splits(len).len() implies is_split(
        len,
        (#[trigger] splits(len)[i]).0,
        splits(len)[i].1,
    ) by {
        let c = combos(len - 1, len / 2)[i];
        assert(is_combo(len - 1, len / 2, c));
        let u = shift_up(c);
        assert(splits(len)[i] == (range_complement(len, u), u));
        let t1 = range_complement(len, u);
        lemma_range_complement_members(len, u);
        lemma_range_complement_sorted(len, u);
        assert(u.len() == c.len());
        assert forall|p: int, q: int| 0 <= p < q < u.len() implies u[p] < u[q] by {
            assert(u[p] == c[p] + 1 && u[q] == c[q] + 1);
        }
        assert forall|x: int| #[trigger] u.contains(x) implies 1 <= x < len by {
            let p = choose|p: int| 0 <= p < u.len() && u[p] == x;
            assert(u[p] == c[p] + 1);
            assert(0 <= c[p] < len - 1);
        }
        assert(strictly_increasing(t1));
        assert forall|x: int| #[trigger] t1.contains(x) implies 0 <= x < len by {
            assert(t1.contains(x) <==> (0 <= x < len && !u.contains(x)));
        }
    }
}

/// Every valid split of the roster `0..len` is among the listed candidates:
/// the search that ranks them is exhaustive.
pub proof fn lemma_splits_complete(len: int, t1: Seq<int>, t2: Seq<int>)
    requires
        0 <= len,
        is_split(len, t1, t2),
    ensures
        splits(len).contains((t1, t2)),
{
    if len == 0 {
        assert(t2 =~= Seq::empty());
        if t1.len() > 0 {
            assert(t1.contains(t1[0]));
        }
        assert(t1 =~= Seq::empty());
        let c = combos(-1, 0)[0];
        assert(c =~= Seq::empty());
        assert(shift_up(c) =~= Seq::empty());
        assert(splits(0)[0] == (range_complement(0, shift_up(c)), shift_up(c)));
        assert(splits(0)[0] == (t1, t2));
        assert(splits(0).contains((t1, t2)));
    } else {
        let c = t2.map_values(|x: int| x - 1);
        assert(is_combo(len - 1, len / 2, c)) by {
            assert(c.len() == t2.len());
            assert forall|i: int| 0 <= i < c.len() implies 0 <= #[trigger] c[i] < len - 1 by {
                assert(t2.contains(t2[i]));
                assert(c[i] == t2[i] - 1);
            }
            assert forall|p: int, q: int| 0 <= p < q < c.len() implies c[p] < c[q] by {
                assert(c[p] == t2[p] - 1 && c[q] == t2[q] - 1);
            }
        }
        lemma_combos_complete(len - 1, len / 2, c);
        let cs = combos(len - 1, len / 2);
        let j = choose|j: int| 0 <= j < cs.len() && #[trigger] cs[j] == c;
        assert(shift_up(c) =~= t2) by {
            assert(shift_up(c).len() == t2.len());
            assert forall|i: int| 0 <= i < t2.len() implies #[trigger] shift_up(c)[i] == t2[i] by {
                assert(c[i] == t2[i] - 1);
            }
        }
        assert(splits(len)[j] == (range_complement(len, t2), t2));
        lemma_range_complement_members(len, t2);
        lemma_range_complement_sorted(len, t2);
        let rc = range_complement(len, t2);
        assert forall|x: int| #[trigger] t1.contains(x) <==> rc.contains(x) by {
            assert(rc.contains(x) <==> (0 <= x < len && !t2.contains(x)));
        }
        lemma_sorted_unique(t1, rc);
        assert(splits(len)[j] == (t1, t2));
        assert(splits(len).contains((t1, t2)));
    }
}

/// The search space of the balancing search: one candidate for each choice
/// of `len / 2` players among `1..len`.
pub proof fn lemma_splits_count(len: int)
    ensures
        splits(len).len() == binomial(len - 1, len / 2),
{
    lemma_combos_count(len - 1, len / 2);
}

/// No valid split scores strictly higher than a best-scoring listed
/// candidate: the listing is exhaustive, so whatever scores the candidates
/// are given, a split that beats the kept one would have to be a candidate
/// with a higher score, and there is none.
pub proof fn lemma_balance_optimal(
    len: int,
    scores: Seq<u64>,
    best: int,
    t1: Seq<int>,
    t2: Seq<int>,
)
    requires
        0 <= len,
        scores.len() == splits(len).len(),
        0 <= best < scores.len(),
        forall|a: int| 0 <= a < scores.len() ==> #[trigger] scores[a] <= scores[best],
        is_split(len, t1, t2),
    ensures
        exists|i: int|
            0 <= i < splits(len).len() && #[trigger] splits(len)[i] == (t1, t2) && scores[i]
                <= scores[best],
{
    lemma_splits_complete(len, t1, t2);
    let i = choose|i: int| 0 <= i < splits(len).len() && #[trigger] splits(len)[i] == (t1, t2);
    assert(scores[i] <= scores[best]);
}

/// The listing of candidate splits repeats none of them: the balancing
/// search weighs each way of forming the two teams exactly once.
pub proof fn lemma_splits_distinct(len: int)
    requires
        0 <= len,
    ensures
        forall|i: int, j: int|
            0 <= i < j < splits(len).len() ==> splits(len)[i] != splits(len)[j],
{
    lemma_combos_distinct(len - 1, len / 2);
    let cs = combos(len - 1, len / 2);
    assert forall|i: int, j: int|
        0 <= i < j < splits(len).len() implies splits(len)[i] != splits(len)[j] by {
        assert(splits(len)[i].1 == shift_up(cs[i]));
        assert(splits(len)[j].1 == shift_up(cs[j]));
        if splits(len)[i] == splits(len)[j] {
            assert(cs[i] =~= cs[j]) by {
                assert(shift_up(cs[i]).len() == cs[i].len());
                assert(shift_up(cs[j]).len() == cs[j].len());
                assert forall|a: int| 0 <= a < cs[i].len() implies cs[i][a] == cs[j][a] by {
                    assert(shift_up(cs[i])[a] == cs[i][a] + 1);
                    assert(shift_up(cs[j])[a] == cs[j][a] + 1);
                }
            }
            assert(false);
        }
    }
}

/// A valid split's two teams together hold exactly the `len` players: the
/// first team has the `len - len / 2` players that the second lacks.
pub proof fn lemma_split_sizes(len: int, t1: Seq<int>, t2: Seq<int>)
    requires
        0 <= len,
        is_split(len, t1, t2),
    ensures
        t1.len() + t2.len() == len,
{
    lemma_range_complement_members(len, t2);
    lemma_range_complement_sorted(len, t2);
    let rc = range_complement(len, t2);
    assert forall|x: int| #[trigger] t1.contains(x) <==> rc.contains(x) by {
        assert(rc.contains(x) <==> (0 <= x < len && !t2.contains(x)));
    }
    lemma_sorted_unique(t1, rc);
    lemma_range_complement_len(len, t2);
}

proof fn lemma_range_complement_congruent(len: int, s: Seq<int>, s2: Seq<int>)
    requires
        forall|x: int| x < len ==> (#[trigger] s.contains(x) <==> s2.contains(x)),
    ensures
        range_complement(len, s) == range_complement(len, s2),
    decreases len,
{
    if len > 0 {
        lemma_range_complement_congruent(len - 1, s, s2);
    }
}

proof fn lemma_range_complement_len(len: int, s: Seq<int>)
    requires
        0 <= len,
        strictly_increasing(s),
        forall|x: int| #[trigger] s.contains(x) ==> 0 <= x < len,
    ensures
        range_complement(len, s).len() + s.len() == len,
    decreases len,
{
    if len <= 0 {
        if s.len() > 0 {
            assert(s.contains(s[0]));
        }
    } else if s.contains(len - 1) {
        assert(s.len() > 0);
        let last = s[s.len() - 1];
        assert(last == len - 1) by {
            let i = choose|i: int| 0 <= i < s.len() && s[i] == len - 1;
            if i < s.len() - 1 {
                assert(s[i] < last);
            }
            assert(s.contains(last));
        }
        let s0 = s.drop_last();
        assert forall|x: int|
            x < len - 1 implies (#[trigger] s.contains(x) <==> s0.contains(x)) by {
            lemma_drop_last_members(s, x);
        }
        lemma_range_complement_congruent(len - 1, s, s0);
        assert forall|x: int| #[trigger] s0.contains(x) implies 0 <= x < len - 1 by {
            lemma_drop_last_members(s, x);
            let i = choose|i: int| 0 <= i < s0.len() && s0[i] == x;
            assert(s[i] < last);
        }
        lemma_range_complement_len(len - 1, s0);
    } else {
        assert forall|x: int| #[trigger] s.contains(x) implies 0 <= x < len - 1 by {
            assert(x < len && x != len - 1);
        }
        lemma_range_complement_len(len - 1, s);
    }
}

proof fn lemma_range_complement_members(len: int, s: Seq<int>)
    ensures
        forall|x: int| #[trigger]
            range_complement(len, s).contains(x) <==> (0 <= x < len && !s.contains(x)),
    decreases len,
{
    if len <= 0 {
        assert forall|x: int| !(#[trigger] range_complement(len, s).contains(x)) by {
            assert(range_complement(len, s).len() == 0);
        }
    } else {
        lemma_range_complement_members(len - 1, s);
        let prev = range_complement(len - 1, s);
        let cur = range_complement(len, s);
        assert forall|x: int| #[trigger]
            cur.contains(x) <==> (0 <= x < len && !s.contains(x)) by {
            if cur.contains(x) {
                let i = choose|i: int| 0 <= i < cur.len() && cur[i] == x;
                if s.contains(len - 1) {
                    assert(prev.contains(x));
                } else {
                    if i < prev.len() {
                        assert(prev.contains(x));
                    } else {
                        assert(x == len - 1);
                    }
                }
            }
            if 0 <= x < len && !s.contains(x) {
                if x < len - 1 {
                    assert(prev.contains(x));
                    let i = choose|i: int| 0 <= i < prev.len() && prev[i] == x;
                    if s.contains(len - 1) {
                        assert(cur[i] == x);
                    } else {
                        assert(cur[i] == x);
                    }
                    assert(cur.contains(x));
                } else {
                    assert(cur[prev.len() as int] == x);
                    assert(cur.contains(x));
                }
            }
        }
    }
}

proof fn lemma_range_complement_sorted(len: int, s: Seq<int>)
    ensures
        strictly_increasing(range_complement(len, s)),
        forall|i: int|
            0 <= i < range_complement(len, s).len() ==> 0 <= #[trigger] range_complement(
                len,
                s,
            )[i] < len,
    decreases len,
{
    if len <= 0 {
    } else {
        lemma_range_complement_sorted(len - 1, s);
    }
}

proof fn lemma_drop_last_members(a: Seq<int>, x: int)
    requires
        a.len() > 0,
        strictly_increasing(a),
    ensures
        a.drop_last().contains(x) <==> (a.contains(x) && x != a[a.len() - 1]),
{
    let a0 = a.drop_last();
    if a0.contains(x) {
        let i = choose|i: int| 0 <= i < a0.len() && a0[i] == x;
        assert(a[i] == x);
        assert(a.contains(x));
        assert(a[i] < a[a.len() - 1]);
    }
    if a.contains(x) && x != a[a.len() - 1] {
        let i = choose|i: int| 0 <= i < a.len() && a[i] == x;
        assert(i < a.len() - 1);
        assert(a0[i] == x);
        assert(a0.contains(x));
    }
}

proof fn lemma_sorted_unique(a: Seq<int>, b: Seq<int>)
    requires
        strictly_increasing(a),
        strictly_increasing(b),
        forall|x: int| #[trigger] a.contains(x) <==> b.contains(x),
    ensures
        a == b,
    decreases a.len(),
{
    if a.len() == 0 {
        if b.len() > 0 {
            assert(b.contains(b[0]));
            assert(a.contains(b[0]));
        }
        assert(a =~= b);
    } else {
        assert(b.len() > 0) by {
            assert(a.contains(a[0]));
            assert(b.contains(a[0]));
        }
        let la = a[a.len() - 1];
        let lb = b[b.len() - 1];
        assert(la == lb) by {
            assert(a.contains(la));
            assert(b.contains(la));
            let j = choose|j: int| 0 <= j < b.len() && b[j] == la;
            assert(la <= lb) by {
                if j < b.len() - 1 {
                    assert(b[j] < lb);
                }
            }
            assert(b.contains(lb));
            assert(a.contains(lb));
            let i = choose|i: int| 0 <= i < a.len() && a[i] == lb;
            assert(lb <= la) by {
                if i < a.len() - 1 {
                    assert(a[i] < la);
                }
            }
        }
        let a0 = a.drop_last();
        let b0 = b.drop_last();
        assert forall|x: int| #[trigger] a0.contains(x) <==> b0.contains(x) by {
            lemma_drop_last_members(a, x);
            lemma_drop_last_members(b, x);
        }
        lemma_sorted_unique(a0, b0);
        assert(a =~= b) by {
            assert(a.len() == b.len());
            assert forall|i: int| 0 <= i < a.len() implies a[i] == b[i] by {
                if i < a.len() - 1 {
                    assert(a[i] == a0[i] && b[i] == b0[i]);
                }
            }
        }
    }
}

/// The listed splits of `r`, as pairs of mathematical integer sequences.
pub open spec fn split_views(r: Seq<(Vec<usize>, Vec<usize>)>) -> Seq<(Seq<int>, Seq<int>)> {
    r.map_values(|p: (Vec<usize>, Vec<usize>)| (indices(p.0@), indices(p.1@)))
}

proof fn lemma_indices_contains(v: Seq<usize>, x: usize)
    ensures
        v.contains(x) <==> indices(v).contains(x as int),
{
    if v.contains(x) {
        let i = choose|i: int| 0 <= i < v.len() && v[i] == x;
        assert(indices(v)[i] == x as int);
        assert(indices(v).contains(x as int));
    }
    if indices(v).contains(x as int) {
        let i = choose|i: int| 0 <= i < indices(v).len() && indices(v)[i] == x as int;
        assert(v[i] as int == x as int);
        assert(v.contains(x));
    }
}

fn contains_val(v: &Vec<usize>, x: usize) -> (b: bool)
    ensures
        b == v@.contains(x),
{
    let mut i: usize = 0;
    while i < v.len()
        invariant
            i <= v@.len(),
            forall|a: int| 0 <= a < i ==> v@[a] != x,
        decreases v@.len() - i,
    {
        if v[i] == x {
            return true;
        }
        i = i + 1;
    }
    false
}

/// Lists every candidate split of the roster `0..len`, exactly as `splits`
/// describes them: the result is a function of `len` alone, so the balancing
/// search ranks a fixed candidate list in a fixed order.
pub fn candidate_splits(len: usize) -> (r: Vec<(Vec<usize>, Vec<usize>)>)
    ensures
        split_views(r@) == splits(len as int),
{
    let n: usize = if len == 0 {
        0
    } else {
        len - 1
    };
    let k: usize = len / 2;
    let subsets = combinations(n, k);
    proof {
        assert(combo_views(subsets@) == combos(len as int - 1, len as int / 2));
        lemma_combos_sound(len as int - 1, len as int / 2);
    }
    let ghost cs = combos(len as int - 1, len as int / 2);
    let mut r: Vec<(Vec<usize>, Vec<usize>)> = Vec::new();
    let mut i: usize = 0;
    while i < subsets.len()
        invariant
            cs == combos(len as int - 1, len as int / 2),
            combo_views(subsets@) == cs,
            forall|a: int| 0 <= a < cs.len() ==> is_combo(len as int - 1, len as int / 2, #[trigger] cs[a]),
            i <= subsets@.len(),
            r@.len() == i,
            forall|a: int| 0 <= a < i ==> #[trigger] split_views(r@)[a] == splits(len as int)[a],
        decreases subsets@.len() - i,
    {
        let c = &subsets[i];
        proof {
            assert(indices(c@) == combo_views(subsets@)[i as int]);
            assert(is_combo(len as int - 1, len as int / 2, indices(c@)));
        }
        let mut team2: Vec<usize> = Vec::new();
        let mut j: usize = 0;
        while j < c.len()
            invariant
                is_combo(len as int - 1, len as int / 2, indices(c@)),
                j <= c@.len(),
                team2@.len() == j,
                forall|a: int| 0 <= a < j ==> #[trigger] team2@[a] == c@[a] + 1,
            decreases c@.len() - j,
        {
            let x: usize = c[j];
            proof {
                assert(indices(c@)[j as int] == x as int);
                assert((x as int) < (len as int) - 1);
            }
            team2.push(x + 1);
            j = j + 1;
        }
        proof {
            assert(indices(team2@) =~= shift_up(indices(c@)));
        }
        let mut team1: Vec<usize> = Vec::new();
        let mut x: usize = 0;
        while x < len
            invariant
                x <= len,
                indices(team1@) == range_complement(x as int, indices(team2@)),
            decreases len - x,
        {
            let ghost t1_0 = indices(team1@);
            if !contains_val(&team2, x) {
                team1.push(x);
                proof {
                    assert(indices(team1@) =~= t1_0.push(x as int));
                }
            }
            x = x + 1;
            proof {
                lemma_indices_contains(team2@, (x - 1) as usize);
                assert(indices(team1@) == range_complement(x as int, indices(team2@)));
            }
        }
        let ghost r0 = r@;
        r.push((team1, team2));
        i = i + 1;
        proof {
            assert forall|a: int| 0 <= a < r0.len() implies #[trigger] split_views(r@)[a]
                == split_views(r0)[a] by {
                assert(r@[a] == r0[a]);
            }
            assert(split_views(r@)[i - 1] == (indices(team1@), indices(team2@)));
            assert(cs.len() == subsets@.len());
            assert(splits(len as int).len() == cs.len());
            assert(splits(len as int)[i - 1] == (
                range_complement(len as int, shift_up(cs[i - 1])),
                shift_up(cs[i - 1]),
            ));
        }
    }
    proof {
        assert(split_views(r@) =~= splits(len as int)) by {
            assert(splits(len as int).len() == cs.len());
        }
    }
    r
}

/// Index of the first score that is strictly greater than every earlier one
/// and at least every later one, the way the balancing search keeps its best
/// candidate; `None` exactly when every score is zero.  The result is a
/// function of the scores alone.
pub fn pick_best(scores: &Vec<u64>) -> (r: Option<usize>)
    ensures
        match r {
            Some(i) => {
                &&& i < scores@.len()
                &&& scores@[i as int] > 0
                &&& (forall|a: int|
                    0 <= a < scores@.len() ==> #[trigger] scores@[a] <= scores@[i as int])
                &&& (forall|a: int| 0 <= a < i ==> #[trigger] scores@[a] < scores@[i as int])
            },
            None => forall|a: int| 0 <= a < scores@.len() ==> #[trigger] scores@[a] == 0,
        },
{
    let mut best: u64 = 0;
    let mut best_idx: Option<usize> = None;
    let mut i: usize = 0;
    while i < scores.len()
        invariant
            i <= scores@.len(),
            match best_idx {
                Some(b) => {
                    &&& b < i
                    &&& scores@[b as int] == best
                    &&& best > 0
                    &&& (forall|a: int| 0 <= a < i ==> #[trigger] scores@[a] <= best)
                    &&& (forall|a: int| 0 <= a < b ==> #[trigger] scores@[a] < best)
                },
                None => best == 0 && (forall|a: int| 0 <= a < i ==> #[trigger] scores@[a] == 0),
            },
        decreases scores@.len() - i,
    {
        if scores[i] > best {
            best = scores[i];
            best_idx = Some(i);
        }
        i = i + 1;
    }
    best_idx
}

} // verus!
