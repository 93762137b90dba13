//! Typo suggestions: edit distance and nearest-candidate search.
use vstd::prelude::*;
use crate::text::chars_of;
use crate::value::strings_model;

verus! {

pub open spec fn min3(x: nat, y: nat, z: nat) -> nat {
    if x <= y && x <= z {
        x
    } else if y <= z {
        y
    } else {
        z
    }
}

/// The Levenshtein distance: the least number of single-character
/// insertions, deletions and substitutions that turn `a` into `b`.
pub open spec fn edit_distance(a: Seq<char>, b: Seq<char>) -> nat
    decreases a.len() + b.len(),
{
    if a.len() == 0 {
        b.len()
    } else if b.len() == 0 {
        a.len()
    } else {
        min3(
            edit_distance(a.drop_last(), b) + 1,
            edit_distance(a, b.drop_last()) + 1,
            edit_distance(a.drop_last(), b.drop_last()) + (if a.last() == b.last() {
                0nat
            } else {
                1nat
            }),
        )
    }
}

pub proof fn lemma_edit_distance_bound(a: Seq<char>, b: Seq<char>)
    ensures
        edit_distance(a, b) <= if a.len() >= b.len() {
            a.len()
        } else {
            b.len()
        },
    decreases a.len() + b.len(),
{
    if a.len() > 0 && b.len() > 0 {
        lemma_edit_distance_bound(a.drop_last(), b.drop_last());
    }
}

/// A string is at distance zero from itself.
pub proof fn lemma_edit_distance_self(a: Seq<char>)
    ensures
        edit_distance(a, a) == 0,
    decreases a.len(),
{
    if a.len() > 0 {
        lemma_edit_distance_self(a.drop_last());
    }
}

/// The distance is symmetric.
pub proof fn lemma_edit_distance_symmetric(a: Seq<char>, b: Seq<char>)
    ensures
        edit_distance(a, b) == edit_distance(b, a),
    decreases a.len() + b.len(),
{
    if a.len() > 0 && b.len() > 0 {
        lemma_edit_distance_symmetric(a.drop_last(), b);
        lemma_edit_distance_symmetric(a, b.drop_last());
        lemma_edit_distance_symmetric(a.drop_last(), b.drop_last());
    }
}

/// Distance zero means equal strings.
pub proof fn lemma_edit_distance_zero(a: Seq<char>, b: Seq<char>)
    ensures
        edit_distance(a, b) == 0 <==> a == b,
    decreases a.len() + b.len(),
{
    if a == b {
        lemma_edit_distance_self(a);
    } else if a.len() > 0 && b.len() > 0 {
        lemma_edit_distance_zero(a.drop_last(), b.drop_last());
        if edit_distance(a, b) == 0 {
            assert(a.drop_last() == b.drop_last());
            assert(a =~= a.drop_last().push(a.last()));
            assert(b =~= b.drop_last().push(b.last()));
            assert(a.last() == b.last());
            assert(a =~= b);
        }
    } else if a.len() == 0 && b.len() == 0 {
        assert(a =~= b);
    }
}

/// The distance is at least the difference of the lengths.
pub proof fn lemma_edit_distance_lower_bound(a: Seq<char>, b: Seq<char>)
    ensures
        edit_distance(a, b) >= a.len() - b.len(),
        edit_distance(a, b) >= b.len() - a.len(),
    decreases a.len() + b.len(),
{
    if a.len() > 0 && b.len() > 0 {
        lemma_edit_distance_lower_bound(a.drop_last(), b);
        lemma_edit_distance_lower_bound(a, b.drop_last());
        lemma_edit_distance_lower_bound(a.drop_last(), b.drop_last());
    }
}

/// The triangle inequality: going from `a` to `c` by way of `b` takes no
/// fewer edits than going there directly.
pub proof fn lemma_edit_distance_triangle(a: Seq<char>, b: Seq<char>, c: Seq<char>)
    ensures
        edit_distance(a, c) <= edit_distance(a, b) + edit_distance(b, c),
    decreases a.len() + b.len() + c.len(),
{
    if a.len() == 0 {
        lemma_edit_distance_lower_bound(b, c);
    } else if c.len() == 0 {
        lemma_edit_distance_lower_bound(a, b);
    } else if b.len() == 0 {
        lemma_edit_distance_bound(a, c);
    } else {
        let a1 = a.drop_last();
        let b1 = b.drop_last();
        let c1 = c.drop_last();
        let ab = edit_distance(a, b);
        let bc = edit_distance(b, c);
        if ab == edit_distance(a1, b) + 1 {
            lemma_edit_distance_triangle(a1, b, c);
        } else if bc == edit_distance(b, c1) + 1 {
            lemma_edit_distance_triangle(a, b, c1);
        } else if ab == edit_distance(a, b1) + 1 {
            if bc == edit_distance(b1, c) + 1 {
                lemma_edit_distance_triangle(a, b1, c);
            } else {
                lemma_edit_distance_triangle(a, b1, c1);
            }
        } else {
            if bc == edit_distance(b1, c) + 1 {
                lemma_edit_distance_triangle(a1, b1, c);
            } else {
                lemma_edit_distance_triangle(a1, b1, c1);
            }
        }
    }
}

/// `x + d`, or `usize::MAX` when that does not fit.
fn sat_inc(x: usize, d: usize) -> (r: usize)
    requires
        d <= 1,
    ensures
        r == if x + d <= usize::MAX {
            x + d
        } else {
            usize::MAX as int
        },
{
    if x == usize::MAX {
        x
    } else {
        x + d
    }
}

/// Calculate the Levenshtein distance between two strings.
pub fn levenshtein(a: &str, b: &str) -> (d: usize)
    ensures
        d == edit_distance(a@, b@),
{
    let ca = chars_of(a);
    let cb = chars_of(b);
    let len_a = ca.len();
    let len_b = cb.len();
    if len_a == 0 {
        return len_b;
    }
    if len_b == 0 {
        return len_a;
    }
    let ghost sa = a@;
    let ghost sb = b@;
    // prev[j] holds the distance between the first i characters of `a` and
    // the first j characters of `b`.
    let mut prev: Vec<usize> = Vec::new();
    prev.push(0);
    assert(sa.take(0).len() == 0 && sb.take(0).len() == 0);
    let mut j: usize = 0;
    while j < len_b
        invariant
            len_b == sb.len(),
            0 <= j <= len_b,
            prev@.len() == j + 1,
            forall|k: int| 0 <= k <= j ==> #[trigger] prev@[k] == edit_distance(sa.take(0), sb.take(k)),
        decreases len_b - j,
    {
        assert(sa.take(0).len() == 0);
        prev.push(j + 1);
        j = j + 1;
    }
    let mut i: usize = 0;
    while i < len_a
        invariant
            len_a == sa.len(),
            len_b == sb.len(),
            ca@ == sa,
            cb@ == sb,
            0 <= i <= len_a,
            prev@.len() == len_b + 1,
            forall|k: int|
                0 <= k <= len_b ==> #[trigger] prev@[k] == edit_distance(sa.take(i as int), sb.take(k)),
        decreases len_a - i,
    {
        let mut cur: Vec<usize> = Vec::new();
        proof {
            assert(sb.take(0).len() == 0);
            assert(sa.take(i + 1).len() == i + 1);
        }
        cur.push(i + 1);
        let mut j: usize = 0;
        while j < len_b
            invariant
                len_a == sa.len(),
                len_b == sb.len(),
                ca@ == sa,
                cb@ == sb,
                0 <= i < len_a,
                0 <= j <= len_b,
                prev@.len() == len_b + 1,
                cur@.len() == j + 1,
                forall|k: int|
                    0 <= k <= len_b ==> #[trigger] prev@[k] == edit_distance(
                        sa.take(i as int),
                        sb.take(k),
                    ),
                forall|k: int|
                    0 <= k <= j ==> #[trigger] cur@[k] == edit_distance(
                        sa.take(i + 1),
                        sb.take(k),
                    ),
            decreases len_b - j,
        {
            let cost: usize = if ca[i] == cb[j] { 0 } else { 1 };
            proof {
                let x = sa.take(i + 1);
                let y = sb.take(j + 1);
                assert(x.drop_last() =~= sa.take(i as int));
                assert(y.drop_last() =~= sb.take(j as int));
                assert(x.last() == sa[i as int]);
                assert(y.last() == sb[j as int]);
                lemma_edit_distance_bound(sa.take(i as int), sb.take(j + 1));
                lemma_edit_distance_bound(x, sb.take(j as int));
                lemma_edit_distance_bound(sa.take(i as int), sb.take(j as int));
            }
            let del = sat_inc(prev[j + 1], 1);
            let ins = sat_inc(cur[j], 1);
            let sub = sat_inc(prev[j], cost);
            let best = if del <= ins && del <= sub {
                del
            } else if ins <= sub {
                ins
            } else {
                sub
            };
            cur.push(best);
            j = j + 1;
        }
        prev = cur;
        i = i + 1;
    }
    assert(sa.take(len_a as int) =~= sa);
    assert(sb.take(len_b as int) =~= sb);
    prev[len_b]
}

/// The distance from `target` to candidate `i`.
pub open spec fn dist_to(target: Seq<char>, cands: Seq<Seq<char>>, i: int) -> nat {
    edit_distance(target, cands[i])
}

/// Whether candidate `i` is the best match: within `max_dist`, nearest to
/// `target`, and the first among equally near ones.
pub open spec fn is_best_match(target: Seq<char>, cands: Seq<Seq<char>>, max_dist: nat, i: int) -> bool {
    &&& 0 <= i < cands.len()
    &&& dist_to(target, cands, i) <= max_dist
    &&& forall|j: int| 0 <= j < cands.len() ==> dist_to(target, cands, i) <= #[trigger] dist_to(target, cands, j)
    &&& forall|j: int| 0 <= j < i ==> dist_to(target, cands, i) < #[trigger] dist_to(target, cands, j)
}

/// The best match for `target` among `cands` within `max_dist`, if any.
pub open spec fn best_match(target: Seq<char>, cands: Seq<Seq<char>>, max_dist: nat) -> Option<Seq<char>> {
    if exists|i: int| is_best_match(target, cands, max_dist, i) {
        Some(cands[choose|i: int| is_best_match(target, cands, max_dist, i)])
    } else {
        None
    }
}

pub proof fn lemma_best_match_unique(target: Seq<char>, cands: Seq<Seq<char>>, max_dist: nat, i: int, j: int)
    requires
        is_best_match(target, cands, max_dist, i),
        is_best_match(target, cands, max_dist, j),
    ensures
        i == j,
{
    if i < j {
        assert(dist_to(target, cands, j) < dist_to(target, cands, i));
    } else if j < i {
        assert(dist_to(target, cands, i) < dist_to(target, cands, j));
    }
}

/// Find the best match for `target` in `candidates` within `max_dist`.
pub fn find_best_match(target: &str, candidates: &[String], max_dist: usize) -> (r: Option<String>)
    ensures
        match best_match(target@, strings_model(candidates@), max_dist as nat) {
            Some(s) => r matches Some(x) && x@ == s,
            None => r is None,
        },
{
    let ghost cands = strings_model(candidates@);
    let mut best_dist: usize = max_dist;
    let mut best_idx: Option<usize> = None;
    let mut k: usize = 0;
    while k < candidates.len()
        invariant
            cands == strings_model(candidates@),
            0 <= k <= candidates@.len(),
            best_dist <= max_dist,
            best_idx is None ==> forall|j: int| 0 <= j < k ==> #[trigger] dist_to(target@, cands, j) > max_dist,
            best_idx matches Some(b) ==> {
                &&& b < k
                &&& dist_to(target@, cands, b as int) == best_dist
                &&& forall|j: int| 0 <= j < k ==> best_dist <= #[trigger] dist_to(target@, cands, j)
                &&& forall|j: int| 0 <= j < b ==> best_dist < #[trigger] dist_to(target@, cands, j)
            },
        decreases candidates@.len() - k,
    {
        let dist = levenshtein(target, candidates[k].as_str());
        assert(dist == dist_to(target@, cands, k as int));
        let better = match best_idx {
            None => dist <= max_dist,
            Some(_) => dist < best_dist,
        };
        if better {
            best_dist = dist;
            best_idx = Some(k);
        }
        k = k + 1;
    }
    match best_idx {
        Some(b) => {
            assert(is_best_match(target@, cands, max_dist as nat, b as int));
            let ghost c = choose|i: int| is_best_match(target@, cands, max_dist as nat, i);
            proof {
                lemma_best_match_unique(target@, cands, max_dist as nat, b as int, c);
            }
            Some(candidates[b].clone())
        },
        None => {
            assert(!exists|i: int| is_best_match(target@, cands, max_dist as nat, i));
            None
        },
    }
}

} // verus!
