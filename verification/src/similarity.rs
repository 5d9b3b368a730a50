//! The similarity metric: normalized Levenshtein edit distance with a fixed
//! acceptance threshold.
//!
//! The metric of the design is `1 - d / max(|a|, |b|)` where `d` is the
//! Levenshtein distance, with the similarity of two empty strings defined as
//! `1`; two strings are similar when the metric strictly exceeds `6/10`.
//! Everything here is stated in exact integer arithmetic: the metric exceeds
//! `6/10` exactly when `5 * d < 2 * max(|a|, |b|)`.

use vstd::prelude::*;

verus! {

/// Minimum of three integers.
pub open spec fn min3(x: int, y: int, z: int) -> int {
    if x <= y && x <= z {
        x
    } else if y <= z {
        y
    } else {
        z
    }
}

/// Levenshtein distance between the length-`i` prefix of `a` and the
/// length-`j` prefix of `b`: the least number of single-character
/// insertions, deletions and substitutions turning one into the other.
pub open spec fn prefix_distance(a: Seq<char>, b: Seq<char>, i: nat, j: nat) -> int
    decreases i + j,
{
    if i == 0 {
        j as int
    } else if j == 0 {
        i as int
    } else {
        let sub_cost: int = if a[i - 1] == b[j - 1] {
            0
        } else {
            1
        };
        min3(
            prefix_distance(a, b, (i - 1) as nat, j) + 1,
            prefix_distance(a, b, i, (j - 1) as nat) + 1,
            prefix_distance(a, b, (i - 1) as nat, (j - 1) as nat) + sub_cost,
        )
    }
}

/// Levenshtein distance between `a` and `b`.
pub open spec fn edit_distance(a: Seq<char>, b: Seq<char>) -> int {
    prefix_distance(a, b, a.len(), b.len())
}

/// The similarity test: `1 - d / max(|a|, |b|) > 6/10`, that is,
/// `5 * d < 2 * max(|a|, |b|)`; two empty strings are fully similar.
pub open spec fn similar_spec(a: Seq<char>, b: Seq<char>) -> bool {
    if a.len() == 0 && b.len() == 0 {
        true
    } else {
        5 * edit_distance(a, b) < 2 * vstd::math::max(a.len() as int, b.len() as int)
    }
}

/// The distance between prefixes of lengths `i` and `j` is at least 0 and
/// at most `i + j`.
proof fn lemma_prefix_distance_bounds(a: Seq<char>, b: Seq<char>, i: nat, j: nat)
    ensures
        0 <= prefix_distance(a, b, i, j) <= i + j,
    decreases i + j,
{
    if i == 0 || j == 0 {
    } else {
        lemma_prefix_distance_bounds(a, b, (i - 1) as nat, j);
        lemma_prefix_distance_bounds(a, b, i, (j - 1) as nat);
        lemma_prefix_distance_bounds(a, b, (i - 1) as nat, (j - 1) as nat);
    }
}

/// A string is at distance 0 from itself.
proof fn lemma_prefix_distance_diag(s: Seq<char>, i: nat)
    requires
        i <= s.len(),
    ensures
        prefix_distance(s, s, i, i) == 0,
    decreases i,
{
    if i == 0 {
    } else {
        lemma_prefix_distance_diag(s, (i - 1) as nat);
        lemma_prefix_distance_bounds(s, s, (i - 1) as nat, i);
        lemma_prefix_distance_bounds(s, s, i, (i - 1) as nat);
    }
}

/// The distance is symmetric in its two arguments.
proof fn lemma_prefix_distance_symmetric(a: Seq<char>, b: Seq<char>, i: nat, j: nat)
    ensures
        prefix_distance(a, b, i, j) == prefix_distance(b, a, j, i),
    decreases i + j,
{
    if i == 0 || j == 0 {
    } else {
        lemma_prefix_distance_symmetric(a, b, (i - 1) as nat, j);
        lemma_prefix_distance_symmetric(a, b, i, (j - 1) as nat);
        lemma_prefix_distance_symmetric(a, b, (i - 1) as nat, (j - 1) as nat);
    }
}

/// Law: every string is fully similar to itself (the metric is `1` there,
/// and in particular two empty strings are fully similar), and the edit
/// distance of a string to itself is 0.
pub proof fn lemma_similarity_reflexive(s: Seq<char>)
    ensures
        edit_distance(s, s) == 0,
        similar_spec(s, s),
{
    lemma_prefix_distance_diag(s, s.len());
}

/// Law: the metric is symmetric, both as a distance and as the similarity
/// test.
pub proof fn lemma_similarity_symmetric(a: Seq<char>, b: Seq<char>)
    ensures
        edit_distance(a, b) == edit_distance(b, a),
        similar_spec(a, b) == similar_spec(b, a),
{
    lemma_prefix_distance_symmetric(a, b, a.len(), b.len());
}

/// The characters of `s`, in order, as a vector.
fn chars_vec(s: &str) -> (v: Vec<char>)
    ensures
        v@ == s@,
{
    let n = s.unicode_len();
    let mut v: Vec<char> = Vec::new();
    let mut i: usize = 0;
    while i < n
        invariant
            n == s@.len(),
            i <= n,
            v@ == s@.subrange(0, i as int),
        decreases n - i,
    {
        v.push(s.get_char(i));
        i += 1;
        proof {
            assert(v@ =~= s@.subrange(0, i as int));
        }
    }
    proof {
        assert(s@.subrange(0, n as int) =~= s@);
    }
    v
}

/// Levenshtein distance between the two character vectors, computed row by
/// row over the prefix-distance table.
fn levenshtein_vecs(a: &Vec<char>, b: &Vec<char>) -> (d: u128)
    ensures
        d as int == edit_distance(a@, b@),
{
    let n = b.len();
    let mut row: Vec<u128> = Vec::new();
    let mut j: usize = 0;
    while j < n
        invariant
            n == b@.len(),
            j <= n,
            row@.len() == j,
            forall|p: int|
                0 <= p < j ==> row@[p] as int == prefix_distance(a@, b@, 0, (p + 1) as nat),
        decreases n - j,
    {
        row.push((j as u128) + 1);
        j += 1;
    }
    let mut i: usize = 0;
    while i < a.len()
        invariant
            n == b@.len(),
            i <= a@.len(),
            row@.len() == n,
            forall|p: int|
                0 <= p < n ==> row@[p] as int == prefix_distance(a@, b@, i as nat, (p + 1) as nat),
        decreases a@.len() - i,
    {
        let mut diag: u128 = i as u128;
        let mut left: u128 = (i as u128) + 1;
        let mut j2: usize = 0;
        while j2 < n
            invariant
                n == b@.len(),
                0 <= i < a@.len(),
                row@.len() == n,
                j2 <= n,
                diag as int == prefix_distance(a@, b@, i as nat, j2 as nat),
                left as int == prefix_distance(a@, b@, (i + 1) as nat, j2 as nat),
                forall|p: int|
                    j2 <= p < n ==> row@[p] as int == prefix_distance(
                        a@,
                        b@,
                        i as nat,
                        (p + 1) as nat,
                    ),
                forall|p: int|
                    0 <= p < j2 ==> row@[p] as int == prefix_distance(
                        a@,
                        b@,
                        (i + 1) as nat,
                        (p + 1) as nat,
                    ),
            decreases n - j2,
        {
            let up = row[j2];
            let cost: u128 = if a[i] == b[j2] {
                0
            } else {
                1
            };
            proof {
                lemma_prefix_distance_bounds(a@, b@, (i + 1) as nat, j2 as nat);
                lemma_prefix_distance_bounds(a@, b@, i as nat, (j2 + 1) as nat);
                lemma_prefix_distance_bounds(a@, b@, i as nat, j2 as nat);
            }
            let mut m: u128 = left + 1;
            if up + 1 < m {
                m = up + 1;
            }
            if diag + cost < m {
                m = diag + cost;
            }
            proof {
                assert(m as int == prefix_distance(a@, b@, (i + 1) as nat, (j2 + 1) as nat));
            }
            row.set(j2, m);
            diag = up;
            left = m;
            j2 += 1;
        }
        i += 1;
    }
    if n == 0 {
        a.len() as u128
    } else {
        row[n - 1]
    }
}

/// Levenshtein distance between `a` and `b`.
pub fn levenshtein(a: &str, b: &str) -> (d: u128)
    ensures
        d as int == edit_distance(a@, b@),
{
    let av = chars_vec(a);
    let bv = chars_vec(b);
    levenshtein_vecs(&av, &bv)
}

/// Whether the similarity of the two strings strictly exceeds the fixed
/// threshold of `6/10`.
pub fn is_similar(content1: &str, content2: &str) -> (r: bool)
    ensures
        r == similar_spec(content1@, content2@),
{
    let la = content1.unicode_len();
    let lb = content2.unicode_len();
    if la == 0 && lb == 0 {
        true
    } else {
        let d = levenshtein(content1, content2);
        let m: u128 = if la < lb {
            lb as u128
        } else {
            la as u128
        };
        proof {
            lemma_prefix_distance_bounds(content1@, content2@, content1@.len(), content2@.len());
        }
        5 * d < 2 * m
    }
}

} // verus!
