//! Wildcard matching of file names: `*` stands for any run of characters,
//! `?` for exactly one, every other pattern character for itself, with ASCII
//! letters compared without regard to case.

use vstd::prelude::*;
use crate::text::{ascii_lower, chars_of, to_ascii_lower};

verus! {

/// Whether the whole of `name` matches the whole of `pat`, case-sensitively.
pub open spec fn glob_matches(name: Seq<char>, pat: Seq<char>) -> bool
    decreases pat.len(), name.len(),
{
    if pat.len() == 0 {
        name.len() == 0
    } else if pat[0] == '*' {
        glob_matches(name, pat.skip(1)) || (name.len() > 0 && glob_matches(name.skip(1), pat))
    } else {
        name.len() > 0 && (pat[0] == '?' || pat[0] == name[0]) && glob_matches(
            name.skip(1),
            pat.skip(1),
        )
    }
}

/// `s` with its ASCII capitals turned into small letters.
pub open spec fn lowered(s: Seq<char>) -> Seq<char> {
    Seq::new(s.len(), |i: int| ascii_lower(s[i]))
}

/// Whether `name` matches `pat` when ASCII case is ignored.
pub open spec fn glob_matches_ci(name: Seq<char>, pat: Seq<char>) -> bool {
    glob_matches(lowered(name), lowered(pat))
}

/// Whether `pat` holds no wildcard.
pub open spec fn is_literal(pat: Seq<char>) -> bool {
    forall|i: int| 0 <= i < pat.len() ==> pat[i] != '*' && pat[i] != '?'
}

/// Whether the rest of the name from `i` on matches the rest of the pattern
/// from `j` on.
pub open spec fn rest_matches(n: Seq<char>, p: Seq<char>, i: int, j: int) -> bool {
    glob_matches(n.skip(i), p.skip(j))
}

/// Whether the rest of the pattern from `j` on matches the rest of the name
/// from some position at or after `lo`.
pub open spec fn matches_from_some(n: Seq<char>, p: Seq<char>, lo: int, j: int) -> bool {
    exists|k: int| lo <= k <= n.len() && #[trigger] rest_matches(n, p, k, j)
}

/// One step of the definition, in terms of positions.
proof fn lemma_unfold(n: Seq<char>, p: Seq<char>, i: int, j: int)
    requires
        0 <= i <= n.len(),
        0 <= j <= p.len(),
    ensures
        j == p.len() ==> (rest_matches(n, p, i, j) <==> i == n.len()),
        j < p.len() && p[j] == '*' ==> (rest_matches(n, p, i, j) <==> (rest_matches(n, p, i, j + 1)
            || (i < n.len() && rest_matches(n, p, i + 1, j)))),
        j < p.len() && p[j] != '*' ==> (rest_matches(n, p, i, j) <==> (i < n.len() && (p[j] == '?'
            || p[j] == n[i]) && rest_matches(n, p, i + 1, j + 1))),
{
    if j < p.len() {
        assert(p.skip(j).skip(1) =~= p.skip(j + 1));
    }
    if i < n.len() {
        assert(n.skip(i).skip(1) =~= n.skip(i + 1));
    }
}

/// A stretch of the pattern without `*` takes exactly as many characters of
/// the name as it is long.
proof fn lemma_segment(n: Seq<char>, p: Seq<char>, k: int, a: int, b: int)
    requires
        0 <= k <= n.len(),
        0 <= a <= b <= p.len(),
        forall|t: int| a <= t < b ==> p[t] != '*',
        rest_matches(n, p, k, a),
    ensures
        k + (b - a) <= n.len(),
        rest_matches(n, p, k + (b - a), b),
    decreases b - a,
{
    if a < b {
        lemma_unfold(n, p, k, a);
        lemma_segment(n, p, k + 1, a + 1, b);
    }
}

/// A `*` at `j` matches from `i` exactly when the pattern after it matches
/// from some position at or after `i`.
proof fn lemma_star(n: Seq<char>, p: Seq<char>, i: int, j: int)
    requires
        0 <= i <= n.len(),
        0 <= j < p.len(),
        p[j] == '*',
    ensures
        rest_matches(n, p, i, j) <==> matches_from_some(n, p, i, j + 1),
    decreases n.len() - i,
{
    lemma_unfold(n, p, i, j);
    if i < n.len() {
        lemma_star(n, p, i + 1, j);
        if matches_from_some(n, p, i + 1, j + 1) {
            let k = choose|k: int| i + 1 <= k <= n.len() && #[trigger] rest_matches(n, p, k, j + 1);
            assert(i <= k <= n.len() && rest_matches(n, p, k, j + 1));
        }
        if matches_from_some(n, p, i, j + 1) {
            let k = choose|k: int| i <= k <= n.len() && #[trigger] rest_matches(n, p, k, j + 1);
            if k > i {
                assert(i + 1 <= k <= n.len() && rest_matches(n, p, k, j + 1));
            }
        }
    } else {
        if matches_from_some(n, p, i, j + 1) {
            let k = choose|k: int| i <= k <= n.len() && #[trigger] rest_matches(n, p, k, j + 1);
            assert(k == i);
        }
        if rest_matches(n, p, i, j + 1) {
            assert(i <= i <= n.len() && rest_matches(n, p, i, j + 1));
        }
    }
}

/// When a second `*` is reached at `j`, with `i` characters read, the
/// question whether the pattern after the first `*` matches from some
/// position becomes the same question for the second.
proof fn lemma_next_star(n: Seq<char>, p: Seq<char>, si: int, sj: int, i: int, j: int)
    requires
        0 <= si <= i <= n.len(),
        0 <= sj < j < p.len(),
        p[j] == '*',
        i - si == j - sj - 1,
        forall|t: int| sj < t < j ==> p[t] != '*',
        rest_matches(n, p, si, sj + 1) <==> rest_matches(n, p, i, j),
    ensures
        matches_from_some(n, p, si, sj + 1) <==> matches_from_some(n, p, i, j + 1),
{
    lemma_star(n, p, i, j);
    if matches_from_some(n, p, si, sj + 1) {
        let k = choose|k: int| si <= k <= n.len() && #[trigger] rest_matches(n, p, k, sj + 1);
        lemma_segment(n, p, k, sj + 1, j);
        let k2 = k + (j - sj - 1);
        lemma_star(n, p, k2, j);
        let k3 = choose|k3: int| k2 <= k3 <= n.len() && #[trigger] rest_matches(n, p, k3, j + 1);
        assert(i <= k3 <= n.len() && rest_matches(n, p, k3, j + 1));
    }
    if matches_from_some(n, p, i, j + 1) {
        assert(rest_matches(n, p, si, sj + 1));
        assert(si <= si <= n.len() && rest_matches(n, p, si, sj + 1));
    }
}

/// Once the attempt that lets the `*` end at `si` has failed, only later
/// positions are left.
proof fn lemma_retry(n: Seq<char>, p: Seq<char>, si: int, j: int)
    requires
        0 <= si < n.len(),
        0 <= j <= p.len(),
        !rest_matches(n, p, si, j),
    ensures
        matches_from_some(n, p, si, j) <==> matches_from_some(n, p, si + 1, j),
{
    if matches_from_some(n, p, si, j) {
        let k = choose|k: int| si <= k <= n.len() && #[trigger] rest_matches(n, p, k, j);
        assert(si + 1 <= k <= n.len() && rest_matches(n, p, k, j));
    }
    if matches_from_some(n, p, si + 1, j) {
        let k = choose|k: int| si + 1 <= k <= n.len() && #[trigger] rest_matches(n, p, k, j);
        assert(si <= k <= n.len() && rest_matches(n, p, k, j));
    }
}

/// At the end of the name, the attempt in progress is the only one whose
/// stretch after the `*` still fits.
proof fn lemma_last_attempt(n: Seq<char>, p: Seq<char>, si: int, sj: int, j: int)
    requires
        0 <= si <= n.len(),
        0 <= sj < j <= p.len(),
        n.len() - si == j - sj - 1,
        forall|t: int| sj < t < j ==> p[t] != '*',
    ensures
        matches_from_some(n, p, si, sj + 1) <==> rest_matches(n, p, si, sj + 1),
{
    if matches_from_some(n, p, si, sj + 1) {
        let k = choose|k: int| si <= k <= n.len() && #[trigger] rest_matches(n, p, k, sj + 1);
        lemma_segment(n, p, k, sj + 1, j);
        assert(k == si);
    }
    if rest_matches(n, p, si, sj + 1) {
        assert(si <= si <= n.len() && rest_matches(n, p, si, sj + 1));
    }
}

/// Matches `n` against `p` as they stand, by one pass with backtracking to
/// the last `*`.
pub fn glob_match(n: &Vec<char>, p: &Vec<char>) -> (r: bool)
    ensures
        r == glob_matches(n@, p@),
{
    let mut i: usize = 0;
    let mut j: usize = 0;
    let mut has_star: bool = false;
    let mut star_i: usize = 0;
    let mut star_j: usize = 0;
    proof {
        assert(n@.skip(0) =~= n@);
        assert(p@.skip(0) =~= p@);
    }
    while i < n.len()
        invariant
            i <= n.len(),
            j <= p.len(),
            !has_star ==> (glob_matches(n@, p@) <==> rest_matches(n@, p@, i as int, j as int)),
            has_star ==> {
                &&& star_j < j
                &&& p@[star_j as int] == '*'
                &&& star_i <= i
                &&& i - star_i == j - star_j - 1
                &&& forall|t: int| star_j < t < j ==> p@[t] != '*'
                &&& (glob_matches(n@, p@) <==> matches_from_some(
                    n@,
                    p@,
                    star_i as int,
                    star_j + 1,
                ))
                &&& (rest_matches(n@, p@, star_i as int, star_j + 1) <==> rest_matches(
                    n@,
                    p@,
                    i as int,
                    j as int,
                ))
            },
        decreases
                (if has_star {
                    n.len() - star_i
                } else {
                    n.len() + 1
                }),
                n.len() - i,
                p.len() - j,
    {
        proof {
            lemma_unfold(n@, p@, i as int, j as int);
        }
        if j < p.len() && p[j] == '*' {
            proof {
                if has_star {
                    lemma_next_star(n@, p@, star_i as int, star_j as int, i as int, j as int);
                } else {
                    lemma_star(n@, p@, i as int, j as int);
                }
            }
            has_star = true;
            star_i = i;
            star_j = j;
            j += 1;
        } else if j < p.len() && (p[j] == '?' || p[j] == n[i]) {
            i += 1;
            j += 1;
        } else if has_star {
            proof {
                lemma_retry(n@, p@, star_i as int, star_j + 1);
            }
            star_i += 1;
            i = star_i;
            j = star_j + 1;
        } else {
            return false;
        }
    }
    let ghost j0 = j;
    while j < p.len() && p[j] == '*'
        invariant
            i == n.len(),
            j0 <= j <= p.len(),
            rest_matches(n@, p@, i as int, j0 as int) <==> rest_matches(n@, p@, i as int, j as int),
        decreases p.len() - j,
    {
        proof {
            lemma_unfold(n@, p@, i as int, j as int);
        }
        j += 1;
    }
    proof {
        lemma_unfold(n@, p@, i as int, j as int);
        if has_star {
            lemma_last_attempt(n@, p@, star_i as int, star_j as int, j0 as int);
        }
    }
    j == p.len()
}

/// A copy of `s` with its ASCII capitals turned into small letters.
fn lowered_chars(s: &Vec<char>) -> (out: Vec<char>)
    ensures
        out@ == lowered(s@),
{
    let mut out: Vec<char> = Vec::new();
    let mut i: usize = 0;
    while i < s.len()
        invariant
            i <= s.len(),
            out@ == lowered(s@).take(i as int),
        decreases s.len() - i,
    {
        out.push(to_ascii_lower(s[i]));
        i += 1;
        assert(lowered(s@).take(i as int) == lowered(s@).take(i as int - 1).push(
            lowered(s@)[i as int - 1],
        ));
    }
    assert(lowered(s@).take(s.len() as int) == lowered(s@));
    out
}

/// Whether the file name `name` matches the pattern `pat`, ASCII case
/// ignored.
pub fn glob_match_ci(name: &str, pat: &str) -> (r: bool)
    ensures
        r == glob_matches_ci(name@, pat@),
{
    let n = lowered_chars(&chars_of(name));
    let p = lowered_chars(&chars_of(pat));
    glob_match(&n, &p)
}

/// Whether `pat` holds no wildcard, so that it can match one name only.
pub fn is_literal_pattern(pat: &str) -> (r: bool)
    ensures
        r == is_literal(pat@),
{
    let p = chars_of(pat);
    let mut i: usize = 0;
    while i < p.len()
        invariant
            i <= p.len(),
            p@ == pat@,
            forall|t: int| 0 <= t < i ==> p@[t] != '*' && p@[t] != '?',
        decreases p.len() - i,
    {
        if p[i] == '*' || p[i] == '?' {
            assert(pat@[i as int] == '*' || pat@[i as int] == '?');
            return false;
        }
        i += 1;
    }
    true
}

/// The pattern `*` matches every name.
pub proof fn lemma_star_matches_all(name: Seq<char>)
    ensures
        glob_matches_ci(name, seq!['*']),
{
    let n = lowered(name);
    let p = lowered(seq!['*']);
    assert(p =~= seq!['*']);
    lemma_star_alone(n);
}

/// Case-sensitively too, the pattern `*` matches every name.
pub proof fn lemma_star_alone(n: Seq<char>)
    ensures
        glob_matches(n, seq!['*']),
    decreases n.len(),
{
    let p = seq!['*'];
    if n.len() == 0 {
        assert(p.skip(1) =~= Seq::<char>::empty());
        assert(glob_matches(n, p.skip(1)));
    } else {
        lemma_star_alone(n.skip(1));
    }
}

/// The empty pattern matches the empty name and no other.
pub proof fn lemma_empty_pattern(name: Seq<char>)
    ensures
        glob_matches_ci(name, Seq::<char>::empty()) <==> name.len() == 0,
{
    assert(lowered(Seq::<char>::empty()) =~= Seq::<char>::empty());
}

/// Matching ignores ASCII case on both sides: a name and a pattern match
/// exactly when their lowered forms do.
pub proof fn lemma_case_is_ignored(name: Seq<char>, pat: Seq<char>)
    ensures
        glob_matches_ci(name, pat) == glob_matches_ci(lowered(name), lowered(pat)),
{
    assert(lowered(lowered(name)) =~= lowered(name));
    assert(lowered(lowered(pat)) =~= lowered(pat));
}

} // verus!
