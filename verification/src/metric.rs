//! String distance functions and the interface a BK-tree expects of them.

use vstd::prelude::*;

verus! {

/// Why a distance between two strings could not be computed.
#[derive(Clone, Copy, Debug, PartialEq, Eq)]
pub enum MetricError {
    /// The two strings have different numbers of characters and the distance
    /// is only defined between strings of equal length.
    LengthMismatch,
}

/// The characters of `s`, in order.
pub fn chars_of(s: &str) -> (v: Vec<char>)
    ensures
        v@ == s@,
{
    let mut v: Vec<char> = Vec::new();
    for c in it: s.chars()
        invariant
            v@ == it.seq().take(it.index() as int),
            it.seq() == s@,
    {
        v.push(c);
    }
    v
}

/// A distance between strings, as a BK-tree needs it.
///
/// `comparable` says between which strings the distance is defined; it is an
/// equivalence. Among comparable strings `dist` is symmetric, zero from a
/// string to itself, and obeys the triangle inequality. A tree prunes its
/// searches by these laws, so an implementation has to prove them.
pub trait Metric {
    /// Whether the distance between `a` and `b` is defined.
    spec fn comparable(&self, a: Seq<char>, b: Seq<char>) -> bool;

    /// The distance between `a` and `b`; meaningful where they are comparable.
    spec fn dist(&self, a: Seq<char>, b: Seq<char>) -> nat;

    /// Being comparable is reflexive, symmetric and transitive.
    proof fn comparable_is_equivalence(&self, a: Seq<char>, b: Seq<char>, c: Seq<char>)
        ensures
            self.comparable(a, a),
            self.comparable(a, b) ==> self.comparable(b, a),
            self.comparable(a, b) && self.comparable(b, c) ==> self.comparable(a, c),
    ;

    /// A string is at distance zero from itself.
    proof fn dist_to_self(&self, a: Seq<char>)
        ensures
            self.dist(a, a) == 0,
    ;

    /// The distance does not depend on the order of its arguments.
    proof fn dist_symmetric(&self, a: Seq<char>, b: Seq<char>)
        requires
            self.comparable(a, b),
        ensures
            self.dist(a, b) == self.dist(b, a),
    ;

    /// Going through a third string is never shorter.
    proof fn dist_triangle(&self, a: Seq<char>, b: Seq<char>, c: Seq<char>)
        requires
            self.comparable(a, b),
            self.comparable(b, c),
        ensures
            self.dist(a, c) <= self.dist(a, b) + self.dist(b, c),
    ;

    /// Computes the distance, or reports why it is not defined.
    fn distance(&self, a: &str, b: &str) -> (r: Result<usize, MetricError>)
        ensures
            r is Ok <==> self.comparable(a@, b@),
            r matches Ok(d) ==> d == self.dist(a@, b@),
    ;
}

/// The smaller of `x` and `y`.
pub open spec fn min2(x: nat, y: nat) -> nat {
    if x <= y {
        x
    } else {
        y
    }
}

/// One if the two characters differ, zero if they are the same.
pub open spec fn differ(x: char, y: char) -> nat {
    if x == y {
        0
    } else {
        1
    }
}

/// The edit distance between `a` and `b`: the least number of single
/// characters to insert, delete or replace that turns `a` into `b`.
///
/// Turning `a` into the empty string deletes every character. Otherwise the
/// last step either deletes the last character of `a`, inserts the last
/// character of `b`, or lines the two last characters up, at a cost of one
/// where they differ. That this is the length of a shortest script of edits
/// is shown in `edits`.
pub open spec fn lev_dist(a: Seq<char>, b: Seq<char>) -> nat
    decreases a.len() + b.len(),
{
    if a.len() == 0 {
        b.len()
    } else if b.len() == 0 {
        a.len()
    } else {
        min2(
            min2(lev_dist(a.drop_last(), b) + 1, lev_dist(a, b.drop_last()) + 1),
            lev_dist(a.drop_last(), b.drop_last()) + differ(a.last(), b.last()),
        )
    }
}

/// The edit distance is at most the length of the longer string.
pub proof fn lemma_lev_upper_bound(a: Seq<char>, b: Seq<char>)
    ensures
        lev_dist(a, b) <= a.len() || lev_dist(a, b) <= b.len(),
        lev_dist(a, b) <= a.len() + b.len(),
    decreases a.len() + b.len(),
{
    if a.len() != 0 && b.len() != 0 {
        lemma_lev_upper_bound(a.drop_last(), b.drop_last());
    }
}

/// The edit distance is at least the difference of the two lengths.
pub proof fn lemma_lev_lower_bound(a: Seq<char>, b: Seq<char>)
    ensures
        a.len() <= b.len() + lev_dist(a, b),
        b.len() <= a.len() + lev_dist(a, b),
    decreases a.len() + b.len(),
{
    if a.len() != 0 && b.len() != 0 {
        lemma_lev_lower_bound(a.drop_last(), b);
        lemma_lev_lower_bound(a, b.drop_last());
        lemma_lev_lower_bound(a.drop_last(), b.drop_last());
    }
}

/// The edit distance from `a` to `b` equals that from `b` to `a`.
pub proof fn lemma_lev_symmetric(a: Seq<char>, b: Seq<char>)
    ensures
        lev_dist(a, b) == lev_dist(b, a),
    decreases a.len() + b.len(),
{
    if a.len() != 0 && b.len() != 0 {
        lemma_lev_symmetric(a.drop_last(), b);
        lemma_lev_symmetric(a, b.drop_last());
        lemma_lev_symmetric(a.drop_last(), b.drop_last());
    }
}

/// The edit distance is zero exactly between equal strings.
pub proof fn lemma_lev_zero_iff_equal(a: Seq<char>, b: Seq<char>)
    ensures
        lev_dist(a, b) == 0 <==> a == b,
    decreases a.len() + b.len(),
{
    if a.len() == 0 || b.len() == 0 {
        if a.len() == 0 && b.len() == 0 {
            assert(a =~= b);
        }
    } else {
        lemma_lev_zero_iff_equal(a.drop_last(), b.drop_last());
        if a == b {
            assert(a.drop_last() == b.drop_last());
        }
        if lev_dist(a, b) == 0 {
            assert(a.drop_last() == b.drop_last());
            assert(a.last() == b.last());
            assert(a =~= a.drop_last().push(a.last()));
            assert(b =~= b.drop_last().push(b.last()));
        }
    }
}

/// Editing `a` into `c` costs no more than editing it into `b` and `b` into `c`.
pub proof fn lemma_lev_triangle(a: Seq<char>, b: Seq<char>, c: Seq<char>)
    ensures
        lev_dist(a, c) <= lev_dist(a, b) + lev_dist(b, c),
    decreases a.len() + b.len() + c.len(),
{
    if a.len() == 0 {
        lemma_lev_lower_bound(b, c);
    } else if c.len() == 0 {
        lemma_lev_lower_bound(a, b);
    } else if b.len() == 0 {
        lemma_lev_upper_bound(a, c);
    } else {
        let a1 = a.drop_last();
        let b1 = b.drop_last();
        let c1 = c.drop_last();
        lemma_lev_triangle(a1, b, c);
        lemma_lev_triangle(a, b, c1);
        lemma_lev_triangle(a, b1, c);
        lemma_lev_triangle(a, b1, c1);
        lemma_lev_triangle(a1, b1, c);
        lemma_lev_triangle(a1, b1, c1);
    }
}

/// Unfolds the edit distance between two prefixes that each end in a character.
proof fn lemma_lev_step(a: Seq<char>, b: Seq<char>, i: int, j: int)
    requires
        0 <= i < a.len(),
        0 <= j < b.len(),
    ensures
        lev_dist(a.take(i + 1), b.take(j + 1)) == min2(
            min2(
                lev_dist(a.take(i), b.take(j + 1)) + 1,
                lev_dist(a.take(i + 1), b.take(j)) + 1,
            ),
            lev_dist(a.take(i), b.take(j)) + differ(a[i], b[j]),
        ),
{
    assert(a.take(i + 1).drop_last() =~= a.take(i));
    assert(b.take(j + 1).drop_last() =~= b.take(j));
}

/// The edit distance between `a` and `b`, counted in characters.
pub fn lev(a: &str, b: &str) -> (d: usize)
    ensures
        d == lev_dist(a@, b@),
{
    let x = chars_of(a);
    let y = chars_of(b);
    let n = x.len();
    let m = y.len();
    // prev[j] is the distance between the first i characters of a and the first j of b
    let mut prev: Vec<usize> = Vec::new();
    let mut j: usize = 0;
    while j < m
        invariant
            j <= m,
            m == y@.len(),
            prev@.len() == j,
            forall|t: int| 0 <= t < j ==> prev@[t] == lev_dist(x@.take(0), y@.take(t)),
        decreases m - j,
    {
        prev.push(j);
        j += 1;
    }
    prev.push(m);
    let mut i: usize = 0;
    while i < n
        invariant
            i <= n,
            n == x@.len(),
            m == y@.len(),
            prev@.len() == m + 1,
            forall|t: int| 0 <= t <= m ==> prev@[t] == lev_dist(x@.take(i as int), y@.take(t)),
        decreases n - i,
    {
        let mut cur: Vec<usize> = Vec::new();
        cur.push(i + 1);
        let mut j: usize = 0;
        while j < m
            invariant
                i < n,
                j <= m,
                n == x@.len(),
                m == y@.len(),
                prev@.len() == m + 1,
                cur@.len() == j + 1,
                forall|t: int| 0 <= t <= m ==> prev@[t] == lev_dist(x@.take(i as int), y@.take(t)),
                forall|t: int| 0 <= t <= j ==> cur@[t] == lev_dist(x@.take(i + 1), y@.take(t)),
            decreases m - j,
        {
            proof {
                lemma_lev_step(x@, y@, i as int, j as int);
                lemma_lev_upper_bound(x@.take(i as int), y@.take(j as int));
            }
            let mut best = if x[i] == y[j] {
                prev[j]
            } else {
                prev[j] + 1
            };
            if prev[j + 1] < best {
                best = prev[j + 1] + 1;
            }
            if cur[j] < best {
                best = cur[j] + 1;
            }
            cur.push(best);
            j += 1;
        }
        prev = cur;
        i += 1;
    }
    proof {
        assert(x@.take(n as int) =~= x@);
        assert(y@.take(m as int) =~= y@);
    }
    prev[m]
}

/// The edit distance as a tree's metric. Every two strings are comparable.
#[derive(Clone, Copy, Debug)]
pub struct Levenshtein;

impl Metric for Levenshtein {
    open spec fn comparable(&self, a: Seq<char>, b: Seq<char>) -> bool {
        true
    }

    open spec fn dist(&self, a: Seq<char>, b: Seq<char>) -> nat {
        lev_dist(a, b)
    }

    proof fn comparable_is_equivalence(&self, a: Seq<char>, b: Seq<char>, c: Seq<char>) {
    }

    proof fn dist_to_self(&self, a: Seq<char>) {
        lemma_lev_zero_iff_equal(a, a);
    }

    proof fn dist_symmetric(&self, a: Seq<char>, b: Seq<char>) {
        lemma_lev_symmetric(a, b);
    }

    proof fn dist_triangle(&self, a: Seq<char>, b: Seq<char>, c: Seq<char>) {
        lemma_lev_triangle(a, b, c);
    }

    fn distance(&self, a: &str, b: &str) -> (r: Result<usize, MetricError>)
        ensures
            r == Ok::<usize, MetricError>(lev_dist(a@, b@) as usize),
    {
        Ok(lev(a, b))
    }
}

/// The positions below `n` at which `a` and `b` hold different characters.
pub open spec fn mismatches(a: Seq<char>, b: Seq<char>, n: int) -> Set<int> {
    Set::new(|i: int| 0 <= i < n && a[i] != b[i])
}

/// The Hamming distance between two strings of equal length: the number of
/// positions at which they differ.
pub open spec fn hamming_dist(a: Seq<char>, b: Seq<char>) -> nat {
    mismatches(a, b, a.len() as int).len()
}

/// There are finitely many mismatches below `n`, and at most `n`.
pub proof fn lemma_mismatches_bounded(a: Seq<char>, b: Seq<char>, n: int)
    requires
        0 <= n,
    ensures
        mismatches(a, b, n).finite(),
        mismatches(a, b, n).len() <= n,
    decreases n,
{
    if n == 0 {
        assert(mismatches(a, b, n) =~= Set::empty());
    } else {
        lemma_mismatches_bounded(a, b, n - 1);
        if a[n - 1] != b[n - 1] {
            assert(mismatches(a, b, n) =~= mismatches(a, b, n - 1).insert(n - 1));
        } else {
            assert(mismatches(a, b, n) =~= mismatches(a, b, n - 1));
        }
    }
}

/// The Hamming distance from `a` to `b` equals that from `b` to `a`.
pub proof fn lemma_hamming_symmetric(a: Seq<char>, b: Seq<char>)
    requires
        a.len() == b.len(),
    ensures
        hamming_dist(a, b) == hamming_dist(b, a),
{
    assert(mismatches(a, b, a.len() as int) =~= mismatches(b, a, b.len() as int));
}

/// The Hamming distance is zero exactly between equal strings.
pub proof fn lemma_hamming_zero_iff_equal(a: Seq<char>, b: Seq<char>)
    requires
        a.len() == b.len(),
    ensures
        hamming_dist(a, b) == 0 <==> a == b,
{
    let s = mismatches(a, b, a.len() as int);
    lemma_mismatches_bounded(a, b, a.len() as int);
    if a == b {
        assert(s =~= Set::empty());
    }
    if s.len() == 0 {
        assert(s =~= Set::empty());
        assert forall|i: int| 0 <= i < a.len() implies a[i] == b[i] by {
            assert(!s.contains(i));
        }
        assert(a =~= b);
    }
}

/// Two strings differ in no more places than each differs from a third.
pub proof fn lemma_hamming_triangle(a: Seq<char>, b: Seq<char>, c: Seq<char>)
    requires
        a.len() == b.len(),
        b.len() == c.len(),
    ensures
        hamming_dist(a, c) <= hamming_dist(a, b) + hamming_dist(b, c),
{
    let n = a.len() as int;
    let ab = mismatches(a, b, n);
    let bc = mismatches(b, c, n);
    let ac = mismatches(a, c, n);
    lemma_mismatches_bounded(a, b, n);
    lemma_mismatches_bounded(b, c, n);
    lemma_mismatches_bounded(a, c, n);
    assert(ac.subset_of(ab.union(bc)));
    vstd::set_lib::lemma_len_union(ab, bc);
    vstd::set_lib::lemma_len_subset(ac, ab.union(bc));
}

/// The Hamming distance between `a` and `b`, counted in characters, or
/// `LengthMismatch` where their lengths differ.
pub fn hamming(a: &str, b: &str) -> (r: Result<usize, MetricError>)
    ensures
        a@.len() != b@.len() ==> r == Err::<usize, MetricError>(MetricError::LengthMismatch),
        a@.len() == b@.len() ==> r is Ok,
        r matches Ok(d) ==> d == hamming_dist(a@, b@),
{
    let x = chars_of(a);
    let y = chars_of(b);
    if x.len() != y.len() {
        return Err(MetricError::LengthMismatch);
    }
    let n = x.len();
    let mut count: usize = 0;
    let mut i: usize = 0;
    proof {
        lemma_mismatches_bounded(x@, y@, 0);
    }
    while i < n
        invariant
            i <= n,
            n == x@.len(),
            n == y@.len(),
            count == mismatches(x@, y@, i as int).len(),
            count <= i,
        decreases n - i,
    {
        proof {
            lemma_mismatches_bounded(x@, y@, i as int);
            lemma_mismatches_bounded(x@, y@, i + 1);
            if x@[i as int] != y@[i as int] {
                assert(mismatches(x@, y@, i + 1) =~= mismatches(x@, y@, i as int).insert(i as int));
            } else {
                assert(mismatches(x@, y@, i + 1) =~= mismatches(x@, y@, i as int));
            }
        }
        if x[i] != y[i] {
            count += 1;
        }
        i += 1;
    }
    Ok(count)
}

/// The Hamming distance as a tree's metric. Strings are comparable where
/// they have the same number of characters.
#[derive(Clone, Copy, Debug)]
pub struct Hamming;

impl Metric for Hamming {
    open spec fn comparable(&self, a: Seq<char>, b: Seq<char>) -> bool {
        a.len() == b.len()
    }

    open spec fn dist(&self, a: Seq<char>, b: Seq<char>) -> nat {
        hamming_dist(a, b)
    }

    proof fn comparable_is_equivalence(&self, a: Seq<char>, b: Seq<char>, c: Seq<char>) {
    }

    proof fn dist_to_self(&self, a: Seq<char>) {
        lemma_hamming_zero_iff_equal(a, a);
    }

    proof fn dist_symmetric(&self, a: Seq<char>, b: Seq<char>) {
        lemma_hamming_symmetric(a, b);
    }

    proof fn dist_triangle(&self, a: Seq<char>, b: Seq<char>, c: Seq<char>) {
        lemma_hamming_triangle(a, b, c);
    }

    fn distance(&self, a: &str, b: &str) -> (r: Result<usize, MetricError>)
        ensures
            a@.len() != b@.len() ==> r == Err::<usize, MetricError>(MetricError::LengthMismatch),
    {
        hamming(a, b)
    }
}

} // verus!
