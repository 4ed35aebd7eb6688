//! Searching a BK-tree: the order in which its words are visited, what the
//! two searches return, and why subtrees may be skipped.

use crate::metric::Metric;
use crate::model::{
    all_at, inside, lemma_all_at_inside, lemma_size_unfold, lemma_weight_add, lemma_weight_one,
    subtrees, weight, well_formed, Tree,
};
use vstd::prelude::*;

verus! {

/// The trees of `queue` and everything below them, breadth first: the first
/// tree's root, then the rest of the queue, then that root's subtrees.
pub open spec fn bfs(queue: Seq<Tree>) -> Seq<Tree>
    decreases weight(queue),
    via bfs_terminates
{
    if queue.len() == 0 {
        Seq::empty()
    } else {
        seq![queue[0]] + bfs(queue.drop_first() + subtrees(queue[0]))
    }
}

/// A walk goes on with fewer words than it had: the root it has just met is gone.
#[via_fn]
proof fn bfs_terminates(queue: Seq<Tree>) {
    if queue.len() != 0 {
        lemma_size_unfold(queue[0]);
        lemma_weight_add(queue.drop_first(), subtrees(queue[0]));
    }
}

/// The words at the roots of `nodes`, in order.
pub open spec fn labels(nodes: Seq<Tree>) -> Seq<Seq<char>> {
    Seq::new(nodes.len(), |i: int| nodes[i].word)
}

/// The words of `t`, breadth first.
pub open spec fn words(t: Tree) -> Seq<Seq<char>> {
    labels(bfs(seq![t]))
}

/// The words of the tree with root `root`, breadth first.
pub open spec fn all_words(root: Option<Tree>) -> Seq<Seq<char>> {
    match root {
        None => Seq::empty(),
        Some(t) => words(t),
    }
}

/// A breadth-first walk visits every word once.
pub proof fn lemma_bfs_len(queue: Seq<Tree>)
    ensures
        bfs(queue).len() == weight(queue),
    decreases weight(queue),
{
    if queue.len() != 0 {
        lemma_size_unfold(queue[0]);
        lemma_weight_add(queue.drop_first(), subtrees(queue[0]));
        lemma_bfs_len(queue.drop_first() + subtrees(queue[0]));
    }
}

/// Those of `ws`, in order, that are within distance `k` of `q`, each with
/// its distance.
pub open spec fn within<D: Metric>(d: D, ws: Seq<Seq<char>>, q: Seq<char>, k: nat) -> Seq<
    (Seq<char>, nat),
>
    decreases ws.len(),
{
    if ws.len() == 0 {
        Seq::empty()
    } else if d.dist(ws[0], q) <= k {
        seq![(ws[0], d.dist(ws[0], q))] + within(d, ws.drop_first(), q, k)
    } else {
        within(d, ws.drop_first(), q, k)
    }
}

/// The better of a candidate found so far and the word `w` at distance `x`:
/// the new word wins only where it is strictly closer.
pub open spec fn better(best: Option<(Seq<char>, nat)>, w: Seq<char>, x: nat) -> Option<
    (Seq<char>, nat),
> {
    match best {
        Some((_, b)) if b <= x => best,
        _ => Some((w, x)),
    }
}

/// The candidate that is left after `ws` was gone through in order,
/// starting from `best`.
pub open spec fn scan<D: Metric>(
    d: D,
    ws: Seq<Seq<char>>,
    q: Seq<char>,
    best: Option<(Seq<char>, nat)>,
) -> Option<(Seq<char>, nat)>
    decreases ws.len(),
{
    if ws.len() == 0 {
        best
    } else {
        scan(d, ws.drop_first(), q, better(best, ws[0], d.dist(ws[0], q)))
    }
}

/// Whether `ws[i]` is the nearest of `ws` to `q`, and the first such.
pub open spec fn is_first_nearest<D: Metric>(d: D, ws: Seq<Seq<char>>, q: Seq<char>, i: int) -> bool {
    &&& 0 <= i < ws.len()
    &&& forall|j: int| 0 <= j < ws.len() ==> d.dist(ws[i], q) <= d.dist(#[trigger] ws[j], q)
    &&& forall|j: int| 0 <= j < i ==> d.dist(ws[i], q) < d.dist(#[trigger] ws[j], q)
}

/// Whether `found` is what a search for the word nearest to `q` owes in the
/// tree with root `root`: nothing in an empty tree, else the nearest word,
/// and of several nearest words the first in breadth-first order.
pub open spec fn is_nearest<D: Metric>(
    root: Option<Tree>,
    d: D,
    q: Seq<char>,
    found: Option<Seq<char>>,
) -> bool {
    match root {
        None => found is None,
        Some(t) => exists|i: int|
            is_first_nearest(d, words(t), q, i) && found == Some(#[trigger] words(t)[i]),
    }
}

/// Whether some word of `t` is at a distance below `b` from `q`.
pub open spec fn reach<D: Metric>(t: Tree, d: D, q: Seq<char>, b: nat) -> bool
    decreases t,
{
    d.dist(t.word, q) < b || exists|i: int|
        0 <= i < t.kids.len() && reach((#[trigger] t.kids[i]).0, d, q, b)
}

/// Those trees of `queue`, in order, that hold a word at a distance below
/// `b` from `q`.
pub open spec fn keep<D: Metric>(queue: Seq<Tree>, d: D, q: Seq<char>, b: nat) -> Seq<Tree>
    decreases queue.len(),
{
    if queue.len() == 0 {
        Seq::empty()
    } else if reach(queue[0], d, q, b) {
        seq![queue[0]] + keep(queue.drop_first(), d, q, b)
    } else {
        keep(queue.drop_first(), d, q, b)
    }
}

/// The words of two lists of trees together are the words of the one, then
/// those of the other.
pub proof fn lemma_labels_add(a: Seq<Tree>, b: Seq<Tree>)
    ensures
        labels(a + b) == labels(a) + labels(b),
{
    assert(labels(a + b) =~= labels(a) + labels(b));
}

/// The words within reach among two lists together are those among the one,
/// then those among the other.
pub proof fn lemma_within_add<D: Metric>(
    d: D,
    a: Seq<Seq<char>>,
    b: Seq<Seq<char>>,
    q: Seq<char>,
    k: nat,
)
    ensures
        within(d, a + b, q, k) == within(d, a, q, k) + within(d, b, q, k),
    decreases a.len(),
{
    if a.len() == 0 {
        assert(a + b =~= b);
        assert(within(d, a, q, k) + within(d, b, q, k) =~= within(d, b, q, k));
    } else {
        assert((a + b).drop_first() =~= a.drop_first() + b);
        lemma_within_add(d, a.drop_first(), b, q, k);
        assert(within(d, a + b, q, k) =~= within(d, a, q, k) + within(d, b, q, k));
    }
}

/// A pair is among the words within reach exactly if its word is among the
/// words searched, its distance is that word's, and the distance is in reach.
pub proof fn lemma_within_contains<D: Metric>(
    d: D,
    ws: Seq<Seq<char>>,
    q: Seq<char>,
    k: nat,
    p: (Seq<char>, nat),
)
    ensures
        within(d, ws, q, k).contains(p) <==> ws.contains(p.0) && p.1 == d.dist(p.0, q) && p.1 <= k,
    decreases ws.len(),
{
    let out = within(d, ws, q, k);
    if ws.len() == 0 {
    } else {
        let rest = within(d, ws.drop_first(), q, k);
        lemma_within_contains(d, ws.drop_first(), q, k, p);
        if out.contains(p) {
            let i = choose|i: int| 0 <= i < out.len() && out[i] == p;
            if d.dist(ws[0], q) <= k && i == 0 {
                assert(ws[0] == p.0);
            } else {
                if d.dist(ws[0], q) <= k {
                    assert(rest[i - 1] == p);
                }
                assert(rest.contains(p));
                let j = choose|j: int| 0 <= j < ws.drop_first().len() && ws.drop_first()[j] == p.0;
                assert(ws[j + 1] == p.0);
            }
        }
        if ws.contains(p.0) && p.1 == d.dist(p.0, q) && p.1 <= k {
            let j = choose|j: int| 0 <= j < ws.len() && ws[j] == p.0;
            if j == 0 {
                assert(out[0] == p);
            } else {
                assert(ws.drop_first()[j - 1] == p.0);
                assert(rest.contains(p));
                let i = choose|i: int| 0 <= i < rest.len() && rest[i] == p;
                if d.dist(ws[0], q) <= k {
                    assert(out[i + 1] == p);
                } else {
                    assert(out[i] == p);
                }
            }
        }
    }
}

/// What is kept of two queues together is what is kept of the one, then of
/// the other.
pub proof fn lemma_keep_add<D: Metric>(a: Seq<Tree>, b: Seq<Tree>, d: D, q: Seq<char>, x: nat)
    ensures
        keep(a + b, d, q, x) == keep(a, d, q, x) + keep(b, d, q, x),
    decreases a.len(),
{
    if a.len() == 0 {
        assert(a + b =~= b);
        assert(keep(a, d, q, x) + keep(b, d, q, x) =~= keep(b, d, q, x));
    } else {
        assert((a + b).drop_first() =~= a.drop_first() + b);
        lemma_keep_add(a.drop_first(), b, d, q, x);
        assert(keep(a + b, d, q, x) =~= keep(a, d, q, x) + keep(b, d, q, x));
    }
}

/// A queue of one tree is kept whole or not at all.
pub proof fn lemma_keep_one<D: Metric>(t: Tree, d: D, q: Seq<char>, x: nat)
    ensures
        keep(seq![t], d, q, x) == if reach(t, d, q, x) {
            seq![t]
        } else {
            Seq::empty()
        },
{
    assert(seq![t].drop_first() =~= Seq::<Tree>::empty());
    assert(keep(seq![t].drop_first(), d, q, x) =~= Seq::<Tree>::empty());
    assert(seq![t] + Seq::<Tree>::empty() =~= seq![t]);
}

/// A word that is in reach under a bound is in reach under a larger one.
pub proof fn lemma_reach_wider<D: Metric>(t: Tree, d: D, q: Seq<char>, x: nat, y: nat)
    requires
        reach(t, d, q, x),
        x <= y,
    ensures
        reach(t, d, q, y),
    decreases t,
{
    if !(d.dist(t.word, q) < x) {
        let i = choose|i: int| 0 <= i < t.kids.len() && reach((#[trigger] t.kids[i]).0, d, q, x);
        lemma_reach_wider(t.kids[i].0, d, q, x, y);
    }
}

/// Keeping under a bound what was kept under a larger one keeps the same.
pub proof fn lemma_keep_keep<D: Metric>(a: Seq<Tree>, d: D, q: Seq<char>, x: nat, y: nat)
    requires
        x <= y,
    ensures
        keep(keep(a, d, q, y), d, q, x) == keep(a, d, q, x),
    decreases a.len(),
{
    if a.len() != 0 {
        let t = a.drop_first();
        lemma_keep_keep(t, d, q, x, y);
        if reach(a[0], d, q, x) {
            lemma_reach_wider(a[0], d, q, x, y);
        }
        if reach(a[0], d, q, y) {
            lemma_keep_add(seq![a[0]], keep(t, d, q, y), d, q, x);
            lemma_keep_one(a[0], d, q, x);
            assert(Seq::<Tree>::empty() + keep(t, d, q, x) =~= keep(t, d, q, x));
        }
    }
}

/// No more trees are kept than there were.
pub proof fn lemma_keep_len<D: Metric>(a: Seq<Tree>, d: D, q: Seq<char>, x: nat)
    ensures
        keep(a, d, q, x).len() <= a.len(),
    decreases a.len(),
{
    if a.len() != 0 {
        lemma_keep_len(a.drop_first(), d, q, x);
    }
}

/// What is kept holds no more words than there were.
pub proof fn lemma_keep_weight<D: Metric>(a: Seq<Tree>, d: D, q: Seq<char>, x: nat)
    ensures
        weight(keep(a, d, q, x)) <= weight(a),
    decreases a.len(),
{
    if a.len() != 0 {
        lemma_keep_weight(a.drop_first(), d, q, x);
        if reach(a[0], d, q, x) {
            let r = keep(a.drop_first(), d, q, x);
            assert((seq![a[0]] + r).drop_first() =~= r);
        }
    }
}

/// No word is at a distance below zero, so nothing is kept under that bound.
pub proof fn lemma_keep_nothing<D: Metric>(a: Seq<Tree>, d: D, q: Seq<char>)
    ensures
        keep(a, d, q, 0) == Seq::<Tree>::empty(),
{
    assert forall|i: int| 0 <= i < a.len() implies !reach(#[trigger] a[i], d, q, 0) by {
        lemma_reach_nothing(a[i], d, q);
    }
    lemma_keep_none(a, d, q, 0);
}

/// No word of a tree is at a distance below zero.
proof fn lemma_reach_nothing<D: Metric>(t: Tree, d: D, q: Seq<char>)
    ensures
        !reach(t, d, q, 0),
    decreases t,
{
    assert forall|i: int| 0 <= i < t.kids.len() implies !reach(
        (#[trigger] t.kids[i]).0,
        d,
        q,
        0,
    ) by {
        lemma_reach_nothing(t.kids[i].0, d, q);
    }
}

/// Below a tree with no word in reach, no subtree has a word in reach.
pub proof fn lemma_keep_below_dead<D: Metric>(t: Tree, d: D, q: Seq<char>, x: nat)
    requires
        !reach(t, d, q, x),
    ensures
        keep(subtrees(t), d, q, x) == Seq::<Tree>::empty(),
{
    let s = subtrees(t);
    assert forall|i: int| 0 <= i < s.len() implies !reach(#[trigger] s[i], d, q, x) by {
        assert(s[i] == t.kids[i].0);
    }
    lemma_keep_none(s, d, q, x);
}

/// Nothing is kept of a queue whose trees have no word in reach.
pub proof fn lemma_keep_none<D: Metric>(s: Seq<Tree>, d: D, q: Seq<char>, x: nat)
    requires
        forall|i: int| 0 <= i < s.len() ==> !reach(#[trigger] s[i], d, q, x),
    ensures
        keep(s, d, q, x) == Seq::<Tree>::empty(),
    decreases s.len(),
{
    if s.len() != 0 {
        assert(!reach(s[0], d, q, x));
        assert forall|i: int| 0 <= i < s.drop_first().len() implies !reach(
            #[trigger] s.drop_first()[i],
            d,
            q,
            x,
        ) by {
            assert(s.drop_first()[i] == s[i + 1]);
        }
        lemma_keep_none(s.drop_first(), d, q, x);
    }
}

/// Taking out of the queue the trees with no word in reach does not change
/// which trees with a word in reach a breadth-first walk meets, nor their order.
pub proof fn lemma_bfs_keep<D: Metric>(a: Seq<Tree>, d: D, q: Seq<char>, x: nat)
    ensures
        keep(bfs(a), d, q, x) == keep(bfs(keep(a, d, q, x)), d, q, x),
    decreases weight(a),
{
    if a.len() != 0 {
        let h = a[0];
        let tail = a.drop_first();
        let rest = tail + subtrees(h);
        let kt = keep(tail, d, q, x);
        lemma_size_unfold(h);
        lemma_weight_add(tail, subtrees(h));
        lemma_bfs_keep(rest, d, q, x);
        lemma_keep_add(tail, subtrees(h), d, q, x);
        lemma_keep_add(seq![h], bfs(rest), d, q, x);
        if reach(h, d, q, x) {
            let filtered = seq![h] + kt;
            assert(filtered.drop_first() =~= kt);
            let rest2 = kt + subtrees(h);
            lemma_keep_weight(tail, d, q, x);
            lemma_weight_add(kt, subtrees(h));
            lemma_bfs_keep(rest2, d, q, x);
            lemma_keep_add(kt, subtrees(h), d, q, x);
            lemma_keep_keep(tail, d, q, x, x);
            lemma_keep_add(seq![h], bfs(rest2), d, q, x);
        } else {
            lemma_keep_below_dead(h, d, q, x);
            lemma_keep_one(h, d, q, x);
            assert(kt + Seq::<Tree>::empty() =~= kt);
            assert(Seq::<Tree>::empty() + keep(bfs(rest), d, q, x) =~= keep(bfs(rest), d, q, x));
        }
    }
}

/// Trees with no word within `k` add nothing to the words within `k`.
pub proof fn lemma_within_keep<D: Metric>(nodes: Seq<Tree>, d: D, q: Seq<char>, k: nat)
    ensures
        within(d, labels(nodes), q, k) == within(d, labels(keep(nodes, d, q, k + 1)), q, k),
    decreases nodes.len(),
{
    if nodes.len() != 0 {
        let t = nodes.drop_first();
        let kt = keep(t, d, q, k + 1);
        lemma_within_keep(t, d, q, k);
        assert(labels(nodes).drop_first() =~= labels(t));
        if reach(nodes[0], d, q, k + 1) {
            assert(labels(seq![nodes[0]] + kt).drop_first() =~= labels(kt));
        }
    }
}

/// Two queues that agree on the trees with a word within `k` give the same
/// words within `k`, in the same order.
pub proof fn lemma_prune_within<D: Metric>(a: Seq<Tree>, b: Seq<Tree>, d: D, q: Seq<char>, k: nat)
    requires
        keep(a, d, q, k + 1) == keep(b, d, q, k + 1),
    ensures
        within(d, labels(bfs(a)), q, k) == within(d, labels(bfs(b)), q, k),
{
    lemma_within_keep(bfs(a), d, q, k);
    lemma_within_keep(bfs(b), d, q, k);
    lemma_bfs_keep(a, d, q, (k + 1) as nat);
    lemma_bfs_keep(b, d, q, (k + 1) as nat);
}

/// Trees with no word closer than the candidate do not change the candidate.
pub proof fn lemma_scan_keep<D: Metric>(nodes: Seq<Tree>, d: D, q: Seq<char>, w: Seq<char>, x: nat)
    ensures
        scan(d, labels(nodes), q, Some((w, x))) == scan(
            d,
            labels(keep(nodes, d, q, x)),
            q,
            Some((w, x)),
        ),
    decreases nodes.len(),
{
    if nodes.len() != 0 {
        let h = nodes[0];
        let t = nodes.drop_first();
        let kt = keep(t, d, q, x);
        let e = d.dist(h.word, q);
        assert(labels(nodes).drop_first() =~= labels(t));
        if reach(h, d, q, x) {
            assert(labels(seq![h] + kt).drop_first() =~= labels(kt));
            if e < x {
                // the candidate changes, and what is kept under it is kept under x
                lemma_keep_len(t, d, q, x);
                lemma_scan_keep(t, d, q, h.word, e);
                lemma_scan_keep(kt, d, q, h.word, e);
                lemma_keep_keep(t, d, q, e, x);
            } else {
                lemma_scan_keep(t, d, q, w, x);
            }
        } else {
            lemma_scan_keep(t, d, q, w, x);
        }
    }
}

/// Two queues that agree on the trees with a word closer than the candidate
/// leave the same candidate.
pub proof fn lemma_prune_scan<D: Metric>(
    a: Seq<Tree>,
    b: Seq<Tree>,
    d: D,
    q: Seq<char>,
    w: Seq<char>,
    x: nat,
)
    requires
        keep(a, d, q, x) == keep(b, d, q, x),
    ensures
        scan(d, labels(bfs(a)), q, Some((w, x))) == scan(d, labels(bfs(b)), q, Some((w, x))),
{
    lemma_scan_keep(bfs(a), d, q, w, x);
    lemma_scan_keep(bfs(b), d, q, w, x);
    lemma_bfs_keep(a, d, q, x);
    lemma_bfs_keep(b, d, q, x);
}

/// Going on from the first nearest of the first `n` words leaves the first
/// nearest of them all.
pub proof fn lemma_scan_from<D: Metric>(d: D, ws: Seq<Seq<char>>, q: Seq<char>, n: int, i: int) -> (r:
    int)
    requires
        0 < n <= ws.len(),
        is_first_nearest(d, ws.take(n), q, i),
    ensures
        is_first_nearest(d, ws, q, r),
        scan(d, ws.skip(n), q, Some((ws[i], d.dist(ws[i], q)))) == Some((ws[r], d.dist(ws[r], q))),
    decreases ws.len() - n,
{
    if n == ws.len() {
        assert(ws.take(n) =~= ws);
        i
    } else {
        assert(ws.skip(n).drop_first() =~= ws.skip(n + 1));
        assert(ws.skip(n)[0] == ws[n]);
        let pre = ws.take(n);
        let next = ws.take(n + 1);
        let i2 = if d.dist(ws[n], q) < d.dist(ws[i], q) {
            n
        } else {
            i
        };
        assert forall|j: int| 0 <= j < next.len() implies d.dist(next[i2], q) <= d.dist(
            #[trigger] next[j],
            q,
        ) by {
            if j < n {
                assert(pre[j] == next[j]);
            }
        }
        assert forall|j: int| 0 <= j < i2 implies d.dist(next[i2], q) < d.dist(
            #[trigger] next[j],
            q,
        ) by {
            assert(pre[j] == next[j]);
        }
        lemma_scan_from(d, ws, q, n + 1, i2)
    }
}

/// Going through a list of words from no candidate leaves the first nearest.
pub proof fn lemma_scan_first_nearest<D: Metric>(d: D, ws: Seq<Seq<char>>, q: Seq<char>) -> (r: int)
    requires
        ws.len() > 0,
    ensures
        is_first_nearest(d, ws, q, r),
        scan(d, ws, q, None) == Some((ws[r], d.dist(ws[r], q))),
{
    assert(ws.skip(1) =~= ws.drop_first());
    lemma_scan_from(d, ws, q, 1, 0)
}

/// No word of a subtree is closer to `q` than the distance between its edge
/// and the distance of `q` from the word above.
pub proof fn lemma_out_of_reach<D: Metric>(
    t: Tree,
    d: D,
    center: Seq<char>,
    e: nat,
    q: Seq<char>,
    x: nat,
)
    requires
        all_at(t, d, center, e),
        d.comparable(center, q),
        e >= d.dist(center, q) + x || d.dist(center, q) >= e + x,
    ensures
        !reach(t, d, q, x),
    decreases t,
{
    d.comparable_is_equivalence(center, t.word, q);
    d.comparable_is_equivalence(t.word, center, q);
    d.comparable_is_equivalence(t.word, q, center);
    d.dist_triangle(center, t.word, q);
    d.dist_triangle(center, q, t.word);
    d.dist_symmetric(t.word, q);
    assert forall|i: int| 0 <= i < t.kids.len() implies !reach(
        (#[trigger] t.kids[i]).0,
        d,
        q,
        x,
    ) by {
        lemma_out_of_reach(t.kids[i].0, d, center, e, q, x);
    }
}

/// A breadth-first walk meets exactly the words of the trees in the queue.
pub proof fn lemma_bfs_inside(queue: Seq<Tree>, x: Seq<char>)
    ensures
        labels(bfs(queue)).contains(x) <==> exists|j: int|
            0 <= j < queue.len() && inside(#[trigger] queue[j], x),
    decreases weight(queue),
{
    if queue.len() != 0 {
        let h = queue[0];
        let tail = queue.drop_first();
        let rest = tail + subtrees(h);
        let all = labels(bfs(queue));
        let more = labels(bfs(rest));
        lemma_size_unfold(h);
        lemma_weight_add(tail, subtrees(h));
        lemma_bfs_inside(rest, x);
        lemma_labels_add(seq![h], bfs(rest));
        assert(all =~= seq![h.word] + more);
        if all.contains(x) {
            let p = choose|p: int| 0 <= p < all.len() && all[p] == x;
            if p == 0 {
                assert(inside(queue[0], x));
            } else {
                assert(more[p - 1] == x);
                let j = choose|j: int| 0 <= j < rest.len() && inside(#[trigger] rest[j], x);
                if j < tail.len() {
                    assert(rest[j] == queue[j + 1]);
                    assert(inside(queue[j + 1], x));
                } else {
                    let i = j - tail.len();
                    assert(rest[j] == h.kids[i].0);
                    assert(inside(h.kids[i].0, x));
                    assert(inside(queue[0], x));
                }
            }
        }
        if exists|j: int| 0 <= j < queue.len() && inside(#[trigger] queue[j], x) {
            let j = choose|j: int| 0 <= j < queue.len() && inside(#[trigger] queue[j], x);
            if j == 0 && h.word == x {
                assert(all[0] == x);
            } else {
                if j == 0 {
                    let i = choose|i: int|
                        0 <= i < h.kids.len() && inside((#[trigger] h.kids[i]).0, x);
                    assert(rest[tail.len() + i] == h.kids[i].0);
                    assert(inside(rest[tail.len() + i], x));
                } else {
                    assert(rest[j - 1] == queue[j]);
                    assert(inside(rest[j - 1], x));
                }
                let p = choose|p: int| 0 <= p < more.len() && more[p] == x;
                assert(all[p + 1] == x);
            }
        }
    } else {
        assert(labels(bfs(queue)) =~= Seq::<Seq<char>>::empty());
    }
}

/// The words of a tree in breadth-first order are its words, each once.
pub proof fn lemma_words(t: Tree, x: Seq<char>)
    ensures
        words(t).len() == crate::model::size(t),
        words(t).contains(x) <==> inside(t, x),
{
    lemma_bfs_len(seq![t]);
    lemma_weight_one(t);
    lemma_bfs_inside(seq![t], x);
    if inside(t, x) {
        assert(inside(seq![t][0], x));
    }
}

/// Whether no word is in two of the trees of `queue`.
pub open spec fn apart(queue: Seq<Tree>) -> bool {
    forall|i: int, j: int, x: Seq<char>|
        0 <= i < j < queue.len() && #[trigger] inside(queue[i], x) ==> !#[trigger] inside(
            queue[j],
            x,
        )
}

/// The word at the root of a BK-tree is in none of its subtrees: their
/// words are at a distance above zero from it.
pub proof fn lemma_root_not_below<D: Metric>(t: Tree, d: D, i: int)
    requires
        well_formed(t, d),
        0 <= i < t.kids.len(),
    ensures
        !inside(t.kids[i].0, t.word),
{
    if inside(t.kids[i].0, t.word) {
        assert(all_at(t.kids[i].0, d, t.word, t.kids[i].1));
        lemma_all_at_inside(t.kids[i].0, d, t.word, t.kids[i].1, t.word);
        d.dist_to_self(t.word);
    }
}

/// No word is in two subtrees of a BK-tree: their edges carry different
/// distances, and a word has one distance from the word above.
pub proof fn lemma_subtrees_apart<D: Metric>(t: Tree, d: D)
    requires
        well_formed(t, d),
    ensures
        apart(subtrees(t)),
{
    let s = subtrees(t);
    assert forall|i: int, j: int, x: Seq<char>|
        0 <= i < j < s.len() && #[trigger] inside(s[i], x) implies !#[trigger] inside(s[j], x) by {
        if inside(s[j], x) {
            assert(all_at(t.kids[i].0, d, t.word, t.kids[i].1));
            assert(all_at(t.kids[j].0, d, t.word, t.kids[j].1));
            lemma_all_at_inside(t.kids[i].0, d, t.word, t.kids[i].1, x);
            lemma_all_at_inside(t.kids[j].0, d, t.word, t.kids[j].1, x);
            assert(t.kids[i].1 != t.kids[j].1);
        }
    }
}

/// A breadth-first walk of BK-trees that share no word meets no word twice.
pub proof fn lemma_bfs_distinct<D: Metric>(queue: Seq<Tree>, d: D)
    requires
        forall|i: int| 0 <= i < queue.len() ==> well_formed(#[trigger] queue[i], d),
        apart(queue),
    ensures
        labels(bfs(queue)).no_duplicates(),
    decreases weight(queue),
{
    if queue.len() != 0 {
        let h = queue[0];
        let tail = queue.drop_first();
        let sub = subtrees(h);
        let rest = tail + sub;
        let all = labels(bfs(queue));
        let more = labels(bfs(rest));
        lemma_size_unfold(h);
        lemma_weight_add(tail, sub);
        lemma_subtrees_apart(h, d);
        assert forall|i: int| 0 <= i < rest.len() implies well_formed(#[trigger] rest[i], d) by {
            if i < tail.len() {
                assert(rest[i] == queue[i + 1]);
            } else {
                assert(rest[i] == h.kids[i - tail.len()].0);
            }
        }
        assert forall|i: int, j: int, x: Seq<char>|
            0 <= i < j < rest.len() && #[trigger] inside(rest[i], x) implies !#[trigger] inside(
            rest[j],
            x,
        ) by {
            if inside(rest[j], x) {
                if j < tail.len() {
                    assert(inside(queue[i + 1], x) && inside(queue[j + 1], x));
                } else if i < tail.len() {
                    assert(rest[j] == h.kids[j - tail.len()].0);
                    assert(inside(queue[0], x) && inside(queue[i + 1], x));
                } else {
                    assert(inside(sub[i - tail.len()], x) && inside(sub[j - tail.len()], x));
                }
            }
        }
        lemma_bfs_distinct(rest, d);
        lemma_bfs_inside(rest, h.word);
        if more.contains(h.word) {
            let j = choose|j: int| 0 <= j < rest.len() && inside(#[trigger] rest[j], h.word);
            if j < tail.len() {
                assert(inside(queue[0], h.word) && inside(queue[j + 1], h.word));
            } else {
                assert(rest[j] == h.kids[j - tail.len()].0);
                lemma_root_not_below(h, d, j - tail.len());
            }
        }
        lemma_labels_add(seq![h], bfs(rest));
        assert(all =~= seq![h.word] + more);
        assert forall|i: int, j: int| 0 <= i < all.len() && 0 <= j < all.len() && i != j implies all[i]
            != all[j] by {
            if i == 0 {
                assert(more[j - 1] == all[j]);
            } else if j == 0 {
                assert(more[i - 1] == all[i]);
            } else {
                assert(more[i - 1] == all[i] && more[j - 1] == all[j]);
            }
        }
    } else {
        assert(labels(bfs(queue)) =~= Seq::<Seq<char>>::empty());
    }
}

/// Among words that are all different, no word within reach comes twice.
pub proof fn lemma_within_distinct<D: Metric>(d: D, ws: Seq<Seq<char>>, q: Seq<char>, k: nat)
    requires
        ws.no_duplicates(),
    ensures
        within(d, ws, q, k).no_duplicates(),
    decreases ws.len(),
{
    if ws.len() != 0 {
        let rest = ws.drop_first();
        let more = within(d, rest, q, k);
        let out = within(d, ws, q, k);
        assert forall|i: int, j: int| 0 <= i < rest.len() && 0 <= j < rest.len() && i != j implies rest[i]
            != rest[j] by {
            assert(rest[i] == ws[i + 1] && rest[j] == ws[j + 1]);
        }
        lemma_within_distinct(d, rest, q, k);
        if d.dist(ws[0], q) <= k {
            let p = (ws[0], d.dist(ws[0], q));
            lemma_within_contains(d, rest, q, k, p);
            if more.contains(p) {
                let j = choose|j: int| 0 <= j < rest.len() && rest[j] == ws[0];
                assert(ws[j + 1] == ws[0]);
            }
            assert forall|i: int, j: int|
                0 <= i < out.len() && 0 <= j < out.len() && i != j implies out[i] != out[j] by {
                if i == 0 {
                    assert(more[j - 1] == out[j]);
                } else if j == 0 {
                    assert(more[i - 1] == out[i]);
                } else {
                    assert(more[i - 1] == out[i] && more[j - 1] == out[j]);
                }
            }
        }
    }
}

} // verus!
