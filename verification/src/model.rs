//! The mathematical model of a BK-tree: its shape, the shape that insertion
//! gives, and the invariant that makes pruned searches correct.

use crate::metric::Metric;
use vstd::prelude::*;

verus! {

/// A BK-tree as a mathematical value: a word, and below it an ordered list
/// of subtrees, each reached by an edge that carries a distance.
pub struct Tree {
    pub word: Seq<char>,
    pub kids: Seq<(Tree, nat)>,
}

/// The tree that holds `w` alone.
pub open spec fn leaf(w: Seq<char>) -> Tree {
    Tree { word: w, kids: Seq::empty() }
}

/// The subtrees directly below the root of `t`, in order.
pub open spec fn subtrees(t: Tree) -> Seq<Tree> {
    Seq::new(t.kids.len(), |i: int| t.kids[i].0)
}

/// The number of words in `t`.
pub open spec fn size(t: Tree) -> nat
    decreases t, t.kids.len() + 1,
{
    1 + size_upto(t, t.kids.len())
}

/// The number of words in the first `n` subtrees of `t`.
pub open spec fn size_upto(t: Tree, n: nat) -> nat
    decreases t, n,
{
    if n == 0 || n > t.kids.len() {
        0
    } else {
        size_upto(t, (n - 1) as nat) + size(t.kids[n - 1].0)
    }
}

/// The number of words in all the trees of `q` together.
pub open spec fn weight(q: Seq<Tree>) -> nat
    decreases q.len(),
{
    if q.len() == 0 {
        0
    } else {
        size(q[0]) + weight(q.drop_first())
    }
}

/// The words of two queues together are counted by the sum of their counts.
pub proof fn lemma_weight_add(a: Seq<Tree>, b: Seq<Tree>)
    ensures
        weight(a + b) == weight(a) + weight(b),
    decreases a.len(),
{
    if a.len() == 0 {
        assert(a + b =~= b);
    } else {
        assert((a + b).drop_first() =~= a.drop_first() + b);
        lemma_weight_add(a.drop_first(), b);
    }
}

/// A queue of one tree holds the words of that tree.
pub proof fn lemma_weight_one(t: Tree)
    ensures
        weight(seq![t]) == size(t),
{
    assert(seq![t].drop_first() =~= Seq::<Tree>::empty());
    assert(weight(seq![t].drop_first()) == 0);
}

/// The words of the first `n` subtrees are those of a queue of them.
proof fn lemma_size_upto(t: Tree, n: nat)
    requires
        n <= t.kids.len(),
    ensures
        size_upto(t, n) == weight(subtrees(t).take(n as int)),
    decreases n,
{
    let s = subtrees(t);
    if n == 0 {
        assert(s.take(0) =~= Seq::<Tree>::empty());
    } else {
        lemma_size_upto(t, (n - 1) as nat);
        assert(s.take(n as int) =~= s.take(n - 1) + seq![s[n - 1]]);
        lemma_weight_add(s.take(n - 1), seq![s[n - 1]]);
        lemma_weight_one(s[n - 1]);
    }
}

/// A tree holds its own word and the words of its subtrees.
pub proof fn lemma_size_unfold(t: Tree)
    ensures
        size(t) == 1 + weight(subtrees(t)),
{
    lemma_size_upto(t, t.kids.len());
    assert(subtrees(t).take(t.kids.len() as int) =~= subtrees(t));
}

/// Putting `x` in the place of a tree changes the count by the difference of
/// the two trees' counts.
pub proof fn lemma_weight_update(s: Seq<Tree>, k: int, x: Tree)
    requires
        0 <= k < s.len(),
    ensures
        weight(s.update(k, x)) + size(s[k]) == weight(s) + size(x),
{
    let a = s.take(k);
    let b = s.skip(k + 1);
    assert(s =~= a + (seq![s[k]] + b));
    assert(s.update(k, x) =~= a + (seq![x] + b));
    lemma_weight_add(a, seq![s[k]] + b);
    lemma_weight_add(seq![s[k]], b);
    lemma_weight_add(a, seq![x] + b);
    lemma_weight_add(seq![x], b);
    lemma_weight_one(s[k]);
    lemma_weight_one(x);
}

/// The first position at or after `i` whose edge carries `e`, or the number
/// of subtrees where there is none.
pub open spec fn edge_from(kids: Seq<(Tree, nat)>, e: nat, i: int) -> int
    decreases kids.len() - i,
{
    if i < 0 || i >= kids.len() {
        kids.len() as int
    } else if kids[i].1 == e {
        i
    } else {
        edge_from(kids, e, i + 1)
    }
}

/// The first position whose edge carries `e`, or the number of subtrees
/// where there is none.
pub open spec fn edge_index(kids: Seq<(Tree, nat)>, e: nat) -> int {
    edge_from(kids, e, 0)
}

/// What `edge_from` finds carries `e`, and nothing before it does.
pub proof fn lemma_edge_from(kids: Seq<(Tree, nat)>, e: nat, i: int)
    requires
        0 <= i <= kids.len(),
    ensures
        i <= edge_from(kids, e, i) <= kids.len(),
        edge_from(kids, e, i) < kids.len() ==> kids[edge_from(kids, e, i)].1 == e,
        forall|j: int| i <= j < edge_from(kids, e, i) ==> (#[trigger] kids[j]).1 != e,
    decreases kids.len() - i,
{
    if i < kids.len() && kids[i].1 != e {
        lemma_edge_from(kids, e, i + 1);
    }
}

/// The tree after `w` was inserted into `t`.
///
/// Where `w` is at distance zero from the root's word, the tree stays as it
/// is. Otherwise `w` goes into the first subtree whose edge carries its
/// distance from the root's word, and where there is none it becomes a new
/// last subtree under an edge with that distance.
pub open spec fn insert<D: Metric>(t: Tree, d: D, w: Seq<char>) -> Tree
    decreases t,
{
    let e = d.dist(t.word, w);
    let k = edge_index(t.kids, e);
    if e == 0 {
        t
    } else if 0 <= k < t.kids.len() {
        Tree { word: t.word, kids: t.kids.update(k, (insert(t.kids[k].0, d, w), t.kids[k].1)) }
    } else {
        Tree { word: t.word, kids: t.kids.push((leaf(w), e)) }
    }
}

/// Whether the walk that insertion makes through `t` meets a word at
/// distance zero from `w`.
pub open spec fn holds<D: Metric>(t: Tree, d: D, w: Seq<char>) -> bool
    decreases t,
{
    let e = d.dist(t.word, w);
    let k = edge_index(t.kids, e);
    e == 0 || (0 <= k < t.kids.len() && holds(t.kids[k].0, d, w))
}

/// Every word of `t` is comparable with `center` and at distance `e` from it.
pub open spec fn all_at<D: Metric>(t: Tree, d: D, center: Seq<char>, e: nat) -> bool
    decreases t,
{
    &&& d.comparable(center, t.word)
    &&& d.dist(center, t.word) == e
    &&& forall|i: int|
        0 <= i < t.kids.len() ==> all_at((#[trigger] t.kids[i]).0, d, center, e)
}

/// The invariant of a BK-tree under the metric `d`.
///
/// Every edge carries a distance above zero, the edges below one word carry
/// different distances, and every word of a subtree is at the distance of
/// the subtree's edge from the word above it.
pub open spec fn well_formed<D: Metric>(t: Tree, d: D) -> bool
    decreases t,
{
    &&& forall|i: int|
        0 <= i < t.kids.len() ==> {
            &&& (#[trigger] t.kids[i]).1 > 0
            &&& all_at(t.kids[i].0, d, t.word, t.kids[i].1)
            &&& well_formed(t.kids[i].0, d)
        }
    &&& forall|i: int, j: int|
        0 <= i < j < t.kids.len() ==> (#[trigger] t.kids[i]).1 != (#[trigger] t.kids[j]).1
}

/// Inserting a word at distance `e` from `center` keeps a tree of such words one.
pub proof fn lemma_insert_all_at<D: Metric>(t: Tree, d: D, center: Seq<char>, e: nat, w: Seq<char>)
    requires
        all_at(t, d, center, e),
        d.comparable(center, w),
        d.dist(center, w) == e,
    ensures
        all_at(insert(t, d, w), d, center, e),
    decreases t,
{
    let x = d.dist(t.word, w);
    let k = edge_index(t.kids, x);
    let r = insert(t, d, w);
    if x != 0 {
        if 0 <= k < t.kids.len() {
            assert(all_at(t.kids[k].0, d, center, e));
            lemma_insert_all_at(t.kids[k].0, d, center, e, w);
            assert forall|i: int| 0 <= i < r.kids.len() implies all_at(
                (#[trigger] r.kids[i]).0,
                d,
                center,
                e,
            ) by {
                if i != k {
                    assert(r.kids[i] == t.kids[i]);
                }
            }
        } else {
            assert forall|i: int| 0 <= i < r.kids.len() implies all_at(
                (#[trigger] r.kids[i]).0,
                d,
                center,
                e,
            ) by {
                if i < t.kids.len() {
                    assert(r.kids[i] == t.kids[i]);
                }
            }
        }
    }
}

/// Insertion keeps the invariant.
pub proof fn lemma_insert_well_formed<D: Metric>(t: Tree, d: D, w: Seq<char>)
    requires
        well_formed(t, d),
        d.comparable(t.word, w),
    ensures
        well_formed(insert(t, d, w), d),
    decreases t,
{
    let x = d.dist(t.word, w);
    let k = edge_index(t.kids, x);
    let r = insert(t, d, w);
    lemma_edge_from(t.kids, x, 0);
    if x != 0 {
        if 0 <= k < t.kids.len() {
            let kid = t.kids[k].0;
            assert(all_at(kid, d, t.word, x));
            d.comparable_is_equivalence(t.word, kid.word, w);
            d.comparable_is_equivalence(kid.word, t.word, w);
            lemma_insert_well_formed(kid, d, w);
            lemma_insert_all_at(kid, d, t.word, x, w);
            assert forall|i: int| 0 <= i < r.kids.len() implies {
                &&& (#[trigger] r.kids[i]).1 > 0
                &&& all_at(r.kids[i].0, d, r.word, r.kids[i].1)
                &&& well_formed(r.kids[i].0, d)
            } by {
                if i != k {
                    assert(r.kids[i] == t.kids[i]);
                }
            }
            assert forall|i: int, j: int| 0 <= i < j < r.kids.len() implies (
            #[trigger] r.kids[i]).1 != (#[trigger] r.kids[j]).1 by {
                assert(r.kids[i].1 == t.kids[i].1);
                assert(r.kids[j].1 == t.kids[j].1);
            }
        } else {
            assert forall|i: int| 0 <= i < r.kids.len() implies {
                &&& (#[trigger] r.kids[i]).1 > 0
                &&& all_at(r.kids[i].0, d, r.word, r.kids[i].1)
                &&& well_formed(r.kids[i].0, d)
            } by {
                if i < t.kids.len() {
                    assert(r.kids[i] == t.kids[i]);
                }
            }
            assert forall|i: int, j: int| 0 <= i < j < r.kids.len() implies (
            #[trigger] r.kids[i]).1 != (#[trigger] r.kids[j]).1 by {
                assert(r.kids[i] == t.kids[i]);
                if j < t.kids.len() {
                    assert(r.kids[j] == t.kids[j]);
                }
            }
        }
    }
}

/// Insertion adds one word, unless its walk meets the word already.
pub proof fn lemma_insert_size<D: Metric>(t: Tree, d: D, w: Seq<char>)
    ensures
        size(insert(t, d, w)) == size(t) + if holds(t, d, w) { 0nat } else { 1nat },
    decreases t,
{
    let x = d.dist(t.word, w);
    let k = edge_index(t.kids, x);
    let r = insert(t, d, w);
    lemma_size_unfold(t);
    lemma_size_unfold(r);
    if x != 0 {
        if 0 <= k < t.kids.len() {
            lemma_insert_size(t.kids[k].0, d, w);
            assert(subtrees(r) =~= subtrees(t).update(k, insert(t.kids[k].0, d, w)));
            lemma_weight_update(subtrees(t), k, insert(t.kids[k].0, d, w));
        } else {
            assert(subtrees(r) =~= subtrees(t) + seq![leaf(w)]);
            lemma_weight_add(subtrees(t), seq![leaf(w)]);
            lemma_weight_one(leaf(w));
            lemma_size_unfold(leaf(w));
            assert(subtrees(leaf(w)) =~= Seq::<Tree>::empty());
        }
    }
}

/// Inserting a word a second time changes nothing.
pub proof fn lemma_insert_twice<D: Metric>(t: Tree, d: D, w: Seq<char>)
    ensures
        insert(insert(t, d, w), d, w) == insert(t, d, w),
        holds(insert(t, d, w), d, w),
    decreases t,
{
    let x = d.dist(t.word, w);
    let k = edge_index(t.kids, x);
    let r = insert(t, d, w);
    lemma_edge_from(t.kids, x, 0);
    lemma_edge_from(r.kids, x, 0);
    if x != 0 {
        if 0 <= k < t.kids.len() {
            lemma_insert_twice(t.kids[k].0, d, w);
            assert(edge_index(r.kids, x) == k) by {
                assert forall|j: int| 0 <= j < k implies (#[trigger] r.kids[j]).1 != x by {
                    assert(r.kids[j] == t.kids[j]);
                }
                assert(r.kids[k].1 == x);
            }
            assert(r.kids.update(k, (insert(r.kids[k].0, d, w), r.kids[k].1)) =~= r.kids);
            assert(holds(r.kids[k].0, d, w));
        } else {
            let n = t.kids.len() as int;
            assert(edge_index(r.kids, x) == n) by {
                assert forall|j: int| 0 <= j < n implies (#[trigger] r.kids[j]).1 != x by {
                    assert(r.kids[j] == t.kids[j]);
                }
                assert(r.kids[n].1 == x);
            }
            d.dist_to_self(w);
            assert(insert(leaf(w), d, w) == leaf(w));
            assert(r.kids.update(n, (insert(r.kids[n].0, d, w), r.kids[n].1)) =~= r.kids);
            assert(holds(r.kids[n].0, d, w));
        }
    }
}

/// Whether `x` is one of the words of `t`.
pub open spec fn inside(t: Tree, x: Seq<char>) -> bool
    decreases t,
{
    t.word == x || exists|i: int| 0 <= i < t.kids.len() && inside((#[trigger] t.kids[i]).0, x)
}

/// Where the walk of insertion meets the word, insertion changes nothing.
pub proof fn lemma_insert_present<D: Metric>(t: Tree, d: D, w: Seq<char>)
    requires
        holds(t, d, w),
    ensures
        insert(t, d, w) == t,
    decreases t,
{
    let e = d.dist(t.word, w);
    let k = edge_index(t.kids, e);
    if e != 0 {
        lemma_insert_present(t.kids[k].0, d, w);
        assert(t.kids.update(k, (t.kids[k].0, t.kids[k].1)) =~= t.kids);
    }
}

/// After insertion the tree has the words it had, and the new word where
/// the walk did not meet it.
pub proof fn lemma_insert_inside<D: Metric>(t: Tree, d: D, w: Seq<char>, x: Seq<char>)
    ensures
        inside(insert(t, d, w), x) <==> inside(t, x) || (x == w && !holds(t, d, w)),
    decreases t,
{
    let e = d.dist(t.word, w);
    let k = edge_index(t.kids, e);
    let r = insert(t, d, w);
    lemma_edge_from(t.kids, e, 0);
    if e != 0 {
        if 0 <= k < t.kids.len() {
            lemma_insert_inside(t.kids[k].0, d, w, x);
            assert(r.kids[k].0 == insert(t.kids[k].0, d, w));
            if inside(r, x) && r.word != x {
                let i = choose|i: int| 0 <= i < r.kids.len() && inside((#[trigger] r.kids[i]).0, x);
                if i != k {
                    assert(r.kids[i] == t.kids[i]);
                    assert(inside(t.kids[i].0, x));
                } else if inside(t.kids[k].0, x) {
                    assert(inside(t, x));
                }
            }
            if inside(t, x) && t.word != x {
                let i = choose|i: int| 0 <= i < t.kids.len() && inside((#[trigger] t.kids[i]).0, x);
                if i != k {
                    assert(r.kids[i] == t.kids[i]);
                }
                assert(inside(r.kids[i].0, x));
            }
            if x == w && !holds(t, d, w) {
                assert(inside(r.kids[k].0, x));
            }
        } else {
            let n = t.kids.len() as int;
            assert(r.kids[n].0 == leaf(w));
            if inside(r, x) && r.word != x {
                let i = choose|i: int| 0 <= i < r.kids.len() && inside((#[trigger] r.kids[i]).0, x);
                if i < n {
                    assert(r.kids[i] == t.kids[i]);
                    assert(inside(t.kids[i].0, x));
                }
            }
            if inside(t, x) && t.word != x {
                let i = choose|i: int| 0 <= i < t.kids.len() && inside((#[trigger] t.kids[i]).0, x);
                assert(r.kids[i] == t.kids[i]);
                assert(inside(r.kids[i].0, x));
            }
            if x == w {
                assert(inside(r.kids[n].0, x));
            }
        }
    }
}

/// Every word of a subtree whose words are all at distance `e` from
/// `center` is at that distance.
pub proof fn lemma_all_at_inside<D: Metric>(t: Tree, d: D, center: Seq<char>, e: nat, x: Seq<char>)
    requires
        all_at(t, d, center, e),
        inside(t, x),
    ensures
        d.comparable(center, x),
        d.dist(center, x) == e,
    decreases t,
{
    if t.word != x {
        let i = choose|i: int| 0 <= i < t.kids.len() && inside((#[trigger] t.kids[i]).0, x);
        lemma_all_at_inside(t.kids[i].0, d, center, e, x);
    }
}

/// In a BK-tree the walk of insertion meets a word at distance zero from
/// `w` exactly if the tree has such a word.
pub proof fn lemma_holds_iff_present<D: Metric>(t: Tree, d: D, w: Seq<char>)
    requires
        well_formed(t, d),
        d.comparable(t.word, w),
    ensures
        holds(t, d, w) <==> exists|x: Seq<char>| inside(t, x) && #[trigger] d.dist(x, w) == 0,
    decreases t,
{
    let e = d.dist(t.word, w);
    let k = edge_index(t.kids, e);
    lemma_edge_from(t.kids, e, 0);
    if e == 0 {
        assert(inside(t, t.word) && d.dist(t.word, w) == 0);
    } else {
        if 0 <= k < t.kids.len() {
            let kid = t.kids[k].0;
            assert(all_at(kid, d, t.word, t.kids[k].1));
            d.comparable_is_equivalence(t.word, kid.word, w);
            d.comparable_is_equivalence(kid.word, t.word, w);
            lemma_holds_iff_present(kid, d, w);
            if holds(t, d, w) {
                let x = choose|x: Seq<char>| inside(kid, x) && #[trigger] d.dist(x, w) == 0;
                assert(inside(t, x));
            }
        }
        if exists|x: Seq<char>| inside(t, x) && #[trigger] d.dist(x, w) == 0 {
            let x = choose|x: Seq<char>| inside(t, x) && #[trigger] d.dist(x, w) == 0;
            let i = choose|i: int| 0 <= i < t.kids.len() && inside((#[trigger] t.kids[i]).0, x);
            let f = t.kids[i].1;
            assert(all_at(t.kids[i].0, d, t.word, f));
            lemma_all_at_inside(t.kids[i].0, d, t.word, f, x);
            // x is at distance f from the root's word and at distance zero
            // from w, so w is at distance f from the root's word too
            d.comparable_is_equivalence(t.word, x, w);
            d.comparable_is_equivalence(x, t.word, w);
            d.comparable_is_equivalence(x, w, t.word);
            d.dist_triangle(t.word, x, w);
            d.dist_triangle(t.word, w, x);
            d.dist_symmetric(x, w);
            assert(f == e);
            if i < k {
                assert(t.kids[i].1 != e);
            }
            if k < i {
                assert(t.kids[k].1 != t.kids[i].1);
            }
            assert(i == k);
        }
    }
}

/// Whether the tree with root `root` is a BK-tree under `d`.
pub open spec fn sound<D: Metric>(root: Option<Tree>, d: D) -> bool {
    match root {
        None => true,
        Some(t) => well_formed(t, d),
    }
}

/// Whether `w` can go into the tree with root `root`: always into an empty
/// one, else where it is comparable with the root's word.
pub open spec fn accepts<D: Metric>(root: Option<Tree>, d: D, w: Seq<char>) -> bool {
    match root {
        None => true,
        Some(t) => d.comparable(t.word, w),
    }
}

/// The tree after `w` was inserted: `w` alone where there was none.
pub open spec fn grow<D: Metric>(root: Option<Tree>, d: D, w: Seq<char>) -> Option<Tree> {
    match root {
        None => Some(leaf(w)),
        Some(t) => Some(insert(t, d, w)),
    }
}

/// Whether the walk that insertion makes meets a word at distance zero from `w`.
pub open spec fn indexed<D: Metric>(root: Option<Tree>, d: D, w: Seq<char>) -> bool {
    match root {
        None => false,
        Some(t) => holds(t, d, w),
    }
}

/// The number of words in the tree with root `root`.
pub open spec fn count(root: Option<Tree>) -> nat {
    match root {
        None => 0,
        Some(t) => size(t),
    }
}

/// What becomes of the tree with root `root` when the words `ws` are
/// inserted one after the other: the tree that is left, and whether every
/// word was taken. The first word that the tree does not accept ends it.
pub open spec fn load<D: Metric>(root: Option<Tree>, d: D, ws: Seq<Seq<char>>) -> (
    Option<Tree>,
    bool,
)
    decreases ws.len(),
{
    if ws.len() == 0 {
        (root, true)
    } else if !accepts(root, d, ws[0]) {
        (root, false)
    } else {
        load(grow(root, d, ws[0]), d, ws.drop_first())
    }
}

} // verus!
