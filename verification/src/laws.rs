//! What holds of a BK-tree whatever words go into it and whatever is asked
//! of it, stated over the model.

use crate::metric::Metric;
use crate::model::{
    accepts, count, grow, holds, indexed, inside, insert, leaf, lemma_holds_iff_present,
    lemma_insert_inside, lemma_insert_present, lemma_insert_size, lemma_insert_twice,
    lemma_insert_well_formed, lemma_size_unfold, load, sound, subtrees, Tree,
};
use crate::search::{
    all_words, bfs, is_first_nearest, is_nearest, lemma_bfs_distinct, lemma_within_contains,
    lemma_within_distinct, lemma_words, within, words,
};
use vstd::prelude::*;

verus! {

/// After `w` alone went into an empty tree, the words within distance zero
/// of `w` are `w` itself, at distance zero.
pub proof fn law_single_word<D: Metric>(d: D, w: Seq<char>)
    ensures
        grow(None, d, w) == Some(leaf(w)),
        all_words(grow(None, d, w)) == seq![w],
        within(d, all_words(grow(None, d, w)), w, 0) == seq![(w, 0nat)],
{
    let t = leaf(w);
    d.dist_to_self(w);
    assert(subtrees(t) =~= Seq::<Tree>::empty());
    assert(seq![t].drop_first() + subtrees(t) =~= Seq::<Tree>::empty());
    assert(bfs(Seq::<Tree>::empty()) =~= Seq::<Tree>::empty());
    assert(bfs(seq![t]) =~= seq![t]);
    assert(words(t) =~= seq![w]);
    assert(seq![w].drop_first() =~= Seq::<Seq<char>>::empty());
    assert(within(d, seq![w].drop_first(), w, 0) =~= Seq::empty());
    assert(within(d, seq![w], w, 0) =~= seq![(w, 0nat)]);
}

/// Inserting a word a second time leaves the tree as the first insertion
/// left it: the same words in the same places, and so the same count and
/// the same answers to every search.
pub proof fn law_insert_twice<D: Metric>(root: Option<Tree>, d: D, w: Seq<char>)
    ensures
        grow(grow(root, d, w), d, w) == grow(root, d, w),
        count(grow(grow(root, d, w), d, w)) == count(grow(root, d, w)),
        indexed(grow(root, d, w), d, w),
{
    d.dist_to_self(w);
    match root {
        None => {},
        Some(t) => {
            lemma_insert_twice(t, d, w);
        },
    }
}

/// Insertion keeps a BK-tree one, and leaves the word at its root there.
pub proof fn law_insert_sound<D: Metric>(root: Option<Tree>, d: D, w: Seq<char>)
    requires
        sound(root, d),
        accepts(root, d, w),
    ensures
        sound(grow(root, d, w), d),
        root matches Some(t) ==> grow(root, d, w)->Some_0.word == t.word,
{
    match root {
        None => {},
        Some(t) => {
            lemma_insert_well_formed(t, d, w);
        },
    }
}

/// A BK-tree is a set of words: inserting `w` adds it where no word at
/// distance zero from `w` is there, and else changes nothing. Every word
/// that was there stays, and the count is the number of words.
pub proof fn law_insert_words<D: Metric>(root: Option<Tree>, d: D, w: Seq<char>, x: Seq<char>)
    requires
        sound(root, d),
        accepts(root, d, w),
    ensures
        indexed(root, d, w) <==> exists|y: Seq<char>|
            all_words(root).contains(y) && #[trigger] d.dist(y, w) == 0,
        indexed(root, d, w) ==> grow(root, d, w) == root,
        all_words(grow(root, d, w)).contains(x) <==> all_words(root).contains(x) || (x == w
            && !indexed(root, d, w)),
        all_words(grow(root, d, w)).len() == count(grow(root, d, w)),
        count(grow(root, d, w)) == count(root) + if indexed(root, d, w) {
            0nat
        } else {
            1nat
        },
{
    match root {
        None => {
            law_single_word(d, w);
            lemma_words(leaf(w), x);
            assert(all_words(root) =~= Seq::<Seq<char>>::empty());
            lemma_size_unfold(leaf(w));
            assert(subtrees(leaf(w)) =~= Seq::<Tree>::empty());
        },
        Some(t) => {
            lemma_holds_iff_present(t, d, w);
            if holds(t, d, w) {
                let y = choose|y: Seq<char>| inside(t, y) && #[trigger] d.dist(y, w) == 0;
                lemma_words(t, y);
                lemma_insert_present(t, d, w);
            }
            if exists|y: Seq<char>| words(t).contains(y) && #[trigger] d.dist(y, w) == 0 {
                let y = choose|y: Seq<char>| words(t).contains(y) && #[trigger] d.dist(y, w) == 0;
                lemma_words(t, y);
            }
            lemma_insert_inside(t, d, w, x);
            lemma_words(t, x);
            lemma_words(insert(t, d, w), x);
            lemma_insert_size(t, d, w);
        },
    }
}

/// Loading words keeps a BK-tree one, and leaves the word at its root there.
pub proof fn law_load_sound<D: Metric>(root: Option<Tree>, d: D, ws: Seq<Seq<char>>)
    requires
        sound(root, d),
    ensures
        sound(load(root, d, ws).0, d),
        root matches Some(t) ==> load(root, d, ws).0 is Some && load(root, d, ws).0->Some_0.word
            == t.word,
    decreases ws.len(),
{
    if ws.len() != 0 && accepts(root, d, ws[0]) {
        law_insert_sound(root, d, ws[0]);
        law_load_sound(grow(root, d, ws[0]), d, ws.drop_first());
    }
}

/// After loading, the tree has the words it had and no others than those
/// that were to be loaded.
pub proof fn law_load_words<D: Metric>(root: Option<Tree>, d: D, ws: Seq<Seq<char>>, x: Seq<char>)
    requires
        sound(root, d),
    ensures
        all_words(root).contains(x) ==> all_words(load(root, d, ws).0).contains(x),
        all_words(load(root, d, ws).0).contains(x) ==> all_words(root).contains(x) || ws.contains(x),
    decreases ws.len(),
{
    if ws.len() != 0 && accepts(root, d, ws[0]) {
        let next = grow(root, d, ws[0]);
        law_insert_sound(root, d, ws[0]);
        law_insert_words(root, d, ws[0], x);
        law_load_words(next, d, ws.drop_first(), x);
        if ws.drop_first().contains(x) {
            let j = choose|j: int| 0 <= j < ws.drop_first().len() && ws.drop_first()[j] == x;
            assert(ws[j + 1] == x);
        }
    }
}

/// Where loading took every word, each of them is in the tree afterwards,
/// or a word at distance zero from it is.
pub proof fn law_load_indexed<D: Metric>(root: Option<Tree>, d: D, ws: Seq<Seq<char>>, i: int)
    requires
        sound(root, d),
        load(root, d, ws).1,
        0 <= i < ws.len(),
    ensures
        indexed(load(root, d, ws).0, d, ws[i]),
    decreases ws.len(),
{
    let next = grow(root, d, ws[0]);
    let rest = ws.drop_first();
    let last = load(root, d, ws).0;
    law_insert_sound(root, d, ws[0]);
    if i == 0 {
        // the word is in the tree once it is inserted, and loading the
        // rest takes no word away
        let w = ws[0];
        law_insert_twice(root, d, w);
        law_load_sound(next, d, rest);
        d.comparable_is_equivalence(w, w, w);
        law_insert_words(next, d, w, w);
        let y = choose|y: Seq<char>| all_words(next).contains(y) && #[trigger] d.dist(y, w) == 0;
        law_load_words(next, d, rest, y);
        law_insert_words(last, d, w, w);
    } else {
        law_load_indexed(next, d, rest, i - 1);
    }
}

/// A BK-tree holds no word twice, and so no word comes twice among the
/// words within a distance of another.
pub proof fn law_words_distinct<D: Metric>(root: Option<Tree>, d: D, q: Seq<char>, k: nat)
    requires
        sound(root, d),
    ensures
        all_words(root).no_duplicates(),
        within(d, all_words(root), q, k).no_duplicates(),
{
    match root {
        None => {},
        Some(t) => {
            lemma_bfs_distinct(seq![t], d);
        },
    }
    lemma_within_distinct(d, all_words(root), q, k);
}

/// The words within distance `k` of `q` are what a scan of every word of
/// the tree gives: a pair is among them exactly if its word is in the tree,
/// its distance is that word's distance from `q`, and that is at most `k`.
pub proof fn law_within_is_linear_scan<D: Metric>(
    root: Option<Tree>,
    d: D,
    q: Seq<char>,
    k: nat,
    p: (Seq<char>, nat),
)
    ensures
        within(d, all_words(root), q, k).contains(p) <==> all_words(root).contains(p.0) && p.1
            == d.dist(p.0, q) && p.1 <= k,
{
    lemma_within_contains(d, all_words(root), q, k, p);
}

/// What a search for the nearest word owes is one word, it is a word of the
/// tree, and no word of the tree is closer to `q`.
pub proof fn law_nearest<D: Metric>(
    root: Option<Tree>,
    d: D,
    q: Seq<char>,
    found: Option<Seq<char>>,
    other: Option<Seq<char>>,
)
    requires
        is_nearest(root, d, q, found),
    ensures
        found is Some <==> root is Some,
        found matches Some(w) ==> all_words(root).contains(w) && forall|x: Seq<char>|
            all_words(root).contains(x) ==> d.dist(w, q) <= #[trigger] d.dist(x, q),
        is_nearest(root, d, q, other) ==> other == found,
{
    match root {
        None => {},
        Some(t) => {
            let ws = words(t);
            let i = choose|i: int| is_first_nearest(d, ws, q, i) && found == Some(#[trigger] ws[i]);
            assert forall|x: Seq<char>| ws.contains(x) implies d.dist(ws[i], q) <= #[trigger] d.dist(
                x,
                q,
            ) by {
                let j = choose|j: int| 0 <= j < ws.len() && ws[j] == x;
                assert(d.dist(ws[i], q) <= d.dist(ws[j], q));
            }
            if is_nearest(root, d, q, other) {
                let j = choose|j: int|
                    is_first_nearest(d, ws, q, j) && other == Some(#[trigger] ws[j]);
                if i < j {
                    assert(d.dist(ws[j], q) < d.dist(ws[i], q));
                    assert(d.dist(ws[i], q) <= d.dist(ws[j], q));
                }
                if j < i {
                    assert(d.dist(ws[i], q) < d.dist(ws[j], q));
                    assert(d.dist(ws[j], q) <= d.dist(ws[i], q));
                }
            }
        },
    }
}

} // verus!
