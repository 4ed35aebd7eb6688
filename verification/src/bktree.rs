//! The BK-tree itself: nodes that own their subtrees, insertion, and the two
//! pruned breadth-first searches.

use crate::fold::Folded;
use crate::metric::{Metric, MetricError};
use crate::model::{
    accepts, all_at, count, edge_from, edge_index, grow, holds, indexed, insert, leaf,
    lemma_insert_size, lemma_insert_well_formed, lemma_size_unfold, lemma_weight_add,
    lemma_weight_one, load, sound, subtrees, weight, well_formed, Tree,
};
use crate::pattern::{
    anchored, anchored_line, compile_whole, compiles, is_match_of, tells, whole_word,
    PatternError,
};
use crate::search::{
    all_words, better, bfs, is_nearest, keep, labels, lemma_keep_add, lemma_keep_nothing,
    lemma_keep_one, lemma_labels_add, lemma_out_of_reach, lemma_prune_scan, lemma_prune_within,
    lemma_scan_first_nearest, lemma_within_add, scan, within, words,
};
use regex::Regex;
use std::collections::VecDeque;
use vstd::pervasive::unreached;
use vstd::prelude::*;

verus! {

/// A single node of a BK-tree: its word, and its subtrees with the distance
/// on the edge to each.
pub struct BKNode {
    /// The word stored in the node.
    val: String,
    /// The node's subtrees, each with the distance between its words and `val`.
    children: Vec<(BKNode, usize)>,
}

impl BKNode {
    /// The node and what is below it, as a mathematical tree.
    pub closed spec fn shape(&self) -> Tree
        decreases self,
    {
        Tree {
            word: self.val@,
            kids: Seq::new(
                self.children@.len(),
                |i: int|
                    if 0 <= i < self.children@.len() {
                        (self.children@[i].0.shape(), self.children@[i].1 as nat)
                    } else {
                        arbitrary()
                    },
            ),
        }
    }

    /// A node that holds `s` and has no subtrees.
    #[inline]
    pub fn new(s: &str) -> (node: Self)
        ensures
            node.shape() == leaf(s@),
    {
        let node = BKNode { val: s.to_owned(), children: Vec::new() };
        assert(node.shape().kids =~= Seq::empty());
        node
    }

    /// The position of the first subtree whose edge carries `d`.
    fn find_edge(&self, d: usize) -> (r: Option<usize>)
        ensures
            match r {
                Some(k) => k == edge_index(self.shape().kids, d as nat) && k < self.children.len(),
                None => edge_index(self.shape().kids, d as nat) == self.children.len(),
            },
    {
        let ghost kids = self.shape().kids;
        let mut i: usize = 0;
        while i < self.children.len()
            invariant
                i <= self.children.len(),
                kids == self.shape().kids,
                edge_from(kids, d as nat, 0) == edge_from(kids, d as nat, i as int),
            decreases self.children.len() - i,
        {
            if self.children[i].1 == d {
                return Some(i);
            }
            i += 1;
        }
        None
    }
}

impl View for BKNode {
    type V = Tree;

    open spec fn view(&self) -> Tree {
        self.shape()
    }
}

/// Inserts `word` below `root` by walking down from it, and says whether
/// the tree grew.
#[verifier::loop_isolation(false)]
fn insert_below<M: Metric>(
    root: &mut BKNode,
    space: &Folded<M>,
    word: &str,
    key: &str,
    first: usize,
) -> (added: bool)
    requires
        well_formed(old(root).shape(), *space),
        space.comparable(old(root).shape().word, word@),
        key@ == space.key(word@),
        first == space.dist(old(root).shape().word, word@),
    ensures
        final(root).shape() == insert(old(root).shape(), *space, word@),
        added == !holds(old(root).shape(), *space, word@),
{
    let ghost orig = root.shape();
    let ghost fin = *final(root);
    let mut dist = first;
    let mut curr = &mut *root;
    loop
        invariant
            final(curr).shape() == insert(curr.shape(), *space, word@) ==> after_borrow(
                *root,
            ).shape() == insert(orig, *space, word@),
            after_borrow(*root) == fin,
            orig == old(root).shape(),
            holds(curr.shape(), *space, word@) == holds(orig, *space, word@),
            well_formed(curr.shape(), *space),
            space.comparable(curr.shape().word, word@),
            dist == space.dist(curr.shape().word, word@),
        decreases *curr,
    {
        let ghost before = curr.shape();
        let ghost target = *final(curr);
        if dist == 0 {
            return false;
        }
        match curr.find_edge(dist) {
            None => {
                curr.children.push((BKNode::new(word), dist));
                assert(curr.shape().kids =~= before.kids.push((leaf(word@), dist as nat)));
                return true;
            },
            Some(k) => {
                let ghost kid = curr.children@[k as int].0.shape();
                let ghost olds = curr.children@;
                proof {
                    assert(before.kids[k as int] == (kid, olds[k as int].1 as nat));
                    assert(all_at(kid, *space, before.word, before.kids[k as int].1));
                    space.comparable_is_equivalence(before.word, kid.word, word@);
                    space.comparable_is_equivalence(kid.word, before.word, word@);
                }
                let next = &mut curr.children[k].0;
                assert(final(next).shape() == insert(kid, *space, word@) ==> target.shape()
                    == insert(before, *space, word@)) by {
                    if final(next).shape() == insert(kid, *space, word@) {
                        assert(target.val == curr.val);
                        assert(target.children@.len() == olds.len());
                        assert(target.children@[k as int].0 == *final(next));
                        assert(target.children@[k as int].1 == olds[k as int].1);
                        assert(forall|j: int|
                            0 <= j < olds.len() && j != k ==> target.children@[j] == olds[j]);
                        assert(target.shape().kids =~= before.kids.update(
                            k as int,
                            (insert(kid, *space, word@), before.kids[k as int].1),
                        ));
                    }
                }
                // the words of a tree are comparable with one another
                let next_dist = match space.distance_to_key(next.val.as_str(), key) {
                    Ok(d) => d,
                    Err(_) => unreached(),
                };
                curr = next;
                dist = next_dist;
            },
        }
    }
}

/// The trees of the nodes in `nodes`, in order.
spec fn shapes(nodes: Seq<&BKNode>) -> Seq<Tree> {
    Seq::new(nodes.len(), |i: int| nodes[i].shape())
}

/// The words and distances in `found`, in order.
pub open spec fn pairs(found: Seq<(&str, usize)>) -> Seq<(Seq<char>, nat)> {
    Seq::new(found.len(), |i: int| (found[i].0@, found[i].1 as nat))
}

/// The word that was found, if any.
pub open spec fn word_of(found: Option<&String>) -> Option<Seq<char>> {
    match found {
        None => None,
        Some(s) => Some(s@),
    }
}

/// The candidate of a search that is under way, if any: its word and distance.
spec fn candidate(best: Option<(&BKNode, usize)>) -> Option<(Seq<char>, nat)> {
    match best {
        None => None,
        Some((node, x)) => Some((node.shape().word, x as nat)),
    }
}

/// The texts of `corpus`, in order.
pub open spec fn texts(corpus: Seq<&str>) -> Seq<Seq<char>> {
    Seq::new(corpus.len(), |i: int| corpus[i]@)
}

/// The texts of `lines`, in order.
pub open spec fn lines_of(lines: Seq<String>) -> Seq<Seq<char>> {
    Seq::new(lines.len(), |i: int| lines[i]@)
}

/// Whether every node of `queue` is the root of a BK-tree whose word is
/// comparable with `word`.
spec fn ready<M: Metric>(queue: Seq<&BKNode>, space: Folded<M>, word: Seq<char>) -> bool {
    forall|j: int|
        0 <= j < queue.len() ==> {
            &&& well_formed((#[trigger] queue[j]).shape(), space)
            &&& space.comparable(queue[j].shape().word, word)
        }
}

/// What is left of a queue after its first node was taken off.
proof fn lemma_popped<M: Metric>(
    before: Seq<&BKNode>,
    after: Seq<&BKNode>,
    space: Folded<M>,
    word: Seq<char>,
)
    requires
        before.len() > 0,
        after == before.subrange(1, before.len() as int),
    ensures
        shapes(after) == shapes(before).drop_first(),
        shapes(before)[0] == before[0].shape(),
        shapes(before) == seq![before[0].shape()] ==> ready(after, space, word),
        ready(before, space, word) ==> ready(after, space, word),
        weight(shapes(before)) == 1 + weight(subtrees(before[0].shape())) + weight(shapes(after)),
{
    assert(shapes(after) =~= shapes(before).drop_first());
    lemma_size_unfold(before[0].shape());
    if ready(before, space, word) {
        assert forall|j: int| 0 <= j < after.len() implies {
            &&& well_formed((#[trigger] after[j]).shape(), space)
            &&& space.comparable(after[j].shape().word, word)
        } by {
            assert(after[j] == before[j + 1]);
        }
    }
}

/// Puts at the back of `queue` the subtrees of `u` that may hold a word
/// within `slack` of the word searched for: those whose edge differs by no
/// more than `slack` from the distance `dist` between that word and the
/// word of `u`.
fn enqueue_near<'a, M: Metric>(
    queue: &mut VecDeque<&'a BKNode>,
    u: &'a BKNode,
    space: &Folded<M>,
    dist: usize,
    slack: usize,
    Ghost(word): Ghost<Seq<char>>,
)
    requires
        ready(old(queue)@, *space, word),
        well_formed(u.shape(), *space),
        space.comparable(u.shape().word, word),
        dist == space.dist(u.shape().word, word),
    ensures
        ready(final(queue)@, *space, word),
        keep(shapes(final(queue)@), *space, word, (slack + 1) as nat) == keep(
            shapes(old(queue)@) + subtrees(u.shape()),
            *space,
            word,
            (slack + 1) as nat,
        ),
        weight(shapes(final(queue)@)) <= weight(shapes(old(queue)@)) + weight(
            subtrees(u.shape()),
        ),
{
    let ghost hs = u.shape();
    let ghost sub = subtrees(hs);
    let ghost tail = shapes(queue@);
    let ghost bound = (slack + 1) as nat;
    proof {
        assert(tail + sub.take(0) =~= tail);
        assert(sub.skip(0) =~= sub);
    }
    let mut i: usize = 0;
    while i < u.children.len()
        invariant
            i <= u.children.len(),
            hs == u.shape(),
            sub == subtrees(hs),
            bound == slack + 1,
            well_formed(hs, *space),
            space.comparable(hs.word, word),
            dist == space.dist(hs.word, word),
            ready(queue@, *space, word),
            keep(shapes(queue@), *space, word, bound) == keep(
                tail + sub.take(i as int),
                *space,
                word,
                bound,
            ),
            weight(shapes(queue@)) + weight(sub.skip(i as int)) <= weight(tail) + weight(sub),
        decreases u.children.len() - i,
    {
        let ghost kid = u.children@[i as int].0.shape();
        let ghost queued = shapes(queue@);
        let ghost queue_mid = queue@;
        let edge = u.children[i].1;
        let gap = if edge >= dist {
            edge - dist
        } else {
            dist - edge
        };
        proof {
            assert(hs.kids[i as int] == (kid, edge as nat));
            assert(sub[i as int] == kid);
            assert(all_at(kid, *space, hs.word, edge as nat));
            space.comparable_is_equivalence(hs.word, kid.word, word);
            space.comparable_is_equivalence(kid.word, hs.word, word);
            assert(tail + sub.take(i + 1) =~= (tail + sub.take(i as int)) + seq![kid]);
            lemma_keep_add(tail + sub.take(i as int), seq![kid], *space, word, bound);
            lemma_keep_add(queued, seq![kid], *space, word, bound);
            lemma_keep_one(kid, *space, word, bound);
            assert(sub.skip(i as int) =~= seq![kid] + sub.skip(i + 1));
            lemma_weight_add(seq![kid], sub.skip(i + 1));
            lemma_weight_add(queued, seq![kid]);
            if gap > slack {
                lemma_out_of_reach(kid, *space, hs.word, edge as nat, word, bound);
                assert(keep(queued, *space, word, bound) + Seq::<Tree>::empty() =~= keep(
                    queued,
                    *space,
                    word,
                    bound,
                ));
            }
        }
        if gap <= slack {
            queue.push_back(&u.children[i].0);
            proof {
                assert(shapes(queue@) =~= queued + seq![kid]);
                assert forall|j: int| 0 <= j < queue@.len() implies {
                    &&& well_formed((#[trigger] queue@[j]).shape(), *space)
                    &&& space.comparable(queue@[j].shape().word, word)
                } by {
                    if j < queue_mid.len() {
                        assert(queue@[j] == queue_mid[j]);
                    }
                }
            }
        }
        i += 1;
    }
    proof {
        assert(sub.take(i as int) =~= sub);
        assert(sub.skip(i as int) =~= Seq::<Tree>::empty());
    }
}

/// A BK-tree of words under the metric `M`.
pub struct BKTree<M: Metric> {
    /// The root node of the tree; none until the first word is inserted.
    root: Option<Box<BKNode>>,
    /// The metric, with the choice to ignore case.
    space: Folded<M>,
    /// The number of nodes in the tree.
    node_count: usize,
    /// Words that this expression matches are passed over by `query`.
    ignore_re: Option<Regex>,
}

impl<M: Metric> View for BKTree<M> {
    type V = Option<Tree>;

    open spec fn view(&self) -> Option<Tree> {
        self.shape()
    }
}

impl<M: Metric> BKTree<M> {
    /// The tree as a mathematical value; `None` while it is empty.
    pub closed spec fn shape(&self) -> Option<Tree> {
        match self.root {
            None => None,
            Some(b) => Some(b.shape()),
        }
    }

    /// The metric by which the tree compares words.
    pub closed spec fn space(&self) -> Folded<M> {
        self.space
    }

    /// The ignore pattern, compiled, where one is set.
    pub closed spec fn pattern(&self) -> Option<Regex> {
        self.ignore_re
    }

    /// The invariant of the tree: it is a BK-tree under its metric, and
    /// counts its words.
    pub closed spec fn wf(&self) -> bool {
        &&& self.node_count == count(self.shape())
        &&& sound(self.shape(), self.space)
    }

    /// The words in the tree, in breadth-first order.
    pub open spec fn words(&self) -> Seq<Seq<char>> {
        all_words(self.shape())
    }

    /// Whether the tree has an ignore pattern that matches `word`.
    pub open spec fn ignores(&self, word: Seq<char>) -> bool {
        match self.pattern() {
            None => false,
            Some(re) => is_match_of(re, word),
        }
    }

    /// What the invariant says: the tree is a BK-tree under its metric.
    pub proof fn lemma_wf_sound(&self)
        requires
            self.wf(),
        ensures
            sound(self.shape(), self.space()),
    {
    }

    /// An empty tree under `metric`, which ignores case where `ignore_case` is set.
    pub fn new(metric: M, ignore_case: bool) -> (tree: Self)
        ensures
            tree.wf(),
            tree.shape() is None,
            tree.space() == (Folded { metric, fold: ignore_case }),
            tree.pattern() is None,
    {
        BKTree {
            root: None,
            space: Folded { metric, fold: ignore_case },
            node_count: 0,
            ignore_re: None,
        }
    }

    /// The number of words in the tree.
    pub fn len(&self) -> (n: usize)
        requires
            self.wf(),
        ensures
            n == count(self.shape()),
    {
        self.node_count
    }

    /// Sets the tree's ignore pattern: `query` finds nothing for a word that
    /// the pattern matches from its first character to its last.
    ///
    /// A pattern that the compiler takes is set, compiled between the
    /// anchors of start and end. A pattern that the compiler refuses is
    /// refused at once with what the compiler said, and the tree keeps the
    /// pattern it had; so is one that the anchors take over a limit of the
    /// compiler.
    pub fn ignore(&mut self, re: &str) -> (r: Result<(), PatternError>)
        ensures
            final(self).shape() == old(self).shape(),
            final(self).space() == old(self).space(),
            final(self).wf() == old(self).wf(),
            r is Ok <==> compiles(re@) && (compiles(anchored(re@)) || compiles(
                anchored_line(re@),
            )),
            match whole_word(re@) {
                Ok(pattern) => r is Ok && final(self).pattern() == Some(pattern),
                Err(e) => r matches Err(refused) && tells(e, refused) && final(self).pattern()
                    == old(self).pattern(),
            },
    {
        self.ignore_given(compile_whole(re))
    }

    /// What `ignore` does once the pattern went through the compiler: a
    /// compiled pattern becomes the tree's ignore pattern, and a refusal is
    /// handed on and leaves the tree with the pattern it had.
    pub fn ignore_given(&mut self, compiled: Result<Regex, PatternError>) -> (r: Result<
        (),
        PatternError,
    >)
        ensures
            final(self).shape() == old(self).shape(),
            final(self).space() == old(self).space(),
            final(self).wf() == old(self).wf(),
            match compiled {
                Ok(pattern) => r is Ok && final(self).pattern() == Some(pattern),
                Err(refused) => r == Err::<(), PatternError>(refused) && final(self).pattern()
                    == old(self).pattern(),
            },
    {
        match compiled {
            Ok(pattern) => {
                self.ignore_re = Some(pattern);
                Ok(())
            },
            Err(refused) => Err(refused),
        }
    }

    /// Inserts `word`, unless a word at distance zero from it is there already.
    ///
    /// Fails, and leaves the tree as it was, where the distance between
    /// `word` and the words of the tree is not defined.
    pub fn add_word(&mut self, word: &str) -> (r: Result<(), MetricError>)
        requires
            old(self).wf(),
            count(old(self).shape()) < usize::MAX,
        ensures
            final(self).wf(),
            final(self).space() == old(self).space(),
            final(self).pattern() == old(self).pattern(),
            r is Ok <==> accepts(old(self).shape(), old(self).space(), word@),
            r is Ok ==> final(self).shape() == grow(old(self).shape(), old(self).space(), word@),
            r is Err ==> final(self).shape() == old(self).shape(),
            count(final(self).shape()) == count(old(self).shape()) + if r is Ok && !indexed(
                old(self).shape(),
                old(self).space(),
                word@,
            ) {
                1nat
            } else {
                0nat
            },
    {
        match &mut self.root {
            None => {
                self.root = Some(Box::new(BKNode::new(word)));
                self.node_count = 1;
                proof {
                    lemma_size_unfold(leaf(word@));
                    assert(subtrees(leaf(word@)) =~= Seq::<Tree>::empty());
                }
                Ok(())
            },
            Some(root) => {
                let key = self.space.key_of(word);
                let first = match self.space.distance_to_key(root.val.as_str(), key.as_str()) {
                    Ok(d) => d,
                    Err(e) => {
                        return Err(e);
                    },
                };
                proof {
                    lemma_insert_well_formed(root.shape(), self.space, word@);
                    lemma_insert_size(root.shape(), self.space, word@);
                }
                let added = insert_below(&mut **root, &self.space, word, key.as_str(), first);
                if added {
                    self.node_count += 1;
                }
                Ok(())
            },
        }
    }

    /// Every word of the tree within distance `k` of `word`, each with its
    /// distance, in the order in which a breadth-first walk of the tree
    /// meets them.
    ///
    /// Fails where the distance between `word` and the words of the tree
    /// is not defined.
    #[verifier::loop_isolation(false)]
    pub fn corrections<'a>(&'a self, word: &str, k: usize) -> (r: Result<
        Vec<(&'a str, usize)>,
        MetricError,
    >)
        requires
            self.wf(),
        ensures
            r is Ok <==> accepts(self.shape(), self.space(), word@),
            r matches Ok(found) ==> pairs(found@) == within(
                self.space(),
                self.words(),
                word@,
                k as nat,
            ),
    {
        let mut found: Vec<(&'a str, usize)> = Vec::new();
        let root: &'a BKNode = match &self.root {
            None => {
                assert(pairs(found@) =~= Seq::empty());
                return Ok(found);
            },
            Some(b) => &**b,
        };
        let key = self.space.key_of(word);
        let mut queue: VecDeque<&'a BKNode> = VecDeque::new();
        queue.push_back(root);
        let ghost top = root.shape();
        let ghost goal = within(self.space, words(top), word@, k as nat);
        proof {
            assert(shapes(queue@) =~= seq![top]);
            assert(pairs(found@) + goal =~= goal);
        }
        loop
            invariant
                ready(queue@, self.space, word@) || shapes(queue@) == seq![top],
                self.space.comparable(top.word, word@) || shapes(queue@) == seq![top],
                pairs(found@) + within(self.space, labels(bfs(shapes(queue@))), word@, k as nat)
                    == goal,
            decreases weight(shapes(queue@)),
        {
            let ghost before = shapes(queue@);
            let ghost found_before = pairs(found@);
            let ghost queue_before = queue@;
            let u = match queue.pop_front() {
                None => {
                    break;
                },
                Some(u) => u,
            };
            let ghost rest = before.drop_first() + subtrees(u.shape());
            proof {
                lemma_popped(queue_before, queue@, self.space, word@);
            }
            let dist = match self.space.distance_to_key(u.val.as_str(), key.as_str()) {
                Ok(d) => d,
                Err(e) => {
                    return Err(e);
                },
            };
            if dist <= k {
                found.push((u.val.as_str(), dist));
            }
            proof {
                let hs = u.shape();
                let hit = within(self.space, labels(seq![hs]), word@, k as nat);
                let more = within(self.space, labels(bfs(rest)), word@, k as nat);
                assert(labels(seq![hs]).drop_first() =~= Seq::<Seq<char>>::empty());
                assert(within(self.space, labels(seq![hs]).drop_first(), word@, k as nat)
                    =~= Seq::empty());
                assert(pairs(found@) =~= found_before + hit);
                lemma_labels_add(seq![hs], bfs(rest));
                lemma_within_add(self.space, labels(seq![hs]), labels(bfs(rest)), word@, k as nat);
                assert(found_before + (hit + more) =~= pairs(found@) + more);
            }
            enqueue_near(&mut queue, u, &self.space, dist, k, Ghost(word@));
            proof {
                lemma_prune_within(shapes(queue@), rest, self.space, word@, k as nat);
            }
        }
        proof {
            assert(shapes(queue@) =~= Seq::<Tree>::empty());
            assert(labels(bfs(shapes(queue@))) =~= Seq::<Seq<char>>::empty());
            assert(pairs(found@) + Seq::<(Seq<char>, nat)>::empty() =~= pairs(found@));
        }
        Ok(found)
    }

    /// The word of the tree nearest to `word`; of several nearest words the
    /// one that a breadth-first walk of the tree meets first. A word that is
    /// in the tree is its own nearest word. `None` in an empty tree.
    ///
    /// Fails where the distance between `word` and the words of the tree
    /// is not defined.
    #[verifier::loop_isolation(false)]
    pub fn nearest<'a>(&'a self, word: &str) -> (r: Result<Option<&'a String>, MetricError>)
        requires
            self.wf(),
        ensures
            r is Ok <==> accepts(self.shape(), self.space(), word@),
            r matches Ok(found) ==> is_nearest(self.shape(), self.space(), word@, word_of(found)),
    {
        let root: &'a BKNode = match &self.root {
            None => {
                return Ok(None);
            },
            Some(b) => &**b,
        };
        let key = self.space.key_of(word);
        let mut queue: VecDeque<&'a BKNode> = VecDeque::new();
        queue.push_back(root);
        let mut best: Option<(&'a BKNode, usize)> = None;
        let ghost top = root.shape();
        let ghost goal = scan(self.space, words(top), word@, None);
        proof {
            assert(shapes(queue@) =~= seq![top]);
        }
        loop
            invariant
                ready(queue@, self.space, word@) || shapes(queue@) == seq![top],
                self.space.comparable(top.word, word@) || shapes(queue@) == seq![top],
                best is None ==> shapes(queue@) == seq![top],
                scan(self.space, labels(bfs(shapes(queue@))), word@, candidate(best)) == goal,
            decreases weight(shapes(queue@)),
        {
            let ghost before = shapes(queue@);
            let ghost best_before = candidate(best);
            let ghost queue_before = queue@;
            let u = match queue.pop_front() {
                None => {
                    break;
                },
                Some(u) => u,
            };
            let ghost rest = before.drop_first() + subtrees(u.shape());
            proof {
                lemma_popped(queue_before, queue@, self.space, word@);
            }
            let dist = match self.space.distance_to_key(u.val.as_str(), key.as_str()) {
                Ok(d) => d,
                Err(e) => {
                    return Err(e);
                },
            };
            let limit = match best {
                Some((_, x)) if x <= dist => x,
                _ => {
                    best = Some((u, dist));
                    dist
                },
            };
            proof {
                let all = labels(bfs(before));
                assert(candidate(best) == better(best_before, u.shape().word, dist as nat));
                assert(all[0] == u.shape().word);
                assert(all.drop_first() =~= labels(bfs(rest)));
            }
            if limit > 0 {
                enqueue_near(&mut queue, u, &self.space, dist, limit - 1, Ghost(word@));
            } else {
                proof {
                    lemma_keep_nothing(shapes(queue@), self.space, word@);
                    lemma_keep_nothing(rest, self.space, word@);
                    lemma_size_unfold(u.shape());
                    lemma_weight_add(seq![u.shape()], before.drop_first());
                    lemma_weight_one(u.shape());
                }
            }
            proof {
                lemma_prune_scan(
                    shapes(queue@),
                    rest,
                    self.space,
                    word@,
                    candidate(best)->Some_0.0,
                    limit as nat,
                );
            }
        }
        proof {
            assert(shapes(queue@) =~= Seq::<Tree>::empty());
            assert(labels(bfs(shapes(queue@))) =~= Seq::<Seq<char>>::empty());
            assert(bfs(seq![top]).len() > 0);
            let at = lemma_scan_first_nearest(self.space, words(top), word@);
            assert(candidate(best) == Some((words(top)[at], self.space.dist(words(top)[at], word@))));
        }
        match best {
            None => Ok(None),
            Some((node, _)) => Ok(Some(&node.val)),
        }
    }

    /// What `query` returns for `word` once it is known whether the ignore
    /// pattern matches it: nothing for an ignored word, whatever the tree
    /// holds, and else the nearest word.
    pub fn query_given<'a>(&'a self, word: &str, ignored: bool) -> (r: Result<
        Option<&'a String>,
        MetricError,
    >)
        requires
            self.wf(),
        ensures
            ignored ==> r matches Ok(None),
            !ignored ==> (r is Ok <==> accepts(self.shape(), self.space(), word@)),
            !ignored ==> (r matches Ok(found) ==> is_nearest(
                self.shape(),
                self.space(),
                word@,
                word_of(found),
            )),
    {
        if ignored {
            Ok(None)
        } else {
            self.nearest(word)
        }
    }

    /// The word of the tree nearest to `word`, as `nearest` finds it, unless
    /// the tree has an ignore pattern that matches the whole of `word`: then
    /// nothing is found and the tree is not searched.
    ///
    /// The search is not limited by `k`: the nearest word is found however
    /// far it is.
    #[allow(unused_variables)]
    pub fn query<'a>(&'a self, word: &str, k: usize) -> (r: Result<Option<&'a String>, MetricError>)
        requires
            self.wf(),
        ensures
            self.ignores(word@) ==> r matches Ok(None),
            !self.ignores(word@) ==> (r is Ok <==> accepts(self.shape(), self.space(), word@)),
            !self.ignores(word@) ==> (r matches Ok(found) ==> is_nearest(
                self.shape(),
                self.space(),
                word@,
                word_of(found),
            )),
    {
        let ignored = match &self.ignore_re {
            None => false,
            Some(re) => re.is_match(word),
        };
        self.query_given(word, ignored)
    }

    /// Inserts `word`, in lower case where the tree ignores case.
    fn add_stored(&mut self, word: &str) -> (r: Result<(), MetricError>)
        requires
            old(self).wf(),
            count(old(self).shape()) < usize::MAX,
        ensures
            final(self).wf(),
            final(self).space() == old(self).space(),
            final(self).pattern() == old(self).pattern(),
            r is Ok <==> accepts(old(self).shape(), old(self).space(), old(self).space().key(word@)),
            r is Ok ==> final(self).shape() == grow(
                old(self).shape(),
                old(self).space(),
                old(self).space().key(word@),
            ),
            r is Err ==> final(self).shape() == old(self).shape(),
            count(final(self).shape()) <= count(old(self).shape()) + 1,
    {
        if self.space.fold {
            let lower = word.to_lowercase();
            self.add_word(lower.as_str())
        } else {
            self.add_word(word)
        }
    }

    /// Inserts the words of `corpus` in order, each in lower case where the
    /// tree ignores case.
    ///
    /// Stops at the first word whose distance to the words of the tree is
    /// not defined, and fails; the words before it stay inserted.
    pub fn read_vec(&mut self, corpus: Vec<&str>) -> (r: Result<(), MetricError>)
        requires
            old(self).wf(),
            count(old(self).shape()) + corpus@.len() <= usize::MAX,
        ensures
            final(self).wf(),
            final(self).space() == old(self).space(),
            final(self).pattern() == old(self).pattern(),
            (final(self).shape(), r is Ok) == load(
                old(self).shape(),
                old(self).space(),
                old(self).space().keys(texts(corpus@)),
            ),
    {
        let ghost all = self.space.keys(texts(corpus@));
        let mut i: usize = 0;
        assert(all.skip(0) =~= all);
        while i < corpus.len()
            invariant
                i <= corpus.len(),
                self.wf(),
                self.space() == old(self).space(),
                self.pattern() == old(self).pattern(),
                all == old(self).space().keys(texts(corpus@)),
                count(self.shape()) <= count(old(self).shape()) + i,
                count(old(self).shape()) + corpus@.len() <= usize::MAX,
                load(self.shape(), self.space(), all.skip(i as int)) == load(
                    old(self).shape(),
                    old(self).space(),
                    all,
                ),
            decreases corpus.len() - i,
        {
            proof {
                assert(all.skip(i as int)[0] == self.space().key(corpus@[i as int]@));
                assert(all.skip(i as int).drop_first() =~= all.skip(i + 1));
            }
            match self.add_stored(corpus[i]) {
                Ok(()) => {},
                Err(e) => {
                    return Err(e);
                },
            }
            i += 1;
        }
        Ok(())
    }

    /// Inserts the lines of a dictionary in order, each in lower case where
    /// the tree ignores case.
    ///
    /// Stops at the first line whose distance to the words of the tree is
    /// not defined, and fails; the lines before it stay inserted.
    pub fn read_dict(&mut self, lines: Vec<String>) -> (r: Result<(), MetricError>)
        requires
            old(self).wf(),
            count(old(self).shape()) + lines@.len() <= usize::MAX,
        ensures
            final(self).wf(),
            final(self).space() == old(self).space(),
            final(self).pattern() == old(self).pattern(),
            (final(self).shape(), r is Ok) == load(
                old(self).shape(),
                old(self).space(),
                old(self).space().keys(lines_of(lines@)),
            ),
    {
        let mut corpus: Vec<&str> = Vec::new();
        let mut i: usize = 0;
        while i < lines.len()
            invariant
                i <= lines.len(),
                corpus@.len() == i,
                forall|j: int| 0 <= j < i ==> (#[trigger] corpus@[j])@ == lines@[j]@,
            decreases lines.len() - i,
        {
            corpus.push(lines[i].as_str());
            i += 1;
        }
        assert(texts(corpus@) =~= lines_of(lines@));
        self.read_vec(corpus)
    }
}

} // verus!
