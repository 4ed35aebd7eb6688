//! Edit scripts: what the edit distance counts.

use crate::metric::{lemma_lev_triangle, lemma_lev_zero_iff_equal, lev_dist};
use vstd::prelude::*;

verus! {

/// A change of one character in a string.
pub enum Edit {
    /// Puts `c` in front of the character at position `at`, or at the end.
    Insert { at: int, c: char },
    /// Takes out the character at position `at`.
    Delete { at: int },
    /// Puts `c` in the place of the character at position `at`.
    Replace { at: int, c: char },
}

/// Whether `e` names a position that `s` has.
pub open spec fn fits(s: Seq<char>, e: Edit) -> bool {
    match e {
        Edit::Insert { at, c } => 0 <= at <= s.len(),
        Edit::Delete { at } => 0 <= at < s.len(),
        Edit::Replace { at, c } => 0 <= at < s.len(),
    }
}

/// The string that `e` makes of `s`.
pub open spec fn apply(s: Seq<char>, e: Edit) -> Seq<char> {
    match e {
        Edit::Insert { at, c } => s.insert(at, c),
        Edit::Delete { at } => s.remove(at),
        Edit::Replace { at, c } => s.update(at, c),
    }
}

/// Whether the edits of `es`, made one after the other, turn `a` into `b`.
pub open spec fn turns(a: Seq<char>, es: Seq<Edit>, b: Seq<char>) -> bool
    decreases es.len(),
{
    if es.len() == 0 {
        a == b
    } else {
        fits(a, es[0]) && turns(apply(a, es[0]), es.drop_first(), b)
    }
}

/// Two strings with a common ending are no further apart than what is in
/// front of it.
proof fn lemma_lev_common_suffix(x: Seq<char>, y: Seq<char>, z: Seq<char>)
    ensures
        lev_dist(x + z, y + z) <= lev_dist(x, y),
    decreases z.len(),
{
    if z.len() == 0 {
        assert(x + z =~= x);
        assert(y + z =~= y);
    } else {
        let z1 = z.drop_last();
        lemma_lev_common_suffix(x, y, z1);
        assert((x + z).drop_last() =~= x + z1);
        assert((y + z).drop_last() =~= y + z1);
    }
}

/// One edit moves a string by a distance of at most one.
pub proof fn lemma_lev_one_edit(s: Seq<char>, e: Edit)
    requires
        fits(s, e),
    ensures
        lev_dist(s, apply(s, e)) <= 1,
{
    match e {
        Edit::Insert { at, c } => {
            let pre = s.take(at);
            let post = s.skip(at);
            assert(s =~= pre + post);
            assert(apply(s, e) =~= (pre + seq![c]) + post);
            lemma_lev_common_suffix(pre, pre + seq![c], post);
            assert((pre + seq![c]).drop_last() =~= pre);
            lemma_lev_zero_iff_equal(pre, pre);
        },
        Edit::Delete { at } => {
            let pre = s.take(at);
            let post = s.skip(at + 1);
            assert(s =~= (pre + seq![s[at]]) + post);
            assert(apply(s, e) =~= pre + post);
            lemma_lev_common_suffix(pre + seq![s[at]], pre, post);
            assert((pre + seq![s[at]]).drop_last() =~= pre);
            lemma_lev_zero_iff_equal(pre, pre);
        },
        Edit::Replace { at, c } => {
            let pre = s.take(at);
            let post = s.skip(at + 1);
            assert(s =~= (pre + seq![s[at]]) + post);
            assert(apply(s, e) =~= (pre + seq![c]) + post);
            lemma_lev_common_suffix(pre + seq![s[at]], pre + seq![c], post);
            assert((pre + seq![s[at]]).drop_last() =~= pre);
            assert((pre + seq![c]).drop_last() =~= pre);
            lemma_lev_zero_iff_equal(pre, pre);
        },
    }
}

/// No script of edits that turns `a` into `b` is shorter than the edit
/// distance between them.
pub proof fn lemma_lev_is_least(a: Seq<char>, es: Seq<Edit>, b: Seq<char>)
    requires
        turns(a, es, b),
    ensures
        lev_dist(a, b) <= es.len(),
    decreases es.len(),
{
    if es.len() == 0 {
        lemma_lev_zero_iff_equal(a, b);
    } else {
        let next = apply(a, es[0]);
        lemma_lev_one_edit(a, es[0]);
        lemma_lev_is_least(next, es.drop_first(), b);
        lemma_lev_triangle(a, next, b);
    }
}

/// A script that is followed by one more edit turns its string into what
/// the edit makes of the script's result.
proof fn lemma_turns_then(a: Seq<char>, es: Seq<Edit>, m: Seq<char>, e: Edit)
    requires
        turns(a, es, m),
        fits(m, e),
    ensures
        turns(a, es.push(e), apply(m, e)),
    decreases es.len(),
{
    let all = es.push(e);
    if es.len() == 0 {
        assert(all.drop_first() =~= Seq::<Edit>::empty());
        assert(turns(apply(a, e), all.drop_first(), apply(m, e)));
    } else {
        lemma_turns_then(apply(a, es[0]), es.drop_first(), m, e);
        assert(all.drop_first() =~= es.drop_first().push(e));
        assert(all[0] == es[0]);
    }
}

/// A script leaves alone what stands behind the string it works on.
proof fn lemma_turns_before(a: Seq<char>, es: Seq<Edit>, b: Seq<char>, z: Seq<char>)
    requires
        turns(a, es, b),
    ensures
        turns(a + z, es, b + z),
    decreases es.len(),
{
    if es.len() != 0 {
        let e = es[0];
        match e {
            Edit::Insert { at, c } => {
                assert(apply(a + z, e) =~= apply(a, e) + z);
            },
            Edit::Delete { at } => {
                assert(apply(a + z, e) =~= apply(a, e) + z);
            },
            Edit::Replace { at, c } => {
                assert(apply(a + z, e) =~= apply(a, e) + z);
            },
        }
        lemma_turns_before(apply(a, e), es.drop_first(), b, z);
    }
}

/// The edit that puts the last character of `b` behind the others.
pub open spec fn insert_last(b: Seq<char>) -> Edit {
    Edit::Insert { at: b.len() - 1, c: b.last() }
}

/// The edit that takes out the last character of `a`.
pub open spec fn delete_last(a: Seq<char>) -> Edit {
    Edit::Delete { at: a.len() - 1 }
}

/// The edit that puts the last character of `b` in the last place.
pub open spec fn replace_last(b: Seq<char>) -> Edit {
    Edit::Replace { at: b.len() - 1, c: b.last() }
}

/// A shortest script of edits that turns `a` into `b`: it follows the
/// choices by which the edit distance is made up.
pub open spec fn script(a: Seq<char>, b: Seq<char>) -> Seq<Edit>
    decreases a.len() + b.len(),
{
    let a1 = a.drop_last();
    let b1 = b.drop_last();
    if a.len() == 0 && b.len() == 0 {
        Seq::empty()
    } else if a.len() == 0 {
        script(a, b1).push(insert_last(b))
    } else if b.len() == 0 {
        seq![delete_last(a)] + script(a1, b)
    } else if lev_dist(a, b) == lev_dist(a1, b) + 1 {
        seq![delete_last(a)] + script(a1, b)
    } else if lev_dist(a, b) == lev_dist(a, b1) + 1 {
        script(a, b1).push(insert_last(b))
    } else if a.last() == b.last() {
        script(a1, b1)
    } else {
        script(a1, b1).push(replace_last(b))
    }
}

/// The edit distance between `a` and `b` is reached: there is a script of
/// that many edits that turns `a` into `b`.
pub proof fn lemma_lev_is_reached(a: Seq<char>, b: Seq<char>)
    ensures
        turns(a, script(a, b), b),
        script(a, b).len() == lev_dist(a, b),
    decreases a.len() + b.len(),
{
    let a1 = a.drop_last();
    let b1 = b.drop_last();
    if a.len() == 0 && b.len() == 0 {
        assert(a =~= b);
    } else if a.len() == 0 || (b.len() != 0 && lev_dist(a, b) != lev_dist(a1, b) + 1 && lev_dist(
        a,
        b,
    ) == lev_dist(a, b1) + 1) {
        lemma_lev_is_reached(a, b1);
        lemma_turns_then(a, script(a, b1), b1, insert_last(b));
        assert(apply(b1, insert_last(b)) =~= b);
    } else if b.len() == 0 || lev_dist(a, b) == lev_dist(a1, b) + 1 {
        lemma_lev_is_reached(a1, b);
        assert(apply(a, delete_last(a)) =~= a1);
        assert((seq![delete_last(a)] + script(a1, b)).drop_first() =~= script(a1, b));
    } else {
        lemma_lev_is_reached(a1, b1);
        lemma_turns_before(a1, script(a1, b1), b1, seq![a.last()]);
        assert(a1 + seq![a.last()] =~= a);
        if a.last() == b.last() {
            assert(b1 + seq![a.last()] =~= b);
        } else {
            let m = b1 + seq![a.last()];
            lemma_turns_then(a, script(a1, b1), m, replace_last(b));
            assert(apply(m, replace_last(b)) =~= b);
        }
    }
}

/// The edit distance between `a` and `b` is the least number of single
/// characters to insert, delete or replace that turns `a` into `b`: some
/// script of that length does it, and no shorter one.
pub proof fn law_lev_counts_edits(a: Seq<char>, b: Seq<char>)
    ensures
        exists|es: Seq<Edit>| turns(a, es, b) && es.len() == lev_dist(a, b),
        forall|es: Seq<Edit>| turns(a, es, b) ==> lev_dist(a, b) <= es.len(),
{
    lemma_lev_is_reached(a, b);
    assert forall|es: Seq<Edit>| turns(a, es, b) implies lev_dist(a, b) <= es.len() by {
        lemma_lev_is_least(a, es, b);
    }
}

} // verus!
