//! Case-insensitive comparison: a metric applied to lower-cased copies.

use crate::metric::{Metric, MetricError};
use vstd::prelude::*;

verus! {

/// The lower-case form of `s`, as `str::to_lowercase` computes it.
pub uninterp spec fn lowercase(s: Seq<char>) -> Seq<char>;

/// `str::to_lowercase` returns the lower-case form of its argument: by its
/// documentation a function of the characters alone, with no locale involved.
pub assume_specification[ str::to_lowercase ](s: &str) -> (r: String)
    ensures
        r@ == lowercase(s@),
;

/// A metric together with the choice to ignore case.
///
/// With `fold` set, two strings are compared by their lower-case forms, so
/// that strings which differ only in case are at distance zero.
pub struct Folded<M> {
    pub metric: M,
    pub fold: bool,
}

impl<M: Metric> Folded<M> {
    /// The form of `w` that is handed to the metric.
    pub open spec fn key(&self, w: Seq<char>) -> Seq<char> {
        if self.fold {
            lowercase(w)
        } else {
            w
        }
    }

    /// The forms of `ws` that are handed to the metric, in order.
    pub open spec fn keys(&self, ws: Seq<Seq<char>>) -> Seq<Seq<char>> {
        Seq::new(ws.len(), |i: int| self.key(ws[i]))
    }

    /// The form of `w` that is handed to the metric.
    pub fn key_of(&self, w: &str) -> (k: String)
        ensures
            k@ == self.key(w@),
    {
        if self.fold {
            w.to_lowercase()
        } else {
            w.to_owned()
        }
    }

    /// The distance between `a` and the string whose key is `key_b`.
    pub fn distance_to_key(&self, a: &str, key_b: &str) -> (r: Result<usize, MetricError>)
        ensures
            r is Ok <==> self.metric.comparable(self.key(a@), key_b@),
            r matches Ok(d) ==> d == self.metric.dist(self.key(a@), key_b@),
    {
        if self.fold {
            let key_a = a.to_lowercase();
            self.metric.distance(key_a.as_str(), key_b)
        } else {
            self.metric.distance(a, key_b)
        }
    }
}

impl<M: Metric> Metric for Folded<M> {
    open spec fn comparable(&self, a: Seq<char>, b: Seq<char>) -> bool {
        self.metric.comparable(self.key(a), self.key(b))
    }

    open spec fn dist(&self, a: Seq<char>, b: Seq<char>) -> nat {
        self.metric.dist(self.key(a), self.key(b))
    }

    proof fn comparable_is_equivalence(&self, a: Seq<char>, b: Seq<char>, c: Seq<char>) {
        self.metric.comparable_is_equivalence(self.key(a), self.key(b), self.key(c));
    }

    proof fn dist_to_self(&self, a: Seq<char>) {
        self.metric.dist_to_self(self.key(a));
    }

    proof fn dist_symmetric(&self, a: Seq<char>, b: Seq<char>) {
        self.metric.dist_symmetric(self.key(a), self.key(b));
    }

    proof fn dist_triangle(&self, a: Seq<char>, b: Seq<char>, c: Seq<char>) {
        self.metric.dist_triangle(self.key(a), self.key(b), self.key(c));
    }

    fn distance(&self, a: &str, b: &str) -> (r: Result<usize, MetricError>) {
        let key_b = self.key_of(b);
        self.distance_to_key(a, key_b.as_str())
    }
}

} // verus!
