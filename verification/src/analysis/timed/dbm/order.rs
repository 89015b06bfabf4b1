//! The total order on zones: by number of clocks, then bound by bound in
//! row-major order with no bound last, then by frozen clocks.
use std::cmp::Ordering;
use vstd::prelude::*;

use super::{lemma_suffix_len, lemma_suffix_step, suffix_from, INF_TIME, DBM};

verus! {

/// How two bound sequences compare at their first difference within the
/// shorter one: no bound comes after every bound; equal when there is no
/// difference.
pub open spec fn bounds_order(x: Seq<i32>, y: Seq<i32>) -> Ordering
    decreases x.len(),
{
    if x.len() == 0 || y.len() == 0 {
        Ordering::Equal
    } else if x[0] != y[0] {
        if x[0] == INF_TIME {
            Ordering::Greater
        } else if y[0] == INF_TIME {
            Ordering::Less
        } else if x[0] < y[0] {
            Ordering::Less
        } else {
            Ordering::Greater
        }
    } else {
        bounds_order(x.drop_first(), y.drop_first())
    }
}

/// The lexicographic order of two sequences of clock indices, a proper
/// prefix first.
pub open spec fn indices_order(x: Seq<usize>, y: Seq<usize>) -> Ordering
    decreases x.len(),
{
    if x.len() == 0 {
        if y.len() == 0 {
            Ordering::Equal
        } else {
            Ordering::Less
        }
    } else if y.len() == 0 {
        Ordering::Greater
    } else if x[0] < y[0] {
        Ordering::Less
    } else if x[0] > y[0] {
        Ordering::Greater
    } else {
        indices_order(x.drop_first(), y.drop_first())
    }
}

/// The order of two zones.
pub open spec fn zone_order(a: DBM, b: DBM) -> Ordering {
    if a.dim() != b.dim() {
        if a.dim() < b.dim() {
            Ordering::Less
        } else {
            Ordering::Greater
        }
    } else {
        match bounds_order(a.m(), b.m()) {
            Ordering::Equal => indices_order(a.frozen(), b.frozen()),
            o => o,
        }
    }
}

impl DBM {
    /// How this zone compares with `other`: by number of clocks, then
    /// bound by bound with no bound last, then by frozen clocks.
    pub fn compare(&self, other: &DBM) -> (r: Ordering)
        ensures
            r == zone_order(*self, *other),
    {
        if self.clock_count != other.clock_count {
            if self.clock_count < other.clock_count {
                return Ordering::Less;
            } else {
                return Ordering::Greater;
            }
        }
        let x = &self.matrix;
        let y = &other.matrix;
        let n = if x.len() < y.len() {
            x.len()
        } else {
            y.len()
        };
        let mut i: usize = 0;
        assert(suffix_from(x@, 0) =~= x@);
        assert(suffix_from(y@, 0) =~= y@);
        while i < n
            invariant
                x@ == self.m(),
                y@ == other.m(),
                self.dim() == other.dim(),
                i <= n,
                n <= x@.len(),
                n <= y@.len(),
                n == x@.len() || n == y@.len(),
                bounds_order(x@, y@) == bounds_order(suffix_from(x@, i), suffix_from(y@, i)),
            decreases n - i,
        {
            let a = x[i];
            let b = y[i];
            proof {
                lemma_suffix_step(x@, i);
                lemma_suffix_step(y@, i);
            }
            if a != b {
                if a == INF_TIME {
                    return Ordering::Greater;
                }
                if b == INF_TIME {
                    return Ordering::Less;
                }
                if a < b {
                    return Ordering::Less;
                } else {
                    return Ordering::Greater;
                }
            }
            i = i + 1;
        }
        proof {
            lemma_suffix_len(x@, i);
            lemma_suffix_len(y@, i);
        }
        let f = &self.frozen_clocks;
        let g = &other.frozen_clocks;
        let mut j: usize = 0;
        assert(suffix_from(f@, 0) =~= f@);
        assert(suffix_from(g@, 0) =~= g@);
        while j < f.len() && j < g.len()
            invariant
                f@ == self.frozen(),
                g@ == other.frozen(),
                self.dim() == other.dim(),
                bounds_order(self.m(), other.m()) == Ordering::Equal,
                j <= f@.len(),
                j <= g@.len(),
                indices_order(f@, g@) == indices_order(suffix_from(f@, j), suffix_from(g@, j)),
            decreases f@.len() - j,
        {
            proof {
                lemma_suffix_step(f@, j);
                lemma_suffix_step(g@, j);
            }
            if f[j] < g[j] {
                return Ordering::Less;
            }
            if f[j] > g[j] {
                return Ordering::Greater;
            }
            j = j + 1;
        }
        proof {
            lemma_suffix_len(f@, j);
            lemma_suffix_len(g@, j);
        }
        if f.len() == g.len() {
            Ordering::Equal
        } else if f.len() < g.len() {
            Ordering::Less
        } else {
            Ordering::Greater
        }
    }
}

} // verus!
