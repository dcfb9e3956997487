//! A tree of maxima: the first or last value that reaches a threshold, in time
//! logarithmic in the number of values.
use vstd::prelude::*;

verus! {

/// The first index in `from..to` whose value is at least `threshold`.
pub open spec fn first_in(values: Seq<i64>, from: int, to: int, threshold: i64) -> Option<int>
    decreases to - from,
{
    if from >= to {
        None
    } else if values[from] >= threshold {
        Some(from)
    } else {
        first_in(values, from + 1, to, threshold)
    }
}

/// The last index in `from..to` whose value is at least `threshold`.
pub open spec fn last_in(values: Seq<i64>, from: int, to: int, threshold: i64) -> Option<int>
    decreases to - from,
{
    if from >= to {
        None
    } else if values[to - 1] >= threshold {
        Some(to - 1)
    } else {
        last_in(values, from, to - 1, threshold)
    }
}

pub proof fn lemma_first_in(values: Seq<i64>, from: int, to: int, threshold: i64)
    ensures
        match first_in(values, from, to, threshold) {
            Some(i) => from <= i < to && values[i] >= threshold && (forall|j: int|
                from <= j < i ==> values[j] < threshold),
            None => forall|j: int| from <= j < to ==> values[j] < threshold,
        },
    decreases to - from,
{
    if from < to && values[from] < threshold {
        lemma_first_in(values, from + 1, to, threshold);
    }
}

pub proof fn lemma_last_in(values: Seq<i64>, from: int, to: int, threshold: i64)
    ensures
        match last_in(values, from, to, threshold) {
            Some(i) => from <= i < to && values[i] >= threshold && (forall|j: int|
                i < j < to ==> values[j] < threshold),
            None => forall|j: int| from <= j < to ==> values[j] < threshold,
        },
    decreases to - from,
{
    if from < to && values[to - 1] < threshold {
        lemma_last_in(values, from, to - 1, threshold);
    }
}

proof fn lemma_first_splits(values: Seq<i64>, from: int, mid: int, to: int, threshold: i64)
    requires
        from <= mid <= to,
    ensures
        first_in(values, from, to, threshold) == (match first_in(values, from, mid, threshold) {
            Some(i) => Some(i),
            None => first_in(values, mid, to, threshold),
        }),
    decreases mid - from,
{
    if from < mid && values[from] < threshold {
        lemma_first_splits(values, from + 1, mid, to, threshold);
    }
}

proof fn lemma_last_splits(values: Seq<i64>, from: int, mid: int, to: int, threshold: i64)
    requires
        from <= mid <= to,
    ensures
        last_in(values, from, to, threshold) == (match last_in(values, mid, to, threshold) {
            Some(i) => Some(i),
            None => last_in(values, from, mid, threshold),
        }),
    decreases to - mid,
{
    if mid < to && values[to - 1] < threshold {
        lemma_last_splits(values, from, mid, to - 1, threshold);
    }
}

/// The smallest power of two that is at least `size`.
spec fn reach(size: int) -> int
    decreases size,
{
    if size <= 1 {
        1
    } else {
        2 * reach((size + 1) / 2)
    }
}

proof fn lemma_reach_bounds(size: int)
    requires
        size >= 1,
    ensures
        1 <= reach(size),
        size == 1 ==> reach(size) == 1,
        size >= 2 ==> reach(size) <= 2 * size - 2,
    decreases size,
{
    if size >= 2 {
        lemma_reach_bounds((size + 1) / 2);
    }
}

proof fn lemma_reach_grows(a: int, b: int)
    requires
        a <= b,
    ensures
        reach(a) <= reach(b),
    decreases b,
{
    if a <= 1 {
        if b >= 1 {
            lemma_reach_bounds(b);
        }
    } else {
        lemma_reach_grows((a + 1) / 2, (b + 1) / 2);
    }
}

/// Whether the nodes below `node` hold the maxima of `values[lo..=hi]`.
spec fn holds(max: Seq<i64>, values: Seq<i64>, node: int, lo: int, hi: int) -> bool
    decreases hi - lo,
{
    &&& 0 <= node < max.len()
    &&& forall|j: int| lo <= j <= hi ==> values[j] <= max[node]
    &&& exists|j: int| lo <= j <= hi && values[j] == max[node]
    &&& lo < hi ==> {
        let mid = (lo + hi) / 2;
        &&& holds(max, values, 2 * node, lo, mid)
        &&& holds(max, values, 2 * node + 1, mid + 1, hi)
    }
}


/// Whether `i` lies in the subtree of `node`.
spec fn under(i: int, node: int) -> bool
    decreases i,
{
    i == node || (i > node && node >= 1 && under(i / 2, node))
}

proof fn lemma_under_children(i: int, node: int)
    requires
        node >= 1,
        under(i, 2 * node) || under(i, 2 * node + 1),
    ensures
        under(i, node),
        i > node,
        !(under(i, 2 * node) && under(i, 2 * node + 1)),
    decreases i,
{
    if i == 2 * node || i == 2 * node + 1 {
        assert(i / 2 == node);
        assert(under(node, node));
        if i == 2 * node {
            assert(!under(i, 2 * node + 1));
        } else {
            assert((2 * node + 1) / 2 == node);
            assert(!under(node, 2 * node));
        }
    } else {
        if under(i, 2 * node) {
            assert(under(i / 2, 2 * node));
        } else {
            assert(under(i / 2, 2 * node + 1));
        }
        lemma_under_children(i / 2, node);
    }
}

proof fn lemma_holds_elsewhere(
    a: Seq<i64>,
    b: Seq<i64>,
    values: Seq<i64>,
    node: int,
    lo: int,
    hi: int,
)
    requires
        node >= 1,
        a.len() == b.len(),
        holds(a, values, node, lo, hi),
        forall|i: int| 0 <= i < a.len() && under(i, node) ==> a[i] == b[i],
    ensures
        holds(b, values, node, lo, hi),
    decreases hi - lo,
{
    assert(under(node, node));
    assert(a[node] == b[node]);
    if lo < hi {
        let mid = (lo + hi) / 2;
        assert forall|i: int|
            0 <= i < a.len() && (under(i, 2 * node) || under(i, 2 * node + 1)) implies a[i]
            == b[i] by {
            lemma_under_children(i, node);
        }
        lemma_holds_elsewhere(a, b, values, 2 * node, lo, mid);
        lemma_holds_elsewhere(a, b, values, 2 * node + 1, mid + 1, hi);
    }
}

/// A tree of the maxima of a list of values.
pub struct MaxTree {
    n: usize,
    max: Vec<i64>,
    values: Ghost<Seq<i64>>,
}

impl View for MaxTree {
    type V = Seq<i64>;

    /// The values that the tree was made of.
    closed spec fn view(&self) -> Seq<i64> {
        self.values@
    }
}

impl MaxTree {
    #[verifier::type_invariant]
    spec fn inv(self) -> bool {
        &&& self.n == self.values@.len()
        &&& self.max@.len() >= self.n * 2
        &&& self.n > 0 ==> {
            &&& holds(self.max@, self.values@, 1, 0, self.n - 1)
            &&& 2 * reach(self.n as int) <= self.max@.len()
        }
    }

    /// The tree of `values`. The tree has four nodes for each value.
    pub fn new(values: &[i64]) -> (t: Self)
        requires
            4 * values@.len() <= usize::MAX,
        ensures
            t@ == values@,
    {
        let n: usize = values.len();
        let size: usize = if n == 0 {
            4
        } else {
            4 * n
        };
        let mut max: Vec<i64> = Vec::new();
        let mut i: usize = 0;
        while i < size
            invariant
                i <= size,
                max@.len() == i,
            decreases size - i,
        {
            max.push(i64::MIN);
            i = i + 1;
        }
        if n > 0 {
            proof {
                lemma_reach_bounds(n as int);
            }
            Self::build(&mut max, 1, 0, n - 1, values);
        }
        MaxTree { n, max, values: Ghost(values@) }
    }

    /// How many values there are.
    pub fn len(&self) -> (n: usize)
        ensures
            n == self@.len(),
    {
        proof {
            use_type_invariant(self);
        }
        self.n
    }

    pub fn is_empty(&self) -> (b: bool)
        ensures
            b == (self@.len() == 0),
    {
        self.len() == 0
    }

    fn build(max: &mut Vec<i64>, node: usize, lo: usize, hi: usize, values: &[i64])
        requires
            lo <= hi < values@.len(),
            4 * values@.len() <= usize::MAX,
            node >= 1,
            (node + 1) * reach(hi - lo + 1) <= old(max)@.len(),
        ensures
            final(max)@.len() == old(max)@.len(),
            holds(final(max)@, values@, node as int, lo as int, hi as int),
            forall|i: int|
                0 <= i < old(max)@.len() && !under(i, node as int) ==> final(max)@[i]
                    == old(max)@[i],
        decreases hi - lo,
    {
        let ghost before = max@;
        let ghost size = hi - lo + 1;
        proof {
            lemma_reach_bounds(size);
            assert(node + 1 <= (node + 1) * reach(size)) by (nonlinear_arith)
                requires
                    reach(size) >= 1,
            ;
            assert(under(node as int, node as int));
        }
        if lo == hi {
            max.set(node, values[lo]);
            assert(values@[lo as int] == max@[node as int]);
            return;
        }
        let _nodes: usize = max.len();
        let mid = (lo + hi) / 2;
        proof {
            let half = reach((size + 1) / 2);
            assert(mid - lo + 1 == (size + 1) / 2);
            assert(hi - mid == size / 2);
            lemma_reach_grows(size / 2, (size + 1) / 2);
            lemma_reach_bounds((size + 1) / 2);
            lemma_reach_bounds(size / 2);
            assert((node + 1) * (2 * half) == (2 * node + 2) * half) by (nonlinear_arith);
            assert((2 * node + 1) * half <= (2 * node + 2) * half) by (nonlinear_arith)
                requires
                    half >= 1,
            ;
            assert((2 * node + 2) * reach(size / 2) <= (2 * node + 2) * half) by (nonlinear_arith)
                requires
                    reach(size / 2) <= half,
            ;
            assert(2 * node + 2 <= (2 * node + 2) * half) by (nonlinear_arith)
                requires
                    half >= 1,
            ;
        }
        Self::build(max, 2 * node, lo, mid, values);
        let ghost left = max@;
        Self::build(max, 2 * node + 1, mid + 1, hi, values);
        let ghost both = max@;
        proof {
            assert forall|i: int| 0 <= i < left.len() && under(i, 2 * node) implies left[i]
                == both[i] by {
                lemma_under_children(i, node as int);
            }
            lemma_holds_elsewhere(left, both, values@, 2 * node, lo as int, mid as int);
        }
        let a = max[2 * node];
        let b = max[2 * node + 1];
        max.set(
            node,
            if a < b {
                b
            } else {
                a
            },
        );
        proof {
            assert forall|i: int|
                0 <= i < both.len() && (under(i, 2 * node) || under(
                    i,
                    2 * node + 1,
                )) implies both[i] == max@[i] by {
                lemma_under_children(i, node as int);
            }
            lemma_holds_elsewhere(both, max@, values@, 2 * node, lo as int, mid as int);
            lemma_holds_elsewhere(both, max@, values@, 2 * node + 1, mid + 1, hi as int);
            assert forall|i: int|
                0 <= i < before.len() && !under(i, node as int) implies max@[i] == before[i] by {
                if under(i, 2 * node) || under(i, 2 * node + 1) {
                    lemma_under_children(i, node as int);
                }
            }
            let l = choose|j: int| lo <= j <= mid && values@[j] == a;
            let r = choose|j: int| mid + 1 <= j <= hi && values@[j] == b;
            assert(values@[l] == a && values@[r] == b);
        }
    }

    /// The first index at or after `from` whose value is at least `threshold`.
    pub fn first_at_least(&self, from: usize, threshold: i64) -> (r: Option<usize>)
        ensures
            match r {
                Some(i) => first_in(self@, from as int, self@.len() as int, threshold) == Some(
                    i as int,
                ),
                None => first_in(self@, from as int, self@.len() as int, threshold) is None,
            },
    {
        proof {
            use_type_invariant(self);
        }
        if self.n == 0 || from >= self.n {
            return None;
        }
        let _nodes: usize = self.max.len();
        self.descend(1, 0, self.n - 1, from, threshold, true)
    }

    /// The last index at or before `to` whose value is at least `threshold`.
    pub fn last_at_least(&self, to: usize, threshold: i64) -> (r: Option<usize>)
        ensures
            ({
                let end = if to < self@.len() {
                    to + 1
                } else {
                    self@.len() as int
                };
                match r {
                    Some(i) => last_in(self@, 0, end, threshold) == Some(i as int),
                    None => last_in(self@, 0, end, threshold) is None,
                }
            }),
    {
        proof {
            use_type_invariant(self);
        }
        if self.n == 0 {
            return None;
        }
        let bound = if to < self.n {
            to
        } else {
            self.n - 1
        };
        let _nodes: usize = self.max.len();
        self.descend(1, 0, self.n - 1, bound, threshold, false)
    }

    /// Walks only the subtrees that can hold a hit.
    fn descend(
        &self,
        node: usize,
        lo: usize,
        hi: usize,
        bound: usize,
        threshold: i64,
        forward: bool,
    ) -> (r: Option<usize>)
        requires
            lo <= hi < self.values@.len(),
            2 * self.values@.len() <= usize::MAX,
            node >= 1,
            (node + 1) * reach(hi - lo + 1) <= self.max@.len(),
            holds(self.max@, self.values@, node as int, lo as int, hi as int),
        ensures
            ({
                let start = if lo < bound {
                    bound as int
                } else {
                    lo as int
                };
                let end = if bound < hi {
                    bound + 1
                } else {
                    hi + 1
                };
                let hit = if forward {
                    first_in(self.values@, start, hi + 1, threshold)
                } else {
                    last_in(self.values@, lo as int, end, threshold)
                };
                match r {
                    Some(i) => hit == Some(i as int),
                    None => hit is None,
                }
            }),
        decreases hi - lo,
    {
        let ghost values = self.values@;
        let ghost size = hi - lo + 1;
        let ghost start = if lo < bound {
            bound as int
        } else {
            lo as int
        };
        let ghost end = if bound < hi {
            bound + 1
        } else {
            hi + 1
        };
        proof {
            lemma_first_in(values, start, hi + 1, threshold);
            lemma_last_in(values, lo as int, end, threshold);
        }
        if self.max[node] < threshold {
            return None;
        }
        if forward && hi < bound {
            return None;
        }
        if !forward && lo > bound {
            return None;
        }
        if lo == hi {
            return Some(lo);
        }
        let _nodes: usize = self.max.len();
        let mid = (lo + hi) / 2;
        proof {
            let half = reach((size + 1) / 2);
            assert(mid - lo + 1 == (size + 1) / 2);
            assert(hi - mid == size / 2);
            lemma_reach_grows(size / 2, (size + 1) / 2);
            lemma_reach_bounds((size + 1) / 2);
            lemma_reach_bounds(size / 2);
            assert((node + 1) * (2 * half) == (2 * node + 2) * half) by (nonlinear_arith);
            assert((2 * node + 1) * half <= (2 * node + 2) * half) by (nonlinear_arith)
                requires
                    half >= 1,
            ;
            assert((2 * node + 2) * reach(size / 2) <= (2 * node + 2) * half) by (nonlinear_arith)
                requires
                    reach(size / 2) <= half,
            ;
            assert(2 * node + 2 <= (2 * node + 2) * half) by (nonlinear_arith)
                requires
                    half >= 1,
            ;
            if start <= mid {
                lemma_first_splits(values, start, mid + 1, hi + 1, threshold);
            }
            if mid + 1 <= end {
                lemma_last_splits(values, lo as int, mid + 1, end, threshold);
            }
        }
        if forward {
            match self.descend(2 * node, lo, mid, bound, threshold, forward) {
                Some(i) => Some(i),
                None => self.descend(2 * node + 1, mid + 1, hi, bound, threshold, forward),
            }
        } else {
            match self.descend(2 * node + 1, mid + 1, hi, bound, threshold, forward) {
                Some(i) => Some(i),
                None => self.descend(2 * node, lo, mid, bound, threshold, forward),
            }
        }
    }
}

} // verus!
