//! Builds a [`WalkerTable`] from integer weights.

use crate::table::{WalkerTable, mass_upto, slot_share, lemma_mass_update, lemma_mass_of_keeping_slots};
use crate::util::{gcd_for_slice, gcd_of_nonzero};
use vstd::arithmetic::div_mod::{
    lemma_add_mod_noop,
    lemma_fundamental_div_mod,
    lemma_mod_multiples_basic,
    lemma_sub_mod_noop,
};
use vstd::prelude::*;

verus! {

/// The sum of all weights.
pub open spec fn sum_of(s: Seq<u32>) -> nat
    decreases s.len(),
{
    if s.len() == 0 {
        0
    } else {
        sum_of(s.drop_last()) + s.last() as nat
    }
}

/// The least weight; 0 for no weights.
pub open spec fn min_of(s: Seq<u32>) -> u32
    decreases s.len(),
{
    if s.len() == 0 {
        0
    } else if s.len() == 1 {
        s[0]
    } else if s.last() < min_of(s.drop_last()) {
        s.last()
    } else {
        min_of(s.drop_last())
    }
}

/// The greatest weight; 0 for no weights.
pub open spec fn max_of(s: Seq<u32>) -> u32
    decreases s.len(),
{
    if s.len() == 0 {
        0
    } else if s.len() == 1 {
        s[0]
    } else if s.last() > max_of(s.drop_last()) {
        s.last()
    } else {
        max_of(s.drop_last())
    }
}

/// Inversion of one weight between the least weight `lo` and the greatest
/// `hi`: the two swap, and any other `x` becomes `hi - x`.
pub open spec fn inverted_weight(x: u32, lo: u32, hi: u32) -> u32 {
    if x == hi {
        lo
    } else if x == lo {
        hi
    } else {
        (hi - x) as u32
    }
}

/// Every weight inverted against the least and greatest of them.
pub open spec fn inverted(s: Seq<u32>) -> Seq<u32> {
    Seq::new(s.len(), |i: int| inverted_weight(s[i], min_of(s), max_of(s)))
}

/// Each weight multiplied by the number of weights, so that their mean is
/// a whole number.
pub open spec fn scaled_by_len(s: Seq<u32>) -> Seq<u32> {
    Seq::new(s.len(), |i: int| (s[i] * s.len()) as u32)
}

/// Whether every weight can be multiplied by the number of weights within
/// `u32`.
pub open spec fn fits_scaled(s: Seq<u32>) -> bool {
    &&& s.len() <= u32::MAX
    &&& forall|i: int| 0 <= i < s.len() ==> s[i] * s.len() <= u32::MAX
}

/// The divisor that brings scaled weights to their smallest form: their
/// common divisor, or 1 when none of them is nonzero.
pub open spec fn reduction_of(s: Seq<u32>) -> nat {
    if gcd_of_nonzero(s) == 0 {
        1
    } else {
        gcd_of_nonzero(s)
    }
}

/// Every weight divided by the common divisor of the nonzero ones.
pub open spec fn reduced(s: Seq<u32>) -> Seq<u32> {
    Seq::new(s.len(), |i: int| (s[i] as nat / reduction_of(s)) as u32)
}

/// Weights a builder holds: fewer than `u32::MAX + 1` of them, each a
/// multiple of their number, so that their mean is exact.
pub open spec fn normalized(s: Seq<u32>) -> bool {
    &&& s.len() <= u32::MAX
    &&& forall|i: int| 0 <= i < s.len() ==> #[trigger] (s[i] as int % s.len() as int) == 0
}

/// The mean weight, rounded down; 0 for no weights.
pub open spec fn mean_of(s: Seq<u32>) -> nat {
    if s.len() == 0 {
        0
    } else {
        sum_of(s) / s.len()
    }
}

proof fn lemma_sum_multiple(s: Seq<u32>, n: int)
    requires
        n > 0,
        forall|i: int| 0 <= i < s.len() ==> #[trigger] (s[i] as int % n) == 0,
    ensures
        sum_of(s) as int % n == 0,
    decreases s.len(),
{
    if s.len() > 0 {
        let t = s.drop_last();
        assert forall|i: int| 0 <= i < t.len() implies #[trigger] (t[i] as int % n) == 0 by {
            assert(t[i] == s[i]);
        }
        lemma_sum_multiple(t, n);
        assert(s[s.len() - 1] == s.last());
        assert(s.last() as int % n == 0);
        lemma_add_mod_noop(sum_of(t) as int, s.last() as int, n);
        assert(sum_of(s) as int == sum_of(t) as int + s.last() as int);
        assert(0int % n == 0);
    }
}

proof fn lemma_sum_bound(s: Seq<u32>)
    ensures
        sum_of(s) <= s.len() * (u32::MAX as nat),
    decreases s.len(),
{
    if s.len() > 0 {
        lemma_sum_bound(s.drop_last());
        assert(sum_of(s) <= s.len() * (u32::MAX as nat)) by (nonlinear_arith)
            requires
                sum_of(s) == sum_of(s.drop_last()) + s.last(),
                sum_of(s.drop_last()) <= (s.len() - 1) * (u32::MAX as nat),
                s.last() <= u32::MAX,
                s.len() >= 1,
        ;
    }
}

/// For normalized weights the mean is exact: `n * mean == sum`.
proof fn lemma_mean_exact(s: Seq<u32>)
    requires
        normalized(s),
        s.len() > 0,
    ensures
        s.len() * mean_of(s) == sum_of(s),
        mean_of(s) <= u32::MAX,
{
    lemma_sum_multiple(s, s.len() as int);
    lemma_fundamental_div_mod(sum_of(s) as int, s.len() as int);
    lemma_sum_bound(s);
    let n = s.len() as int;
    let m = mean_of(s) as int;
    assert(m <= u32::MAX) by (nonlinear_arith)
        requires
            n * m <= n * (u32::MAX as int),
            n > 0,
    ;
}

proof fn lemma_min_max(s: Seq<u32>)
    requires
        s.len() > 0,
    ensures
        forall|i: int| 0 <= i < s.len() ==> min_of(s) <= #[trigger] s[i] <= max_of(s),
        exists|i: int| 0 <= i < s.len() && s[i] == min_of(s),
        exists|i: int| 0 <= i < s.len() && s[i] == max_of(s),
    decreases s.len(),
{
    if s.len() > 1 {
        let t = s.drop_last();
        lemma_min_max(t);
        let a = choose|i: int| 0 <= i < t.len() && t[i] == min_of(t);
        let b = choose|i: int| 0 <= i < t.len() && t[i] == max_of(t);
        assert(s[a] == t[a] && s[b] == t[b]);
        assert(s[s.len() - 1] == s.last());
        assert forall|i: int| 0 <= i < s.len() implies min_of(s) <= #[trigger] s[i] <= max_of(s) by {
            if i < s.len() - 1 {
                assert(s[i] == t[i]);
            }
        }
    } else {
        assert(s[0] == min_of(s));
    }
}

/// The weights of the items of a work list.
spec fn stack_sum(s: Seq<(usize, u32)>) -> nat
    decreases s.len(),
{
    if s.len() == 0 {
        0
    } else {
        stack_sum(s.drop_last()) + s.last().1 as nat
    }
}

/// Whether some item of the work list is for index `j`.
spec fn holds(s: Seq<(usize, u32)>, j: int) -> bool {
    exists|p: int| 0 <= p < s.len() && s[p].0 == j
}

/// No two items of the work list are for the same index.
spec fn distinct_idx(s: Seq<(usize, u32)>) -> bool {
    forall|p: int, q: int| 0 <= p < s.len() && 0 <= q < s.len() && p != q ==> s[p].0 != s[q].0
}

/// No index has an item in both work lists.
spec fn disjoint_idx(s: Seq<(usize, u32)>, t: Seq<(usize, u32)>) -> bool {
    forall|p: int, q: int| 0 <= p < s.len() && 0 <= q < t.len() ==> s[p].0 != t[q].0
}

proof fn lemma_holds_push(s: Seq<(usize, u32)>, x: (usize, u32), j: int)
    ensures
        holds(s.push(x), j) <==> (holds(s, j) || x.0 == j),
{
    let t = s.push(x);
    if holds(s, j) {
        let p = choose|p: int| 0 <= p < s.len() && s[p].0 == j;
        assert(t[p] == s[p]);
    }
    if x.0 == j {
        assert(t[s.len() as int] == x);
    }
    if holds(t, j) {
        let p = choose|p: int| 0 <= p < t.len() && t[p].0 == j;
        if p < s.len() {
            assert(t[p] == s[p]);
        }
    }
}

proof fn lemma_holds_pop(s: Seq<(usize, u32)>, j: int)
    requires
        s.len() > 0,
    ensures
        holds(s, j) <==> (holds(s.drop_last(), j) || s.last().0 == j),
{
    let t = s.drop_last();
    if holds(t, j) {
        let p = choose|p: int| 0 <= p < t.len() && t[p].0 == j;
        assert(s[p] == t[p]);
    }
    if s.last().0 == j {
        assert(s[s.len() - 1] == s.last());
    }
    if holds(s, j) {
        let p = choose|p: int| 0 <= p < s.len() && s[p].0 == j;
        if p < s.len() - 1 {
            assert(s[p] == t[p]);
        }
    }
}

/// Items of weight at most `m` sum to at most `m` each; items of weight
/// above `m` sum to more than `m` each.
proof fn lemma_stack_sum_bounds(s: Seq<(usize, u32)>, m: nat)
    ensures
        (forall|p: int| 0 <= p < s.len() ==> s[p].1 <= m) ==> stack_sum(s) <= m * s.len(),
        (s.len() > 0 && forall|p: int| 0 <= p < s.len() ==> s[p].1 > m) ==> stack_sum(s) > m * s.len(),
    decreases s.len(),
{
    if s.len() > 0 {
        let t = s.drop_last();
        lemma_stack_sum_bounds(t, m);
        assert(s[s.len() - 1] == s.last());
        assert forall|p: int| 0 <= p < t.len() implies t[p] == s[p] by {}
        let len = s.len() as int;
        assert(m * len == m * (len - 1) + m) by (nonlinear_arith);
        if t.len() == 0 {
            assert(m * (len - 1) == 0) by (nonlinear_arith) requires len == 1;
        }
    }
}

/// The mass a table of these aliases and numerators over `m` gives index `j`.
spec fn mass_of(aliases: Seq<usize>, probs: Seq<u32>, m: nat, j: int) -> int {
    mass_upto(aliases, probs, m, aliases.len() as int, j)
}

/// What the alias construction keeps true while it drains the work lists:
/// a slot still listed keeps its own index and has its weight `r` left to
/// hand out; a slot no longer listed gives its index exactly its weight;
/// and the listed items hold one mean each.
spec fn drain_inv(
    w: Seq<u32>,
    m: nat,
    aliases: Seq<usize>,
    probs: Seq<u32>,
    below: Seq<(usize, u32)>,
    above: Seq<(usize, u32)>,
) -> bool {
    let n = w.len();
    &&& aliases.len() == n
    &&& probs.len() == n
    &&& forall|i: int| 0 <= i < n ==> aliases[i] < n
    &&& forall|i: int| 0 <= i < n ==> probs[i] <= m
    &&& forall|p: int|
        0 <= p < below.len() ==> {
            let (x, r) = #[trigger] below[p];
            &&& x < n
            &&& r <= m
            &&& probs[x as int] == 0
            &&& mass_of(aliases, probs, m, x as int) + r == w[x as int] + m
        }
    &&& forall|q: int|
        0 <= q < above.len() ==> {
            let (x, r) = #[trigger] above[q];
            &&& x < n
            &&& r > m
            &&& probs[x as int] == 0
            &&& mass_of(aliases, probs, m, x as int) + r == w[x as int] + m
        }
    &&& distinct_idx(below)
    &&& distinct_idx(above)
    &&& disjoint_idx(below, above)
    &&& forall|j: int|
        0 <= j < n && !holds(below, j) && !holds(above, j) ==> #[trigger] mass_of(aliases, probs, m, j) == w[j]
    &&& stack_sum(below) + stack_sum(above) == m * (below.len() + above.len())
}

/// Whether `t` is an alias table for the weights `w`. When some weight is
/// nonzero, the masses are the weights and the total is their sum, so a
/// draw returns `j` with probability `w[j] / sum_of(w)`. When all are zero,
/// every slot keeps its own index, and every index has mass 1: draws are
/// uniform.
pub open spec fn table_for(w: Seq<u32>, t: WalkerTable) -> bool {
    &&& t.wf()
    &&& t.len_spec() == w.len()
    &&& sum_of(w) > 0 ==> {
        &&& t.total() == sum_of(w)
        &&& forall|j: int| 0 <= j < w.len() ==> #[trigger] t.mass(j) == w[j]
    }
    &&& sum_of(w) == 0 ==> {
        &&& t.scale_spec() == 1
        &&& forall|i: int| 0 <= i < w.len() ==> t.aliases_spec()[i] == i && t.probs_spec()[i] == 0
        &&& forall|j: int| 0 <= j < w.len() ==> #[trigger] t.mass(j) == 1
    }
}

/// A table built for weights that are not all zero never draws an index of
/// weight zero.
pub proof fn lemma_zero_weight_never_drawn(w: Seq<u32>, t: WalkerTable, j: int)
    requires
        table_for(w, t),
        sum_of(w) > 0,
        0 <= j < w.len(),
        w[j] == 0,
    ensures
        !t.can_draw(j),
{
    if t.can_draw(j) {
        t.lemma_drawn_has_mass(j);
    }
}

/// Two tables built for the same weights draw every index with the same
/// probability: equal masses over equal totals.
pub proof fn lemma_same_distribution(w: Seq<u32>, t1: WalkerTable, t2: WalkerTable)
    requires
        table_for(w, t1),
        table_for(w, t2),
    ensures
        t1.total() == t2.total(),
        forall|j: int| 0 <= j < w.len() ==> #[trigger] t1.mass(j) == t2.mass(j),
{
}

/// Inverting twice gives the weights back when the least weight is zero and
/// the greatest is not.
pub proof fn lemma_inverse_twice(w: Seq<u32>)
    requires
        w.len() > 0,
        min_of(w) == 0,
        min_of(w) < max_of(w),
    ensures
        inverted(inverted(w)) == w,
{
    let hi = max_of(w);
    let v = inverted(w);
    lemma_min_max(w);
    lemma_min_max(v);
    let a = choose|i: int| 0 <= i < w.len() && w[i] == min_of(w);
    let b = choose|i: int| 0 <= i < w.len() && w[i] == max_of(w);
    assert(v[a] == hi && v[b] == 0);
    assert forall|i: int| 0 <= i < v.len() implies #[trigger] v[i] <= hi by {
        assert(w[i] <= hi);
    }
    assert(max_of(v) == hi);
    assert(min_of(v) == 0);
    assert(inverted(v) =~= w);
}

/// Integer weights, one per index: the larger a weight, the more often its
/// index is drawn, and an index of weight 0 is never drawn.
pub struct WalkerTableBuilder {
    /// Weights of the output indexes.
    index_weights: Vec<u32>,
}

impl View for WalkerTableBuilder {
    type V = Seq<u32>;

    closed spec fn view(&self) -> Seq<u32> {
        self.index_weights@
    }
}

/// Creates a [`WalkerTableBuilder`] from weights of type `T`.
pub trait NewBuilder<T>: Sized {
    /// The weights this constructor takes.
    spec fn accepts(index_weights: Seq<T>) -> bool;

    /// Creates a new [`WalkerTableBuilder`] from `index_weights`.
    fn new(index_weights: &[T]) -> (r: WalkerTableBuilder)
        requires
            Self::accepts(index_weights@),
    ;
}

impl NewBuilder<u32> for WalkerTableBuilder {
    open spec fn accepts(index_weights: Seq<u32>) -> bool {
        fits_scaled(index_weights)
    }

    /// Each weight is multiplied by the number of weights, which keeps the
    /// mean a whole number.
    fn new(index_weights: &[u32]) -> (r: WalkerTableBuilder)
        ensures
            r@ == scaled_by_len(index_weights@),
            normalized(r@),
    {
        let table_len = index_weights.len() as u32;
        let mut ws: Vec<u32> = Vec::with_capacity(index_weights.len());
        let mut i: usize = 0;
        while i < index_weights.len()
            invariant
                i <= index_weights@.len(),
                table_len == index_weights@.len(),
                fits_scaled(index_weights@),
                ws@ =~= scaled_by_len(index_weights@).subrange(0, i as int),
            decreases index_weights@.len() - i,
        {
            ws.push(index_weights[i] * table_len);
            i = i + 1;
        }
        let r = WalkerTableBuilder { index_weights: ws };
        proof {
            assert(ws@ =~= scaled_by_len(index_weights@));
            assert forall|k: int| 0 <= k < ws@.len() implies #[trigger] (ws@[k] as int % ws@.len() as int) == 0 by {
                lemma_mod_multiples_basic(index_weights@[k] as int, ws@.len() as int);
            }
        }
        r
    }
}

impl WalkerTableBuilder {
    /// Well-formed builders hold normalized weights.
    pub open spec fn wf(&self) -> bool {
        normalized(self@)
    }

    /// Creates a builder from weights already scaled to integers (such as
    /// proportions times 10000, rounded): they are divided by the greatest
    /// common divisor of the nonzero ones, then each is multiplied by the
    /// number of weights.
    pub fn from_scaled(scaled: &[u32]) -> (r: WalkerTableBuilder)
        requires
            fits_scaled(reduced(scaled@)),
        ensures
            r@ == scaled_by_len(reduced(scaled@)),
            r.wf(),
    {
        let g = gcd_for_slice(scaled);
        let g = if g == 0 {
            1
        } else {
            g
        };
        let mut ws: Vec<u32> = Vec::with_capacity(scaled.len());
        let mut i: usize = 0;
        while i < scaled.len()
            invariant
                i <= scaled@.len(),
                g as nat == reduction_of(scaled@),
                ws@ =~= reduced(scaled@).subrange(0, i as int),
            decreases scaled@.len() - i,
        {
            ws.push(scaled[i] / g);
            i = i + 1;
        }
        assert(ws@ =~= reduced(scaled@));
        <WalkerTableBuilder as NewBuilder<u32>>::new(ws.as_slice())
    }

    /// The weights, one per index.
    pub fn weights(&self) -> (r: &[u32])
        ensures
            r@ == self@,
    {
        self.index_weights.as_slice()
    }

    /// Builds the alias table for the weights. Weights that are all zero
    /// (or no weights) give the table that draws uniformly.
    pub fn build(&self) -> (r: WalkerTable)
        requires
            self.wf(),
        ensures
            table_for(self@, r),
    {
        let table_len = self.index_weights.len();
        if self.sum() == 0 {
            let mut aliases: Vec<usize> = Vec::with_capacity(table_len);
            let mut i: usize = 0;
            while i < table_len
                invariant
                    i <= table_len,
                    aliases@.len() == i,
                    forall|k: int| 0 <= k < i ==> aliases@[k] == k,
                decreases table_len - i,
            {
                aliases.push(i);
                i = i + 1;
            }
            let probs: Vec<u32> = vec![0; table_len];
            let t = WalkerTable::new(aliases, probs, 1);
            proof {
                assert forall|j: int| 0 <= j < table_len implies #[trigger] t.mass(j) == 1 by {
                    lemma_mass_of_keeping_slots(t.aliases_spec(), t.probs_spec(), 1, table_len as int, j);
                }
            }
            return t;
        }
        let (aliases, probs) = self.calc_table();
        let mean = self.mean();
        WalkerTable::new(aliases, probs, mean)
    }

    /// Inverts the weights: the least and the greatest swap, and every other
    /// weight `x` becomes `greatest - x`.
    pub fn inverse(self) -> (r: WalkerTableBuilder)
        requires
            self.wf(),
        ensures
            r@ == inverted(self@),
            r.wf(),
    {
        let n = self.index_weights.len();
        let mut min_value: u32 = 0;
        let mut max_value: u32 = 0;
        if n > 0 {
            min_value = self.index_weights[0];
            max_value = self.index_weights[0];
            let mut i: usize = 1;
            while i < n
                invariant
                    1 <= i <= n,
                    n == self@.len(),
                    min_value == min_of(self@.subrange(0, i as int)),
                    max_value == max_of(self@.subrange(0, i as int)),
                decreases n - i,
            {
                proof {
                    let pre = self@.subrange(0, i as int + 1);
                    assert(pre.drop_last() =~= self@.subrange(0, i as int));
                }
                let x = self.index_weights[i];
                if x < min_value {
                    min_value = x;
                }
                if x > max_value {
                    max_value = x;
                }
                i = i + 1;
            }
            assert(self@.subrange(0, n as int) =~= self@);
        }
        proof {
            if n > 0 {
                lemma_min_max(self@);
            }
        }
        let mut ws: Vec<u32> = Vec::with_capacity(n);
        let mut i: usize = 0;
        while i < n
            invariant
                i <= n,
                n == self@.len(),
                n > 0 ==> min_value == min_of(self@) && max_value == max_of(self@),
                forall|k: int| 0 <= k < n ==> min_of(self@) <= #[trigger] self@[k] <= max_of(self@),
                ws@ =~= inverted(self@).subrange(0, i as int),
            decreases n - i,
        {
            let x = self.index_weights[i];
            let y = if x == max_value {
                min_value
            } else if x == min_value {
                max_value
            } else {
                max_value - x
            };
            ws.push(y);
            i = i + 1;
        }
        let r = WalkerTableBuilder { index_weights: ws };
        proof {
            assert(ws@ =~= inverted(self@));
            if n > 0 {
                let nn = n as int;
                let lo = min_of(self@);
                let hi = max_of(self@);
                let a = choose|k: int| 0 <= k < n && self@[k] == min_of(self@);
                let b = choose|k: int| 0 <= k < n && self@[k] == max_of(self@);
                assert(lo as int % nn == 0 && hi as int % nn == 0);
                assert forall|k: int| 0 <= k < ws@.len() implies #[trigger] (ws@[k] as int % ws@.len() as int) == 0 by {
                    let x = self@[k];
                    assert(x as int % nn == 0);
                    if x != hi && x != lo {
                        lemma_sub_mod_noop(hi as int, x as int, nn);
                    }
                }
            }
        }
        r
    }

    /// Splits the indexes by their weight against the mean `mean`: those at
    /// most the mean, and those above it. Each item is an index and its
    /// weight.
    fn separate_weight(&self, mean: u32) -> (r: (Vec<(usize, u32)>, Vec<(usize, u32)>))
        ensures
            ({
                let (below, above) = r;
                &&& forall|p: int|
                    0 <= p < below@.len() ==> below@[p].0 < self@.len() && below@[p].1 == self@[below@[p].0 as int]
                        && below@[p].1 <= mean
                &&& forall|q: int|
                    0 <= q < above@.len() ==> above@[q].0 < self@.len() && above@[q].1 == self@[above@[q].0 as int]
                        && above@[q].1 > mean
                &&& distinct_idx(below@)
                &&& distinct_idx(above@)
                &&& disjoint_idx(below@, above@)
                &&& forall|j: int| 0 <= j < self@.len() ==> holds(below@, j) || holds(above@, j)
                &&& below@.len() + above@.len() == self@.len()
                &&& stack_sum(below@) + stack_sum(above@) == sum_of(self@)
            }),
    {
        let n = self.index_weights.len();
        let mut below_vec: Vec<(usize, u32)> = Vec::with_capacity(n);
        let mut above_vec: Vec<(usize, u32)> = Vec::with_capacity(n);
        let mut i: usize = 0;
        while i < n
            invariant
                i <= n,
                n == self@.len(),
                forall|p: int|
                    0 <= p < below_vec@.len() ==> below_vec@[p].0 < i && below_vec@[p].1 == self@[below_vec@[p].0 as int]
                        && below_vec@[p].1 <= mean,
                forall|q: int|
                    0 <= q < above_vec@.len() ==> above_vec@[q].0 < i && above_vec@[q].1 == self@[above_vec@[q].0 as int]
                        && above_vec@[q].1 > mean,
                distinct_idx(below_vec@),
                distinct_idx(above_vec@),
                disjoint_idx(below_vec@, above_vec@),
                forall|j: int| 0 <= j < i ==> holds(below_vec@, j) || holds(above_vec@, j),
                below_vec@.len() + above_vec@.len() == i,
                stack_sum(below_vec@) + stack_sum(above_vec@) == sum_of(self@.subrange(0, i as int)),
            decreases n - i,
        {
            let w = self.index_weights[i];
            let ghost old_below = below_vec@;
            let ghost old_above = above_vec@;
            if w <= mean {
                below_vec.push((i, w));
                proof {
                    assert(below_vec@.drop_last() =~= old_below);
                }
            } else {
                above_vec.push((i, w));
                proof {
                    assert(above_vec@.drop_last() =~= old_above);
                }
            }
            proof {
                let pre = self@.subrange(0, i as int + 1);
                assert(pre.drop_last() =~= self@.subrange(0, i as int));
                assert forall|j: int| 0 <= j < i + 1 implies holds(below_vec@, j) || holds(above_vec@, j) by {
                    lemma_holds_push(old_below, (i, w), j);
                    lemma_holds_push(old_above, (i, w), j);
                }
            }
            i = i + 1;
        }
        assert(self@.subrange(0, n as int) =~= self@);
        (below_vec, above_vec)
    }

    /// Returns the aliases and the acceptance numerators, whose common
    /// denominator is the mean weight. Every index ends up with exactly its
    /// weight as mass.
    fn calc_table(&self) -> (r: (Vec<usize>, Vec<u32>))
        requires
            self.wf(),
            sum_of(self@) > 0,
        ensures
            ({
                let (aliases, probs) = r;
                let n = self@.len();
                let m = mean_of(self@);
                &&& aliases@.len() == n
                &&& probs@.len() == n
                &&& forall|i: int| 0 <= i < n ==> aliases@[i] < n
                &&& forall|i: int| 0 <= i < n ==> probs@[i] <= m
                &&& forall|j: int| 0 <= j < n ==> mass_of(aliases@, probs@, m, j) == self@[j]
            }),
    {
        let table_len = self.index_weights.len();
        let ghost w = self@;
        let ghost n = w.len() as int;
        if table_len == 0 {
            assert(false);
        }
        let mean = self.mean();
        let ghost m = mean as nat;
        assert(mean > 0) by (nonlinear_arith)
            requires
                n * mean == sum_of(w),
                sum_of(w) > 0,
        ;
        let (mut below_vec, mut above_vec) = self.separate_weight(mean);
        let mut aliases: Vec<usize> = vec![0; table_len];
        let mut probs: Vec<u32> = vec![0; table_len];
        proof {
            assert forall|j: int| 0 <= j < n implies mass_of(aliases@, probs@, m, j) == m by {
                lemma_mass_of_keeping_slots(aliases@, probs@, m, n, j);
            }
            assert(m * (below_vec@.len() + above_vec@.len()) == sum_of(w)) by (nonlinear_arith)
                requires
                    below_vec@.len() + above_vec@.len() == n,
                    n * m == sum_of(w),
            ;
        }
        while below_vec.len() > 0
            invariant
                w == self@,
                n == w.len(),
                m == mean,
                m > 0,
                drain_inv(w, m, aliases@, probs@, below_vec@, above_vec@),
            decreases below_vec@.len() + 2 * above_vec@.len(),
        {
            let ghost old_b = below_vec@;
            let ghost old_a = above_vec@;
            let ghost old_al = aliases@;
            let ghost old_pr = probs@;
            let below = below_vec.pop().unwrap();
            proof {
                assert(old_b[old_b.len() - 1] == below);
                assert(below_vec@ =~= old_b.drop_last());
                assert forall|p: int| 0 <= p < below_vec@.len() implies below_vec@[p] == old_b[p] by {}
            }
            let b = below.0;
            if above_vec.len() > 0 {
                let above = above_vec.pop().unwrap();
                let a = above.0;
                proof {
                    assert(old_a[old_a.len() - 1] == above);
                    assert(above_vec@ =~= old_a.drop_last());
                    assert forall|q: int| 0 <= q < above_vec@.len() implies above_vec@[q] == old_a[q] by {}
                    assert(a != b);
                }
                let diff = mean - below.1;
                aliases.set(b, a);
                probs.set(b, diff);
                let rest = above.1 - diff;
                let ghost mid_b = below_vec@;
                let ghost mid_a = above_vec@;
                proof {
                    assert forall|j: int| 0 <= j < n implies #[trigger] mass_of(aliases@, probs@, m, j) == mass_of(old_al, old_pr, m, j)
                        + (if j == b as int { below.1 as int - m } else { 0 })
                        + (if j == a as int { diff as int } else { 0 }) by {
                        lemma_mass_update(old_al, old_pr, m, b as int, a, diff, n, j);
                    }
                }
                if rest <= mean {
                    below_vec.push((a, rest));
                } else {
                    above_vec.push((a, rest));
                }
                proof {
                    let nb = below_vec@;
                    let na = above_vec@;
                    let al = aliases@;
                    let pr = probs@;
                    assert(mass_of(al, pr, m, a as int) == mass_of(old_al, old_pr, m, a as int) + diff);
                    assert(mass_of(al, pr, m, b as int) == w[b as int]);
                    assert forall|p: int| 0 <= p < nb.len() implies ({
                        let (x, r) = #[trigger] nb[p];
                        &&& x < n
                        &&& r <= m
                        &&& pr[x as int] == 0
                        &&& mass_of(al, pr, m, x as int) + r == w[x as int] + m
                    }) by {
                        if p < mid_b.len() {
                            assert(nb[p] == old_b[p]);
                            assert(old_b[p].0 != b);
                            assert(old_b[p].0 != a);
                        }
                    }
                    assert forall|q: int| 0 <= q < na.len() implies ({
                        let (x, r) = #[trigger] na[q];
                        &&& x < n
                        &&& r > m
                        &&& pr[x as int] == 0
                        &&& mass_of(al, pr, m, x as int) + r == w[x as int] + m
                    }) by {
                        if q < mid_a.len() {
                            assert(na[q] == old_a[q]);
                            assert(old_a[q].0 != b);
                            assert(old_a[q].0 != a);
                        }
                    }
                    assert(distinct_idx(nb)) by {
                        assert forall|p: int, q: int| 0 <= p < nb.len() && 0 <= q < nb.len() && p != q implies nb[p].0 != nb[q].0 by {
                            if p < mid_b.len() {
                                assert(nb[p] == old_b[p]);
                            }
                            if q < mid_b.len() {
                                assert(nb[q] == old_b[q]);
                            }
                        }
                    }
                    assert(distinct_idx(na)) by {
                        assert forall|p: int, q: int| 0 <= p < na.len() && 0 <= q < na.len() && p != q implies na[p].0 != na[q].0 by {
                            if p < mid_a.len() {
                                assert(na[p] == old_a[p]);
                            }
                            if q < mid_a.len() {
                                assert(na[q] == old_a[q]);
                            }
                        }
                    }
                    assert(disjoint_idx(nb, na)) by {
                        assert forall|p: int, q: int| 0 <= p < nb.len() && 0 <= q < na.len() implies nb[p].0 != na[q].0 by {
                            if p < mid_b.len() {
                                assert(nb[p] == old_b[p]);
                            }
                            if q < mid_a.len() {
                                assert(na[q] == old_a[q]);
                            }
                        }
                    }
                    assert forall|j: int|
                        0 <= j < n && !holds(nb, j) && !holds(na, j) implies #[trigger] mass_of(al, pr, m, j) == w[j] by {
                        lemma_holds_pop(old_b, j);
                        lemma_holds_pop(old_a, j);
                        lemma_holds_push(mid_b, (a, rest), j);
                        lemma_holds_push(mid_a, (a, rest), j);
                        if rest <= mean {
                            assert(nb == mid_b.push((a, rest)));
                            assert(na == mid_a);
                        } else {
                            assert(nb == mid_b);
                            assert(na == mid_a.push((a, rest)));
                        }
                    }
                    assert(stack_sum(old_b) == stack_sum(mid_b) + below.1);
                    assert(stack_sum(old_a) == stack_sum(mid_a) + above.1);
                    if rest <= mean {
                        assert(nb.drop_last() =~= mid_b);
                        assert(stack_sum(nb) == stack_sum(mid_b) + rest);
                    } else {
                        assert(na.drop_last() =~= mid_a);
                        assert(stack_sum(na) == stack_sum(mid_a) + rest);
                    }
                    let c = (nb.len() + na.len()) as int;
                    assert(m * (c + 1) == m * c + m) by (nonlinear_arith);
                }
            } else {
                aliases.set(b, b);
                probs.set(b, below.1);
                proof {
                    let nb = below_vec@;
                    let al = aliases@;
                    let pr = probs@;
                    lemma_stack_sum_bounds(nb, m);
                    assert forall|p: int| 0 <= p < nb.len() implies nb[p].1 <= m by {
                        assert(nb[p] == old_b[p]);
                    }
                    assert(stack_sum(old_b) == stack_sum(nb) + below.1);
                    assert(stack_sum(old_a) == 0);
                    let c = nb.len() as int;
                    assert(m * (c + 1) == m * c + m) by (nonlinear_arith);
                    assert(below.1 == m);
                    assert forall|j: int| 0 <= j < n implies #[trigger] mass_of(al, pr, m, j) == mass_of(old_al, old_pr, m, j) by {
                        lemma_mass_update(old_al, old_pr, m, b as int, b, below.1, n, j);
                    }
                    assert forall|p: int| 0 <= p < nb.len() implies ({
                        let (x, r) = #[trigger] nb[p];
                        &&& x < n
                        &&& r <= m
                        &&& pr[x as int] == 0
                        &&& mass_of(al, pr, m, x as int) + r == w[x as int] + m
                    }) by {
                        assert(nb[p] == old_b[p]);
                        assert(old_b[p].0 != b);
                    }
                    assert(distinct_idx(nb)) by {
                        assert forall|p: int, q: int| 0 <= p < nb.len() && 0 <= q < nb.len() && p != q implies nb[p].0 != nb[q].0 by {
                            assert(nb[p] == old_b[p]);
                            assert(nb[q] == old_b[q]);
                        }
                    }
                    assert forall|j: int|
                        0 <= j < n && !holds(nb, j) && !holds(above_vec@, j) implies #[trigger] mass_of(al, pr, m, j) == w[j] by {
                        lemma_holds_pop(old_b, j);
                    }
                }
            }
        }
        proof {
            lemma_stack_sum_bounds(above_vec@, m);
            assert(stack_sum(below_vec@) == 0);
            assert(above_vec@.len() == 0);
            assert forall|j: int| 0 <= j < n implies mass_of(aliases@, probs@, m, j) == w[j] by {
                assert(!holds(below_vec@, j));
                assert(!holds(above_vec@, j));
            }
        }
        (aliases, probs)
    }

    /// The sum of the weights.
    fn sum(&self) -> (r: u64)
        requires
            self.wf(),
        ensures
            r == sum_of(self@),
    {
        let mut total: u64 = 0;
        let mut i: usize = 0;
        while i < self.index_weights.len()
            invariant
                i <= self@.len(),
                self@.len() <= u32::MAX,
                total == sum_of(self@.subrange(0, i as int)),
            decreases self@.len() - i,
        {
            proof {
                let pre = self@.subrange(0, i as int + 1);
                assert(pre.drop_last() =~= self@.subrange(0, i as int));
                lemma_sum_bound(pre);
                assert(pre.len() * (u32::MAX as nat) <= (u32::MAX as nat) * (u32::MAX as nat)) by (nonlinear_arith)
                    requires pre.len() <= u32::MAX;
            }
            total = total + self.index_weights[i] as u64;
            i = i + 1;
        }
        assert(self@.subrange(0, self@.len() as int) =~= self@);
        total
    }

    /// The mean of the weights; exact, as the weights are normalized.
    fn mean(&self) -> (r: u32)
        requires
            self.wf(),
            self@.len() > 0,
        ensures
            r == mean_of(self@),
            self@.len() * r == sum_of(self@),
    {
        proof {
            lemma_mean_exact(self@);
        }
        (self.sum() / self.index_weights.len() as u64) as u32
    }
}

} // verus!
