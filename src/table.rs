//! The alias table and the constant-time draw.

use rand::Rng;
use rand::rngs::StdRng;
use vstd::prelude::*;

verus! {

#[verifier::external_type_specification]
#[verifier::external_body]
pub struct ExStdRng(StdRng);

/// What slot `i` hands to index `j`, in units of `1 / (n * scale)` of the
/// total probability: slot `i` is drawn with probability `1 / n`; it keeps
/// `i` with probability `(scale - probs[i]) / scale` and jumps to
/// `aliases[i]` with probability `probs[i] / scale`.
pub open spec fn slot_share(aliases: Seq<usize>, probs: Seq<u32>, scale: nat, i: int, j: int) -> int {
    (if i == j {
        scale - probs[i]
    } else {
        0int
    }) + (if aliases[i] == j {
        probs[i] as int
    } else {
        0int
    })
}

/// The shares that slots `0..k` hand to index `j`.
pub open spec fn mass_upto(aliases: Seq<usize>, probs: Seq<u32>, scale: nat, k: int, j: int) -> int
    decreases k,
{
    if k <= 0 {
        0
    } else {
        mass_upto(aliases, probs, scale, k - 1, j) + slot_share(aliases, probs, scale, k - 1, j)
    }
}

/// Replacing one slot changes the mass of every index by the difference of
/// that slot's shares alone.
pub proof fn lemma_mass_update(
    aliases: Seq<usize>,
    probs: Seq<u32>,
    scale: nat,
    b: int,
    alias: usize,
    prob: u32,
    k: int,
    j: int,
)
    requires
        aliases.len() == probs.len(),
        0 <= b < aliases.len(),
        k <= aliases.len(),
    ensures
        mass_upto(aliases.update(b, alias), probs.update(b, prob), scale, k, j) == mass_upto(
            aliases,
            probs,
            scale,
            k,
            j,
        ) + if b < k {
            slot_share(aliases.update(b, alias), probs.update(b, prob), scale, b, j)
                - slot_share(aliases, probs, scale, b, j)
        } else {
            0
        },
    decreases k,
{
    if k > 0 {
        lemma_mass_update(aliases, probs, scale, b, alias, prob, k - 1, j);
    }
}

/// Where every acceptance numerator is zero, each slot keeps its own index:
/// index `j` gets exactly the share of its own slot.
pub proof fn lemma_mass_of_keeping_slots(
    aliases: Seq<usize>,
    probs: Seq<u32>,
    scale: nat,
    k: int,
    j: int,
)
    requires
        aliases.len() == probs.len(),
        k <= aliases.len(),
        0 <= j,
        forall|i: int| 0 <= i < probs.len() ==> probs[i] == 0,
    ensures
        mass_upto(aliases, probs, scale, k, j) == if j < k {
            scale as int
        } else {
            0
        },
    decreases k,
{
    if k > 0 {
        lemma_mass_of_keeping_slots(aliases, probs, scale, k - 1, j);
    }
}

/// Every share is non-negative when numerators stay within the scale, so the
/// mass of `j` is at least the share any one slot hands it.
pub proof fn lemma_mass_at_least_share(
    aliases: Seq<usize>,
    probs: Seq<u32>,
    scale: nat,
    k: int,
    i: int,
    j: int,
)
    requires
        aliases.len() == probs.len(),
        k <= aliases.len(),
        forall|x: int| 0 <= x < probs.len() ==> probs[x] <= scale,
    ensures
        mass_upto(aliases, probs, scale, k, j) >= 0,
        0 <= i < k ==> mass_upto(aliases, probs, scale, k, j) >= slot_share(aliases, probs, scale, i, j),
    decreases k,
{
    if k > 0 {
        lemma_mass_at_least_share(aliases, probs, scale, k - 1, i, j);
        assert(probs[k - 1] <= scale);
    }
}

/// Table of aliases and acceptance probabilities.
///
/// A draw picks a slot `i` uniformly from `0..n` and a value `r` uniformly
/// from `0..scale`; it returns `aliases[i]` when `r < probs[i]`, and `i`
/// otherwise. So `probs[i] / scale` is the probability that slot `i` jumps
/// to its alias.
#[derive(Debug, Clone)]
pub struct WalkerTable {
    /// Alias of each slot, an index of the table.
    aliases: Vec<usize>,
    /// Numerator of each slot's probability of jumping to its alias.
    probs: Vec<u32>,
    /// The common denominator of `probs`.
    scale: u32,
}

impl WalkerTable {
    pub closed spec fn aliases_spec(&self) -> Seq<usize> {
        self.aliases@
    }

    pub closed spec fn probs_spec(&self) -> Seq<u32> {
        self.probs@
    }

    pub closed spec fn scale_spec(&self) -> nat {
        self.scale as nat
    }

    /// The number of slots, which is also the number of indexes.
    pub open spec fn len_spec(&self) -> nat {
        self.aliases_spec().len()
    }

    /// Aliases are indexes of the table, numerators do not exceed the
    /// denominator, and the denominator is positive.
    pub open spec fn wf(&self) -> bool {
        &&& self.aliases_spec().len() == self.probs_spec().len()
        &&& self.scale_spec() > 0
        &&& forall|i: int| 0 <= i < self.len_spec() ==> self.aliases_spec()[i] < self.len_spec()
        &&& forall|i: int| 0 <= i < self.len_spec() ==> self.probs_spec()[i] <= self.scale_spec()
    }

    /// The weight with which a draw returns `j`: a draw returns `j` with
    /// probability `mass(j) / total()`.
    pub open spec fn mass(&self, j: int) -> int {
        mass_upto(self.aliases_spec(), self.probs_spec(), self.scale_spec(), self.len_spec() as int, j)
    }

    /// The sum of all masses: one `scale` per slot.
    pub open spec fn total(&self) -> int {
        (self.len_spec() * self.scale_spec()) as int
    }

    /// What a draw returns for slot `i` and value `r`.
    pub open spec fn outcome(&self, i: int, r: int) -> int {
        if r < self.probs_spec()[i] {
            self.aliases_spec()[i] as int
        } else {
            i
        }
    }

    /// Whether `k` is the outcome of some slot and value a draw can pick.
    pub open spec fn can_draw(&self, k: int) -> bool {
        exists|i: int, r: int|
            0 <= i < self.len_spec() && 0 <= r < self.scale_spec() && #[trigger] self.outcome(i, r) == k
    }

    /// An index that a draw can return has positive mass.
    pub proof fn lemma_drawn_has_mass(&self, k: int)
        requires
            self.wf(),
            self.can_draw(k),
        ensures
            self.mass(k) > 0,
    {
        let (i, r) = choose|i: int, r: int|
            0 <= i < self.len_spec() && 0 <= r < self.scale_spec() && #[trigger] self.outcome(i, r) == k;
        lemma_mass_at_least_share(
            self.aliases_spec(),
            self.probs_spec(),
            self.scale_spec(),
            self.len_spec() as int,
            i,
            k,
        );
        assert(self.probs_spec()[i] <= self.scale_spec());
    }

    /// Creates a table from aliases, acceptance numerators and their common
    /// denominator.
    pub fn new(aliases: Vec<usize>, probs: Vec<u32>, scale: u32) -> (r: WalkerTable)
        requires
            aliases@.len() == probs@.len(),
            scale > 0,
            forall|i: int| 0 <= i < aliases@.len() ==> aliases@[i] < aliases@.len(),
            forall|i: int| 0 <= i < probs@.len() ==> probs@[i] <= scale,
        ensures
            r.wf(),
            r.aliases_spec() == aliases@,
            r.probs_spec() == probs@,
            r.scale_spec() == scale,
    {
        WalkerTable { aliases, probs, scale }
    }

    /// The number of indexes the table draws from.
    pub fn len(&self) -> (r: usize)
        ensures
            r == self.len_spec(),
    {
        self.aliases.len()
    }

    /// The alias of each slot.
    pub fn aliases(&self) -> (r: &[usize])
        ensures
            r@ == self.aliases_spec(),
    {
        self.aliases.as_slice()
    }

    /// The numerator of each slot's probability of jumping to its alias.
    pub fn probs(&self) -> (r: &[u32])
        ensures
            r@ == self.probs_spec(),
    {
        self.probs.as_slice()
    }

    /// The common denominator of the acceptance numerators.
    pub fn scale(&self) -> (r: u32)
        ensures
            r == self.scale_spec(),
    {
        self.scale
    }

    /// The draw for slot `i` and value `r`, both already chosen: the alias
    /// of `i` when `r` is below its numerator, else `i` itself.
    pub fn pick(&self, i: usize, r: u32) -> (k: usize)
        requires
            self.wf(),
            i < self.len_spec(),
            r < self.scale_spec(),
        ensures
            k == self.outcome(i as int, r as int),
            k < self.len_spec(),
    {
        if r < self.probs[i] {
            self.aliases[i]
        } else {
            i
        }
    }

    /// Returns an index at random, drawn with the thread-local generator.
    pub fn next(&self) -> (k: usize)
        requires
            self.wf(),
            self.len_spec() > 0,
        ensures
            k < self.len_spec(),
            self.can_draw(k as int),
    {
        let i = ambient_below(self.aliases.len());
        let r = ambient_below(self.scale as usize) as u32;
        let k = self.pick(i, r);
        assert(self.outcome(i as int, r as int) == k);
        k
    }

    /// Returns an index at random, drawn with the given generator.
    pub fn next_rng(&self, rng: &mut StdRng) -> (k: usize)
        requires
            self.wf(),
            self.len_spec() > 0,
        ensures
            k < self.len_spec(),
            self.can_draw(k as int),
    {
        let i = draw_below(rng, self.aliases.len());
        let r = draw_below(rng, self.scale as usize) as u32;
        let k = self.pick(i, r);
        assert(self.outcome(i as int, r as int) == k);
        k
    }
}

/// Relies on `rand::thread_rng` and `Rng::gen_range` on a half-open range:
/// the value lies in `0..n`; `gen_range` panics only on an empty range.
#[verifier::external_body]
fn ambient_below(n: usize) -> (r: usize)
    requires
        n > 0,
    ensures
        r < n,
{
    rand::thread_rng().gen_range(0..n)
}

/// Relies on `Rng::gen_range` for `StdRng` on a half-open range: the value
/// lies in `0..n`; it panics only on an empty range.
#[verifier::external_body]
fn draw_below(rng: &mut StdRng, n: usize) -> (r: usize)
    requires
        n > 0,
    ensures
        r < n,
{
    rng.gen_range(0..n)
}

} // verus!
