//! The correlation registry: pairwise links between cell indices, each with a
//! strength and a kind, supporting lookup of one or all partners of a cell and
//! the rule for how observing one cell affects a linked partner.

use vstd::prelude::*;

use crate::PROB_UNIT;
use crate::lemma_weighted_mix_bounded;

verus! {

/// The kind of link between two correlated cells.
#[derive(Clone, Copy, Debug, PartialEq, Eq)]
pub enum LinkType {
    /// Bayesian probability adjustment — weak correlation.
    Probabilistic,
    /// Perfect anti-correlation: observing one endpoint instantly collapses
    /// the partner to a definite state.
    BellState,
}

#[derive(Clone, Copy, Debug)]
pub struct EntanglementPair {
    pub left: usize,
    pub right: usize,
    /// Blend strength in parts per million.
    pub strength: u64,
    pub link_type: LinkType,
}

#[derive(Clone, Debug)]
pub struct Entanglement {
    pub pairs: Vec<EntanglementPair>,
}

/// Whether a link has `index` as one of its endpoints.
pub open spec fn spec_touches(pair: EntanglementPair, index: usize) -> bool {
    pair.left == index || pair.right == index
}

/// The endpoint of a link other than `index` (the link itself if `index` sits
/// on both sides).
pub open spec fn spec_other(pair: EntanglementPair, index: usize) -> usize {
    if pair.left == index {
        pair.right
    } else {
        pair.left
    }
}

/// Whether some hard (Bell-state) link joins cells `a` and `b`.
pub open spec fn spec_hard_linked(pairs: Seq<EntanglementPair>, a: usize, b: usize) -> bool {
    exists|k: int|
        0 <= k < pairs.len() && pairs[k].link_type == LinkType::BellState && spec_touches(
            pairs[k],
            a,
        ) && spec_other(pairs[k], a) == b
}

/// The weak-link blend: move the clamped baseline toward its target (the
/// flipped baseline if a mine was observed, the baseline itself otherwise) by
/// the given strength. All values in parts per million.
pub open spec fn spec_weak_blend(strength: u64, observed_mine: bool, baseline: u64) -> u64 {
    let s: int = if strength > PROB_UNIT {
        PROB_UNIT as int
    } else {
        strength as int
    };
    let b: int = if baseline > PROB_UNIT {
        PROB_UNIT as int
    } else {
        baseline as int
    };
    let target: int = if observed_mine {
        PROB_UNIT - b
    } else {
        b
    };
    (((b * ((PROB_UNIT as int) - s) + target * s) / (PROB_UNIT as int)) as u64)
}

/// The displayed probability of cell `p` after the first `k` links have been
/// processed for an observation of `index`: every weak link joining `index`
/// and `p` applies its blend, in order; other links leave it alone.
pub open spec fn spec_weak_fold(
    pairs: Seq<EntanglementPair>,
    index: usize,
    p: usize,
    observed_mine: bool,
    init: u64,
    k: int,
) -> u64
    decreases k,
{
    if k <= 0 {
        init
    } else {
        let prev = spec_weak_fold(pairs, index, p, observed_mine, init, k - 1);
        let pr = pairs[k - 1];
        if pr.link_type == LinkType::Probabilistic && spec_touches(pr, index) && spec_other(
            pr,
            index,
        ) == p {
            spec_weak_blend(pr.strength, observed_mine, prev)
        } else {
            prev
        }
    }
}

/// Every link touching `index` among the first `k`, in insertion order, each
/// paired with its other endpoint.
pub open spec fn spec_partners_upto(
    pairs: Seq<EntanglementPair>,
    index: usize,
    k: int,
) -> Seq<(EntanglementPair, usize)>
    decreases k,
{
    if k <= 0 {
        Seq::empty()
    } else {
        let s = spec_partners_upto(pairs, index, k - 1);
        if spec_touches(pairs[k - 1], index) {
            s.push((pairs[k - 1], spec_other(pairs[k - 1], index)))
        } else {
            s
        }
    }
}

impl Default for Entanglement {
    fn default() -> (r: Self)
        ensures
            r.pairs@ == Seq::<EntanglementPair>::empty(),
    {
        Entanglement { pairs: Vec::new() }
    }
}

impl Entanglement {
    /// Append a link, clamping its strength into the unit interval.
    pub fn add_pair(&mut self, left: usize, right: usize, strength: u64, link_type: LinkType)
        ensures
            final(self).pairs@ == old(self).pairs@.push(
                EntanglementPair {
                    left,
                    right,
                    strength: if strength > PROB_UNIT {
                        PROB_UNIT
                    } else {
                        strength
                    },
                    link_type,
                },
            ),
    {
        let s: u64 = if strength > PROB_UNIT {
            PROB_UNIT
        } else {
            strength
        };
        self.pairs.push(EntanglementPair { left, right, strength: s, link_type });
    }

    /// Find the first link touching `index`, with the other endpoint.
    pub fn partner_of(&self, index: usize) -> (r: Option<(EntanglementPair, usize)>)
        ensures
            match r {
                Option::None => forall|k: int|
                    0 <= k < self.pairs@.len() ==> !spec_touches(self.pairs@[k], index),
                Option::Some((pair, partner)) => exists|k: int|
                    0 <= k < self.pairs@.len() && pair == self.pairs@[k] && spec_touches(
                        pair,
                        index,
                    ) && partner == spec_other(pair, index) && (forall|j: int|
                        0 <= j < k ==> !spec_touches(self.pairs@[j], index)),
            },
    {
        let n = self.pairs.len();
        let mut k: usize = 0;
        while k < n
            invariant
                0 <= k <= n,
                n == self.pairs@.len(),
                forall|j: int| 0 <= j < k ==> !spec_touches(self.pairs@[j], index),
            decreases n - k,
        {
            let pair = self.pairs[k];
            if pair.left == index {
                return Some((pair, pair.right));
            }
            if pair.right == index {
                return Some((pair, pair.left));
            }
            k = k + 1;
        }
        None
    }

    /// Find every link touching `index`, in insertion order, each with the
    /// other endpoint (needed for chains): one entry per touching link,
    /// nothing else.
    pub fn partners_of(&self, index: usize) -> (r: Vec<(EntanglementPair, usize)>)
        ensures
            r@ == spec_partners_upto(self.pairs@, index, self.pairs@.len() as int),
    {
        let n = self.pairs.len();
        let mut r: Vec<(EntanglementPair, usize)> = Vec::new();
        let mut k: usize = 0;
        while k < n
            invariant
                0 <= k <= n,
                n == self.pairs@.len(),
                r@ == spec_partners_upto(self.pairs@, index, k as int),
            decreases n - k,
        {
            let pair = self.pairs[k];
            if pair.left == index {
                r.push((pair, pair.right));
            } else if pair.right == index {
                r.push((pair, pair.left));
            }
            k = k + 1;
        }
        r
    }

    /// Compute the partner's new displayed probability after observing a cell.
    ///
    /// - `BellState`: perfect anti-correlation, ignoring strength and
    ///   baseline. If a mine was observed the partner is safe (0); if safe
    ///   was observed the partner is a mine (`PROB_UNIT`).
    /// - `Probabilistic`: the strength-weighted blend `spec_weak_blend`.
    pub fn collapse_partner_probability(
        &self,
        pair: &EntanglementPair,
        observed_mine: bool,
        baseline_probability: u64,
    ) -> (r: u64)
        ensures
            pair.link_type == LinkType::BellState ==> r == (if observed_mine {
                0u64
            } else {
                PROB_UNIT
            }),
            pair.link_type == LinkType::Probabilistic ==> r == spec_weak_blend(
                pair.strength,
                observed_mine,
                baseline_probability,
            ),
            r <= PROB_UNIT,
    {
        match pair.link_type {
            LinkType::BellState => {
                if observed_mine {
                    0
                } else {
                    PROB_UNIT
                }
            },
            LinkType::Probabilistic => {
                let s: u64 = if pair.strength > PROB_UNIT {
                    PROB_UNIT
                } else {
                    pair.strength
                };
                let b: u64 = if baseline_probability > PROB_UNIT {
                    PROB_UNIT
                } else {
                    baseline_probability
                };
                let target: u64 = if observed_mine {
                    PROB_UNIT - b
                } else {
                    b
                };
                proof {
                    lemma_weighted_mix_bounded(
                        target as int,
                        b as int,
                        s as int,
                        PROB_UNIT as int,
                    );
                }
                (b * (PROB_UNIT - s) + target * s) / PROB_UNIT
            },
        }
    }
}

} // verus!
