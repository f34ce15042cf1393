//! The probability-transform pipeline: an ordered sequence of elementary
//! transforms that scrambles a raw probability into the player-visible hint.
//!
//! Probabilities are fixed-point values in parts per million. A rotation gate
//! carries its mixing weight cos²(θ/2) directly (in parts per million), since
//! that weight is the only thing the rotation formula reads of the angle.

use vstd::prelude::*;

use crate::PROB_HALF;
use crate::PROB_UNIT;
use crate::lemma_weighted_mix_bounded;
use crate::str_eq;

verus! {

/// Mixing weight of a π/6 rotation: cos²(π/12) in parts per million.
pub const ROT_PI_6: u64 = 933_013;

/// Mixing weight of a π/4 rotation: cos²(π/8) in parts per million.
pub const ROT_PI_4: u64 = 853_553;

/// Mixing weight of a π/3 rotation: cos²(π/6) in parts per million.
pub const ROT_PI_3: u64 = 750_000;

#[derive(Clone, Copy, Debug, PartialEq, Eq)]
pub enum Gate {
    /// Compress toward the middle: p' = (p + 1/2) / 2.
    Hadamard,
    /// Flip: p' = 1 - p.
    Not,
    /// Rotate: p' = p·c + (1−p)·(1−c), where the payload c is the mixing
    /// weight cos²(θ/2) in parts per million (clamped to `PROB_UNIT` on use;
    /// θ = 0 gives weight `PROB_UNIT` and is the identity, θ = π gives
    /// weight 0 and is a full flip).
    PhaseShift(u64),
}

#[derive(Clone, Debug)]
pub struct Circuit {
    pub gates: Vec<Gate>,
}

/// One gate applied to a probability (both in parts per million).
pub open spec fn spec_apply_gate(g: Gate, p: u64) -> u64
    recommends
        p <= PROB_UNIT,
{
    match g {
        Gate::Hadamard => (((p + PROB_HALF) as int / 2) as u64),
        Gate::Not => ((PROB_UNIT - p) as u64),
        Gate::PhaseShift(c) => {
            let cc: int = if c > PROB_UNIT {
                PROB_UNIT as int
            } else {
                c as int
            };
            ((((p as int) * cc + (PROB_UNIT - p) * ((PROB_UNIT as int) - cc)) / (
            PROB_UNIT as int)) as u64)
        },
    }
}

/// The whole gate chain applied left to right.
pub open spec fn spec_apply_gates(gs: Seq<Gate>, p: u64) -> u64
    recommends
        p <= PROB_UNIT,
    decreases gs.len(),
{
    if gs.len() == 0 {
        p
    } else {
        spec_apply_gates(gs.drop_first(), spec_apply_gate(gs[0], p))
    }
}

/// Every gate maps the unit interval into itself.
pub proof fn lemma_gate_bounded(g: Gate, p: u64)
    requires
        p <= PROB_UNIT,
    ensures
        spec_apply_gate(g, p) <= PROB_UNIT,
{
    match g {
        Gate::Hadamard => {
        },
        Gate::Not => {
        },
        Gate::PhaseShift(c) => {
            let cc: int = if c > PROB_UNIT {
                PROB_UNIT as int
            } else {
                c as int
            };
            lemma_weighted_mix_bounded(p as int, PROB_UNIT - p, cc, PROB_UNIT as int);
        },
    }
}

/// A whole gate chain maps the unit interval into itself.
pub proof fn lemma_gates_bounded(gs: Seq<Gate>, p: u64)
    requires
        p <= PROB_UNIT,
    ensures
        spec_apply_gates(gs, p) <= PROB_UNIT,
    decreases gs.len(),
{
    if gs.len() > 0 {
        lemma_gate_bounded(gs[0], p);
        lemma_gates_bounded(gs.drop_first(), spec_apply_gate(gs[0], p));
    }
}

impl Default for Circuit {
    fn default() -> (r: Self)
        ensures
            r.gates@ == Seq::<Gate>::empty(),
    {
        Circuit { gates: Vec::new() }
    }
}

impl Circuit {
    pub fn with_gate(self, gate: Gate) -> (r: Self)
        ensures
            r.gates@ == self.gates@.push(gate),
    {
        let mut c = self;
        c.gates.push(gate);
        c
    }

    /// Run a probability (parts per million) through every gate in order.
    pub fn apply_probability(&self, input: u64) -> (r: u64)
        ensures
            r == spec_apply_gates(
                self.gates@,
                if input > PROB_UNIT {
                    PROB_UNIT
                } else {
                    input
                },
            ),
            r <= PROB_UNIT,
    {
        let mut p: u64 = if input > PROB_UNIT {
            PROB_UNIT
        } else {
            input
        };
        let ghost p0: u64 = p;
        proof {
            assert(self.gates@.skip(0) =~= self.gates@);
        }
        let n = self.gates.len();
        let mut k: usize = 0;
        while k < n
            invariant
                0 <= k <= n,
                n == self.gates@.len(),
                p <= PROB_UNIT,
                spec_apply_gates(self.gates@, p0) == spec_apply_gates(self.gates@.skip(k as int), p),
            decreases n - k,
        {
            let g = self.gates[k];
            proof {
                assert(self.gates@.skip(k as int)[0] == self.gates@[k as int]);
                assert(self.gates@.skip(k as int).drop_first() =~= self.gates@.skip(k as int + 1));
                lemma_gate_bounded(g, p);
            }
            let next: u64 = match g {
                Gate::Hadamard => (p + PROB_HALF) / 2,
                Gate::Not => PROB_UNIT - p,
                Gate::PhaseShift(c) => {
                    let cc: u64 = if c > PROB_UNIT {
                        PROB_UNIT
                    } else {
                        c
                    };
                    proof {
                        lemma_weighted_mix_bounded(
                            p as int,
                            PROB_UNIT - p,
                            cc as int,
                            PROB_UNIT as int,
                        );
                    }
                    (p * cc + (PROB_UNIT - p) * (PROB_UNIT - cc)) / PROB_UNIT
                },
            };
            p = next;
            k = k + 1;
        }
        proof {
            assert(self.gates@.skip(n as int) =~= Seq::<Gate>::empty());
        }
        p
    }

    /// Construct a difficulty-appropriate gate pipeline.
    ///
    /// - `"observer"`:   mild distortion — probabilities stay close to truth
    /// - `"researcher"`: moderate scrambling (also any unrecognized label)
    /// - `"theorist"`:   heavy scrambling — hints are unreliable
    pub fn for_difficulty(label: &str) -> (r: Self)
        ensures
            label@ == "observer"@ ==> r.gates@ == seq![Gate::PhaseShift(ROT_PI_6)],
            label@ == "theorist"@ ==> r.gates@ == seq![
                Gate::Hadamard,
                Gate::PhaseShift(ROT_PI_3),
                Gate::Hadamard,
            ],
            label@ != "observer"@ && label@ != "theorist"@ ==> r.gates@ == seq![
                Gate::Hadamard,
                Gate::PhaseShift(ROT_PI_4),
            ],
    {
        proof {
            reveal_strlit("observer");
            reveal_strlit("theorist");
            assert("observer"@[0] != "theorist"@[0]);
        }
        if str_eq(label, "observer") {
            let r = Self::default().with_gate(Gate::PhaseShift(ROT_PI_6));
            proof {
                assert(r.gates@ =~= seq![Gate::PhaseShift(ROT_PI_6)]);
            }
            r
        } else if str_eq(label, "theorist") {
            let r = Self::default().with_gate(Gate::Hadamard).with_gate(
                Gate::PhaseShift(ROT_PI_3),
            ).with_gate(Gate::Hadamard);
            proof {
                assert(r.gates@ =~= seq![
                    Gate::Hadamard,
                    Gate::PhaseShift(ROT_PI_3),
                    Gate::Hadamard,
                ]);
            }
            r
        } else {
            let r = Self::default().with_gate(Gate::Hadamard).with_gate(
                Gate::PhaseShift(ROT_PI_4),
            );
            proof {
                assert(r.gates@ =~= seq![Gate::Hadamard, Gate::PhaseShift(ROT_PI_4)]);
            }
            r
        }
    }
}

} // verus!
