use qmf_core::PROB_UNIT;
use qmf_core::entanglement::{Entanglement, LinkType};
use qmf_core::grid::{CellState, QuantumGrid, RevealOutcome, ToolError};

fn make_grid(w: u32, h: u32, mines: u32) -> QuantumGrid {
    QuantumGrid::new(w, h, mines, 42, "observer")
}

fn is_superposition(state: &CellState) -> bool {
    matches!(state, CellState::Superposition { .. })
}

#[test]
fn initial_state_is_all_superposition() {
    let g = make_grid(8, 8, 10);
    assert!(g.cells.iter().all(|c| is_superposition(&c.state)));
    assert!(!g.mines_placed);
    assert_eq!(g.containment_charges, 10);
}

#[test]
fn first_click_is_always_safe() {
    // Try many seeds — the first click should never detonate
    for seed in 0..50 {
        let mut g = QuantumGrid::new(8, 8, 10, seed, "researcher");
        let outcome = g.reveal_cell(4, 4);
        assert!(
            matches!(outcome, RevealOutcome::Revealed { .. }),
            "seed {seed}: first click detonated!"
        );
        assert!(g.mines_placed);
        // Safe zone: (4,4) and its 8 neighbors should not be mines
        for dy in -1_i32..=1 {
            for dx in -1_i32..=1 {
                let nx = 4 + dx;
                let ny = 4 + dy;
                if (0..8).contains(&nx) && (0..8).contains(&ny) {
                    let idx = (ny * 8 + nx) as usize;
                    assert!(
                        !g.mine_map[idx],
                        "seed {seed}: mine in safe zone at ({nx},{ny})"
                    );
                }
            }
        }
    }
}

#[test]
fn corner_first_reveal_is_safe_for_many_seeds() {
    for seed in 0..50 {
        let mut g = QuantumGrid::new(8, 8, 10, seed, "researcher");
        let outcome = g.reveal_cell(0, 0);
        assert!(
            matches!(outcome, RevealOutcome::Revealed { .. }),
            "seed {seed}: corner reveal detonated!"
        );
    }
}

#[test]
fn mine_count_matches_requested() {
    for seed in 0..20 {
        let mut g = QuantumGrid::new(8, 8, 10, seed, "observer");
        g.reveal_cell(0, 0);
        let placed = g.mine_map.iter().filter(|&&m| m).count();
        assert_eq!(placed, 10, "seed {seed}: wrong mine count");
    }
}

#[test]
fn contain_correct_mine_succeeds() {
    let mut g = make_grid(8, 8, 10);
    // Trigger placement via reveal
    g.reveal_cell(0, 0);
    // Find a mine
    let mine_idx = g.mine_map.iter().position(|&m| m).unwrap();
    let (mx, my) = g.coords_of(mine_idx);
    let charges_before = g.containment_charges;
    let outcome = g.contain_cell(mx, my);
    assert!(matches!(outcome, RevealOutcome::ContainmentSuccess { .. }));
    assert_eq!(g.containment_charges, charges_before - 1);
    assert!(matches!(g.cells[mine_idx].state, CellState::Contained));
}

#[test]
fn contain_safe_cell_wastes_charge() {
    let mut g = make_grid(8, 8, 10);
    g.reveal_cell(0, 0);
    // Find a safe unrevealed cell
    let safe_idx = g
        .cells
        .iter()
        .position(|c| {
            is_superposition(&c.state) && !g.mine_map[(c.y * g.width + c.x) as usize]
        })
        .unwrap();
    let (sx, sy) = g.coords_of(safe_idx);
    let charges_before = g.containment_charges;
    let outcome = g.contain_cell(sx, sy);
    assert!(matches!(outcome, RevealOutcome::ContainmentFailed { .. }));
    assert_eq!(g.containment_charges, charges_before - 1);
    // Cell should now be revealed (not superposition)
    assert!(matches!(g.cells[safe_idx].state, CellState::Revealed { .. }));
}

#[test]
fn no_charges_returns_error() {
    let mut g = make_grid(8, 8, 10);
    g.reveal_cell(0, 0);
    g.containment_charges = 0;
    let mine_idx = g.mine_map.iter().position(|&m| m).unwrap();
    let (mx, my) = g.coords_of(mine_idx);
    let outcome = g.contain_cell(mx, my);
    assert!(matches!(outcome, RevealOutcome::NoChargesRemaining));
}

#[test]
fn clicking_mine_detonates() {
    let mut g = make_grid(8, 8, 10);
    g.reveal_cell(0, 0); // safe first click
    let mine_idx = g.mine_map.iter().position(|&m| m).unwrap();
    let (mx, my) = g.coords_of(mine_idx);
    let outcome = g.reveal_cell(mx, my);
    assert!(matches!(outcome, RevealOutcome::MineDetonated { .. }));
    assert!(g.game_over);
}

#[test]
fn win_condition_is_entropy_zero() {
    // 5x5 with 2 mines — large enough that the first-click safe zone
    // doesn't consume all cells
    let mut g = QuantumGrid::new(5, 5, 2, 100, "observer");
    g.reveal_cell(2, 2); // center — always safe

    assert!(g.mines_placed);
    let placed = g.mine_map.iter().filter(|&&m| m).count();
    assert_eq!(placed, 2, "Should have placed 2 mines");

    // Reveal all safe cells
    for i in 0..25 {
        let (x, y) = g.coords_of(i);
        if !g.mine_map[i] && is_superposition(&g.cells[i].state) {
            g.reveal_cell(x, y);
        }
    }

    // Contain the mines
    for i in 0..25 {
        if g.mine_map[i] && is_superposition(&g.cells[i].state) {
            let (mx, my) = g.coords_of(i);
            g.contain_cell(mx, my);
        }
    }

    assert!(g.won, "Should have won after resolving all cells");
    assert_eq!(g.entropy(), 0, "Entropy should be 0");
}

#[test]
fn flood_fill_cascades() {
    // Use a grid where the center area has no adjacent mines
    let mut g = QuantumGrid::new(8, 8, 2, 999, "observer");
    g.reveal_cell(4, 4); // trigger placement

    // After revealing a zero-adjacent cell, count revealed cells.
    // There should be more than 1 if flood fill worked.
    let revealed = g
        .cells
        .iter()
        .filter(|c| matches!(c.state, CellState::Revealed { .. }))
        .count();
    // At minimum, the clicked cell is revealed. If it had 0 adjacent, flood
    // fill should expand.
    assert!(revealed >= 1);
}

#[test]
fn game_already_over_guard() {
    let mut g = make_grid(8, 8, 10);
    g.game_over = true;
    assert!(matches!(
        g.reveal_cell(0, 0),
        RevealOutcome::GameAlreadyOver
    ));
    assert!(matches!(
        g.contain_cell(0, 0),
        RevealOutcome::GameAlreadyOver
    ));
}

#[test]
fn entropy_decreases_on_reveal() {
    let mut g = make_grid(8, 8, 10);
    let e0 = g.entropy();
    assert_eq!(e0, PROB_UNIT);
    g.reveal_cell(0, 0);
    let e1 = g.entropy();
    assert!(e1 < e0, "Entropy should decrease after reveal");
}

#[test]
fn entropy_never_increases_over_action_sequence() {
    let mut g = QuantumGrid::new(6, 6, 4, 77, "theorist");
    let mut last = g.entropy();
    let actions: [(u32, u32, bool); 6] =
        [(0, 0, true), (5, 5, false), (3, 2, true), (1, 4, false), (2, 2, true), (4, 1, true)];
    for (x, y, reveal) in actions {
        if reveal {
            g.reveal_cell(x, y);
        } else {
            g.contain_cell(x, y);
        }
        let e = g.entropy();
        assert!(e <= last, "entropy increased: {e} > {last}");
        last = e;
    }
}

#[test]
fn deterministic_games() {
    // Same seed → same mine layout
    let mut a = QuantumGrid::new(8, 8, 10, 42, "researcher");
    let mut b = QuantumGrid::new(8, 8, 10, 42, "researcher");
    a.reveal_cell(0, 0);
    b.reveal_cell(0, 0);
    assert_eq!(a.mine_map, b.mine_map);
}

#[test]
fn deterministic_full_action_sequence() {
    // Same seed, difficulty, dimensions and ordered action sequence ⇒
    // identical cell states, not just the same layout.
    let mut a = QuantumGrid::new(8, 8, 10, 4242, "theorist");
    let mut b = QuantumGrid::new(8, 8, 10, 4242, "theorist");
    let actions: [(u32, u32, u8); 5] = [(4, 4, 0), (0, 0, 1), (7, 7, 0), (2, 5, 2), (6, 1, 1)];
    for (x, y, kind) in actions {
        match kind {
            0 => {
                assert_eq!(a.reveal_cell(x, y), b.reveal_cell(x, y));
            }
            1 => {
                assert_eq!(a.contain_cell(x, y), b.contain_cell(x, y));
            }
            _ => {
                assert_eq!(a.apply_hadamard(x, y), b.apply_hadamard(x, y));
            }
        }
    }
    assert_eq!(a.mine_map, b.mine_map);
    assert_eq!(a.cells, b.cells);
    assert_eq!(a.game_over, b.game_over);
    assert_eq!(a.won, b.won);
    assert_eq!(a.containment_charges, b.containment_charges);
}

#[test]
fn bell_state_collapse_forces_partner() {
    // Directly test the correlation module's hard-link collapse
    let mut ent = Entanglement::default();
    ent.add_pair(0, 1, PROB_UNIT, LinkType::BellState);

    let pair = ent.pairs[0];

    // Observed mine → partner must be safe (0)
    let result = ent.collapse_partner_probability(&pair, true, 500_000);
    assert_eq!(
        result, 0,
        "hard link: mine observed → partner should be 0, got {result}"
    );

    // Observed safe → partner must be a mine (1)
    let result = ent.collapse_partner_probability(&pair, false, 500_000);
    assert_eq!(
        result, PROB_UNIT,
        "hard link: safe observed → partner should be {PROB_UNIT}, got {result}"
    );
}

#[test]
fn reveal_cell_auto_resolves_bell_partner() {
    // Build a small grid with a manually-injected hard pair.
    let mut g = QuantumGrid::new(8, 8, 10, 42, "observer");
    g.reveal_cell(0, 0); // trigger mine placement

    // Find a mine and a safe cell that are both still in superposition
    let mine_idx = g
        .cells
        .iter()
        .position(|c| {
            is_superposition(&c.state) && g.mine_map[(c.y * g.width + c.x) as usize]
        })
        .expect("should find an unresolved mine");
    let safe_idx = g
        .cells
        .iter()
        .position(|c| {
            is_superposition(&c.state) && !g.mine_map[(c.y * g.width + c.x) as usize]
        })
        .expect("should find an unresolved safe cell");

    // Inject a hard pair between them
    g.entanglement.pairs.clear();
    g.entanglement
        .add_pair(safe_idx, mine_idx, PROB_UNIT, LinkType::BellState);

    // Reveal the safe cell — this should auto-collapse the mine partner
    let (sx, sy) = g.coords_of(safe_idx);
    let outcome = g.reveal_cell(sx, sy);
    assert!(
        matches!(outcome, RevealOutcome::Revealed { .. }),
        "safe cell should be revealed"
    );

    // The mine partner should now be contained (force-collapsed)
    assert!(
        matches!(g.cells[mine_idx].state, CellState::Contained),
        "hard-linked partner mine should be auto-contained, got {:?}",
        g.cells[mine_idx].state
    );
}

#[test]
fn ghz_chain_propagation() {
    // Multi-cell chain: A → B → C all collapse from revealing A.
    let mut g = QuantumGrid::new(8, 8, 10, 42, "observer");
    g.reveal_cell(0, 0); // trigger mine placement

    let cells_in_super: Vec<usize> = g
        .cells
        .iter()
        .enumerate()
        .filter(|(_, c)| is_superposition(&c.state))
        .map(|(i, _)| i)
        .collect();

    // We need at least 3 cells in superposition
    assert!(
        cells_in_super.len() >= 3,
        "not enough superposition cells for the chain test"
    );

    let a = cells_in_super[0];
    let b = cells_in_super[1];
    let c = cells_in_super[2];

    // Set up chain: A ↔ B ↔ C  (all hard links)
    g.entanglement.pairs.clear();
    g.entanglement.add_pair(a, b, PROB_UNIT, LinkType::BellState);
    g.entanglement.add_pair(b, c, PROB_UNIT, LinkType::BellState);

    // All three should be in superposition
    assert!(is_superposition(&g.cells[a].state));
    assert!(is_superposition(&g.cells[b].state));
    assert!(is_superposition(&g.cells[c].state));

    // Reveal cell A
    let (ax, ay) = g.coords_of(a);
    g.reveal_cell(ax, ay);

    // B should now be resolved (no longer superposition)
    assert!(
        !is_superposition(&g.cells[b].state),
        "chain: B should be force-collapsed after revealing A, got {:?}",
        g.cells[b].state
    );

    // C should also be resolved (chain propagation through B)
    assert!(
        !is_superposition(&g.cells[c].state),
        "chain: C should be force-collapsed via chain A→B→C, got {:?}",
        g.cells[c].state
    );
}

#[test]
fn cyclic_chain_terminates_and_resolves() {
    // A cyclic hard-link topology (A–B, B–C, C–A) must still terminate and
    // resolve all three cells exactly once.
    let mut g = QuantumGrid::new(8, 8, 10, 42, "observer");
    g.reveal_cell(0, 0);

    let cells_in_super: Vec<usize> = g
        .cells
        .iter()
        .enumerate()
        .filter(|(_, c)| is_superposition(&c.state))
        .map(|(i, _)| i)
        .collect();
    assert!(cells_in_super.len() >= 3);
    let a = cells_in_super[0];
    let b = cells_in_super[1];
    let c = cells_in_super[2];

    g.entanglement.pairs.clear();
    g.entanglement.add_pair(a, b, PROB_UNIT, LinkType::BellState);
    g.entanglement.add_pair(b, c, PROB_UNIT, LinkType::BellState);
    g.entanglement.add_pair(c, a, PROB_UNIT, LinkType::BellState);

    let (ax, ay) = g.coords_of(a);
    g.reveal_cell(ax, ay);

    assert!(!is_superposition(&g.cells[a].state));
    assert!(!is_superposition(&g.cells[b].state));
    assert!(!is_superposition(&g.cells[c].state));
}

#[test]
fn hadamard_flips_probability() {
    let mut g = make_grid(8, 8, 10);
    // Get initial probability of cell (3, 3)
    let idx = g.index_of(3, 3).unwrap();
    let original_p = match g.cells[idx].state {
        CellState::Superposition { probability } => probability,
        _ => panic!("should be superposition"),
    };

    let result = g.apply_hadamard(3, 3);
    assert!(result.is_ok());
    let new_p = result.unwrap();
    assert_eq!(
        new_p,
        PROB_UNIT - original_p,
        "flip should complement the probability"
    );

    // Verify stored state matches
    match g.cells[idx].state {
        CellState::Superposition { probability } => {
            assert_eq!(probability, new_p);
        }
        _ => panic!("should still be superposition after the flip"),
    }

    // Applying to an already-resolved cell should error
    g.reveal_cell(0, 0);
    let idx_0_0 = g.index_of(0, 0).unwrap();
    if matches!(g.cells[idx_0_0].state, CellState::Revealed { .. }) {
        let err = g.apply_hadamard(0, 0);
        assert!(err.is_err());
    }
}

#[test]
fn hadamard_twice_restores_probability() {
    let mut g = make_grid(8, 8, 10);
    let idx = g.index_of(5, 2).unwrap();
    let original = g.cells[idx].state;
    g.apply_hadamard(5, 2).unwrap();
    g.apply_hadamard(5, 2).unwrap();
    assert_eq!(g.cells[idx].state, original);
}

#[test]
fn measure_weak_returns_probability_with_drift() {
    let mut g = make_grid(8, 8, 10);
    let idx = g.index_of(3, 3).unwrap();
    let original_p = match g.cells[idx].state {
        CellState::Superposition { probability } => probability,
        _ => panic!("should be superposition"),
    };

    // Weak measurement should return the original probability
    let observed = g.measure_weak(3, 3).unwrap();
    assert_eq!(
        observed, original_p,
        "measure_weak should return the original probability"
    );

    // But the stored state should have drifted by at most the drift band
    let stored_p = match g.cells[idx].state {
        CellState::Superposition { probability } => probability,
        _ => panic!("should still be superposition after weak measurement"),
    };
    let drift = if stored_p > original_p {
        stored_p - original_p
    } else {
        original_p - stored_p
    };
    assert!(
        drift <= 50_000,
        "drift should be small: original={original_p}, stored={stored_p}"
    );
}

#[test]
fn probabilistic_link_unchanged() {
    // Weak links do a strength-weighted blend
    let mut ent = Entanglement::default();
    ent.add_pair(0, 1, 500_000, LinkType::Probabilistic);

    let pair = ent.pairs[0];

    // Mine observed, baseline 0.3 → result should blend toward 0.7
    let result = ent.collapse_partner_probability(&pair, true, 300_000);
    // Expected: 0.3 * 0.5 + 0.7 * 0.5 = 0.5
    assert_eq!(result, 500_000, "weak link: expected 500000, got {result}");

    // Safe observed, baseline 0.3 → result should blend toward 0.3
    let result = ent.collapse_partner_probability(&pair, false, 300_000);
    // Expected: 0.3 * 0.5 + 0.3 * 0.5 = 0.3
    assert_eq!(result, 300_000, "weak link: expected 300000, got {result}");
}

#[test]
fn add_pair_clamps_strength() {
    let mut ent = Entanglement::default();
    ent.add_pair(0, 1, 5_000_000, LinkType::Probabilistic);
    assert_eq!(ent.pairs[0].strength, PROB_UNIT);
}

#[test]
fn partner_lookup_finds_first_and_all() {
    let mut ent = Entanglement::default();
    ent.add_pair(0, 1, 200_000, LinkType::Probabilistic);
    ent.add_pair(2, 1, 300_000, LinkType::BellState);
    let (first, partner) = ent.partner_of(1).unwrap();
    assert_eq!(partner, 0);
    assert_eq!(first.strength, 200_000);
    let all = ent.partners_of(1);
    assert_eq!(all.len(), 2);
    assert_eq!(all[0].1, 0);
    assert_eq!(all[1].1, 2);
    assert!(ent.partner_of(7).is_none());
}

#[test]
fn out_of_bounds_actions_report_it() {
    let mut g = make_grid(8, 8, 10);
    assert!(matches!(g.reveal_cell(8, 0), RevealOutcome::OutOfBounds));
    assert!(matches!(g.contain_cell(0, 8), RevealOutcome::OutOfBounds));
    assert_eq!(g.apply_hadamard(9, 9), Err(ToolError::OutOfBounds));
    assert_eq!(g.measure_weak(9, 9), Err(ToolError::OutOfBounds));
}

#[test]
fn already_resolved_reported() {
    let mut g = make_grid(8, 8, 10);
    g.reveal_cell(4, 4);
    assert!(matches!(g.reveal_cell(4, 4), RevealOutcome::AlreadyResolved));
    assert!(matches!(g.contain_cell(4, 4), RevealOutcome::AlreadyResolved));
    assert_eq!(g.apply_hadamard(4, 4), Err(ToolError::AlreadyResolved));
    assert_eq!(g.measure_weak(4, 4), Err(ToolError::AlreadyResolved));
}

#[test]
fn tool_error_messages() {
    assert_eq!(ToolError::OutOfBounds.message(), "coordinates out of bounds");
    assert_eq!(ToolError::AlreadyResolved.message(), "cell is already resolved");
}

#[test]
fn charges_run_down_to_zero_then_refuse() {
    let mut g = QuantumGrid::new(5, 5, 2, 100, "observer");
    g.reveal_cell(2, 2);
    let mut remaining = g.containment_charges;
    assert_eq!(remaining, 2);
    // Spend each charge on a still-unresolved cell, right or wrong.
    for i in 0..25 {
        if remaining == 0 {
            break;
        }
        if is_superposition(&g.cells[i].state) && !g.won && !g.game_over {
            let (x, y) = g.coords_of(i);
            let outcome = g.contain_cell(x, y);
            match outcome {
                RevealOutcome::ContainmentSuccess { .. } | RevealOutcome::ContainmentFailed { .. } => {
                    assert_eq!(g.containment_charges, remaining - 1);
                    remaining -= 1;
                }
                other => panic!("unexpected outcome: {other:?}"),
            }
        }
    }
    if !g.won && !g.game_over {
        if let Some(i) = g.cells.iter().position(|c| is_superposition(&c.state)) {
            let (x, y) = g.coords_of(i);
            assert!(matches!(
                g.contain_cell(x, y),
                RevealOutcome::NoChargesRemaining
            ));
        }
    }
}

#[test]
fn probability_cloud_projects_states() {
    let mut g = make_grid(8, 8, 10);
    g.reveal_cell(0, 0);
    let mine_idx = g.mine_map.iter().position(|&m| m).unwrap();
    let (mx, my) = g.coords_of(mine_idx);
    g.contain_cell(mx, my);
    let cloud = g.get_probability_cloud();
    assert_eq!(cloud.len(), 64);
    for (i, v) in cloud.iter().enumerate() {
        match g.cells[i].state {
            CellState::Superposition { probability } => assert_eq!(*v, probability),
            CellState::Revealed { .. } => assert_eq!(*v, 0),
            CellState::Contained | CellState::Detonated => assert_eq!(*v, PROB_UNIT),
        }
    }
}

#[test]
fn snapshot_projects_full_state() {
    let mut g = QuantumGrid::new(6, 7, 5, 31, "theorist");
    g.reveal_cell(3, 3);
    let s = g.snapshot();
    assert_eq!(s.width, 6);
    assert_eq!(s.height, 7);
    assert_eq!(s.seed, 31);
    assert_eq!(s.game_over, g.game_over);
    assert_eq!(s.won, g.won);
    assert_eq!(s.containment_charges, g.containment_charges);
    assert_eq!(s.entropy, g.entropy());
    assert_eq!(s.cells, g.cells);
}

#[test]
fn maximum_mine_count_fills_everything_but_the_safe_zone() {
    // 5×5 with the largest allowed count: every cell outside the 3×3 zone
    // around the anchor is a mine.
    let mut g = QuantumGrid::new(5, 5, 16, 7, "researcher");
    assert_eq!(g.mine_count, 16);
    let outcome = g.reveal_cell(2, 2);
    assert!(matches!(outcome, RevealOutcome::Revealed { .. }));
    let placed = g.mine_map.iter().filter(|&&m| m).count();
    assert_eq!(placed, 16);
    for y in 0..5u32 {
        for x in 0..5u32 {
            let in_zone = (1..=3).contains(&x) && (1..=3).contains(&y);
            assert_eq!(g.mine_map[(y * 5 + x) as usize], !in_zone);
        }
    }
}

#[test]
fn mine_count_clamped_to_leave_safe_zone() {
    let g = QuantumGrid::new(4, 4, 100, 5, "observer");
    assert_eq!(g.mine_count, 16 - 9);
    assert_eq!(g.containment_charges, g.mine_count);
}
