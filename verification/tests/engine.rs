use qfin_twin::config::QuantumConfig;
use qfin_twin::engine::{EngineClock, IntervalTrigger};
use qfin_twin::portfolio::{Holdings, PositionChange};
use qfin_twin::regime::{count_switches, regime_counts, transition_counts};

#[test]
fn clock_trades_every_tick_without_a_halt() {
    let mut c = EngineClock::new();
    assert_eq!(c.tick(), 0);
    for t in 1..=5 {
        assert!(c.begin_tick());
        assert_eq!(c.tick(), t);
    }
    assert!(!c.is_halted());
}

#[test]
fn a_halt_lasts_exactly_the_cooldown() {
    let mut c = EngineClock::new();
    assert!(c.begin_tick());
    c.trip(3);
    assert!(c.is_halted());
    assert!(!c.begin_tick());
    assert!(!c.begin_tick());
    assert!(!c.begin_tick());
    assert!(!c.is_halted());
    assert!(c.begin_tick());
    assert_eq!(c.tick(), 5);
}

#[test]
fn a_second_trip_during_a_halt_does_not_extend_it() {
    let mut c = EngineClock::new();
    c.trip(2);
    assert!(!c.begin_tick());
    c.trip(10);
    assert!(!c.begin_tick());
    assert!(c.begin_tick());
}

#[test]
fn optimisation_runs_on_multiples_of_the_frequency() {
    let q = QuantumConfig { enable_qaoa: true, enable_annealing: false, enable_tensor_networks: false, optimization_frequency_ticks: 3 };
    let off = QuantumConfig { enable_qaoa: false, ..q };
    let mut c = EngineClock::new();
    let mut due = Vec::new();
    for _ in 0..7 {
        c.begin_tick();
        due.push(c.optimization_due(&q));
        assert!(!c.optimization_due(&off));
    }
    assert_eq!(due, vec![false, false, true, false, false, true, false]);
}

#[test]
fn trigger_fires_every_period() {
    let mut t = IntervalTrigger::new(3);
    let fired: Vec<bool> = (0..7).map(|_| t.advance()).collect();
    assert_eq!(fired, vec![false, false, true, false, false, true, false]);
}

#[test]
fn trigger_with_period_zero_or_one_fires_every_time() {
    let mut zero = IntervalTrigger::new(0);
    let mut one = IntervalTrigger::new(1);
    for _ in 0..4 {
        assert!(zero.advance());
        assert!(one.advance());
    }
}

#[test]
fn positions_open_resize_and_close() {
    let mut h = Holdings::new();
    assert_eq!(h.update_position("TECH", 0), PositionChange::Unchanged);
    assert_eq!(h.len(), 0);
    assert_eq!(h.update_position("TECH", 10), PositionChange::Opened);
    assert_eq!(h.update_position("BOND", -4), PositionChange::Opened);
    assert_eq!(h.quantity_of("TECH"), 10);
    assert_eq!(h.quantity_of("BOND"), -4);
    assert_eq!(h.quantity_of("GOLD"), 0);
    assert_eq!(h.update_position("TECH", -3), PositionChange::Resized { index: 0, previous: 10 });
    assert_eq!(h.quantity_of("TECH"), 7);
    assert_eq!(h.update_position("TECH", -7), PositionChange::Closed { index: 0 });
    assert_eq!(h.quantity_of("TECH"), 0);
    assert_eq!(h.len(), 1);
    assert_eq!(h.get(0).symbol, "BOND");
    assert_eq!(h.get(0).quantity, -4);
    assert_eq!(h.find("BOND"), Some(0));
    assert_eq!(h.find("TECH"), None);
    assert_eq!(h.update_position("BOND", 0), PositionChange::Resized { index: 0, previous: -4 });
    assert_eq!(h.quantity_of("BOND"), -4);
}

#[test]
fn position_change_adds_the_delta_and_leaves_others_alone() {
    let mut h = Holdings::new();
    h.update_position("A", 5);
    h.update_position("B", 6);
    h.update_position("C", 7);
    for (sym, delta) in [("B", 4i64), ("A", -9), ("D", 2), ("C", -7)] {
        let before: Vec<i64> = ["A", "B", "C", "D"].iter().map(|s| h.quantity_of(s)).collect();
        h.update_position(sym, delta);
        for (i, s) in ["A", "B", "C", "D"].iter().enumerate() {
            let expected = if *s == sym { before[i] + delta } else { before[i] };
            assert_eq!(h.quantity_of(s), expected);
        }
    }
}

#[test]
fn regime_counts_count_each_regime() {
    let rs = [0usize, 1, 1, 2, 0, 1];
    assert_eq!(regime_counts(&rs, 3), vec![2, 3, 1]);
    assert_eq!(regime_counts(&rs, 4), vec![2, 3, 1, 0]);
    assert_eq!(regime_counts(&[], 2), vec![0, 0]);
}

#[test]
fn transition_counts_count_consecutive_pairs() {
    let rs = [0usize, 1, 1, 2, 0, 1];
    let t = transition_counts(&rs, 3);
    assert_eq!(t, vec![vec![0, 2, 0], vec![0, 1, 1], vec![1, 0, 0]]);
    let total: usize = t.iter().map(|r| r.iter().sum::<usize>()).sum();
    assert_eq!(total, rs.len() - 1);
    assert_eq!(transition_counts(&[2], 3), vec![vec![0; 3]; 3]);
    assert_eq!(transition_counts(&[], 2), vec![vec![0; 2]; 2]);
}

#[test]
fn switches_count_regime_changes() {
    assert_eq!(count_switches(&[0, 1, 1, 2, 0, 1]), 4);
    assert_eq!(count_switches(&[3, 3, 3]), 0);
    assert_eq!(count_switches(&[]), 0);
    assert_eq!(count_switches(&[5]), 0);
}

#[test]
fn transition_rows_add_up_to_departures() {
    let rs = [2usize, 0, 0, 1, 2, 2, 1, 0];
    let t = transition_counts(&rs, 3);
    let departures = regime_counts(&rs[..rs.len() - 1], 3);
    for a in 0..3 {
        assert_eq!(t[a].iter().sum::<usize>(), departures[a]);
    }
}

#[test]
fn a_zero_cooldown_leaves_a_halt_with_no_ticks_left() {
    let mut c = EngineClock::new();
    assert!(c.begin_tick());
    c.trip(0);
    assert!(c.is_halted());
    assert_eq!(c.halt_ticks_remaining(), 0);
    assert_eq!(c.tick(), 1);
}

#[test]
fn disabled_optimisation_with_zero_frequency_never_runs() {
    let q = QuantumConfig { enable_qaoa: false, enable_annealing: false, enable_tensor_networks: false, optimization_frequency_ticks: 0 };
    let mut c = EngineClock::new();
    for _ in 0..3 {
        c.begin_tick();
        assert!(!c.optimization_due(&q));
    }
}
