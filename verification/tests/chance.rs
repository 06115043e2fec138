use spiking_network::chance::{draw_delay, draw_weight, happens, happens_with_draw, snap_draw};

#[test]
fn draw_below_probability_happens() {
    assert!(happens_with_draw(500, 0));
    assert!(happens_with_draw(500, 499));
    assert!(!happens_with_draw(500, 500));
    assert!(!happens_with_draw(0, 0));
    assert!(happens_with_draw(1000, 999));
}

#[test]
fn certain_and_impossible_events() {
    for _ in 0..100 {
        assert!(happens(1000));
        assert!(happens(2000));
        assert!(!happens(0));
    }
}

#[test]
fn snapped_draws_round_halves_up() {
    assert_eq!(snap_draw(10, 20, 0), 10);
    assert_eq!(snap_draw(10, 20, 1), 11);
    assert_eq!(snap_draw(10, 20, 2), 11);
    assert_eq!(snap_draw(10, 20, 19), 20);
    assert_eq!(snap_draw(-5, 5, 0), -5);
    assert_eq!(snap_draw(-5, 5, 10), 0);
}

#[test]
fn draws_stay_in_their_spans() {
    assert_eq!(draw_delay(7, 7), 7);
    assert_eq!(draw_weight(-3, -3), -3);
    for _ in 0..200 {
        let d = draw_delay(10, 20);
        assert!((10..=20).contains(&d));
        let w = draw_weight(-10, 10);
        assert!((-10..=10).contains(&w));
    }
}
