use spiking_network::plotting::delay_points;

#[test]
fn delay_trace_holds_last_record() {
    let data = vec![(2, 30), (5, 40), (2, 99)];
    let points = delay_points(&data, 7);
    assert_eq!(points, vec![(0, 1), (1, 1), (2, 30), (3, 30), (4, 30), (5, 40), (6, 40)]);
}

#[test]
fn empty_delay_trace_is_minimal() {
    let points = delay_points(&vec![], 3);
    assert_eq!(points, vec![(0, 1), (1, 1), (2, 1)]);
    assert!(delay_points(&vec![(0, 5)], 0).is_empty());
}
