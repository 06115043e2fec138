use spiking_network::connections::InputConnection;
use spiking_network::input::Input;

#[test]
fn scheduled_input_fires_and_arms_connections() {
    let mut inp = Input::new(0, 0, vec![5, 9]);
    inp.add_connection(InputConnection::new(0, 0, 3, 300));
    inp.add_connection(InputConnection::new(1, 0, 4, 300));
    inp.update(4);
    assert!(inp.spikes.is_empty());
    assert!(!inp.input_connections[0].spike);
    inp.update(5);
    assert_eq!(inp.spikes, vec![5]);
    assert!(inp.input_connections[0].spike);
    assert!(inp.input_connections[1].spike);
    inp.update(9);
    assert_eq!(inp.spikes, vec![5, 9]);
}

#[test]
fn certain_input_fires_every_step() {
    let mut inp = Input::new(1, 1000, vec![]);
    for t in 0..20 {
        inp.update(t);
    }
    assert_eq!(inp.spikes, (0..20).collect::<Vec<u32>>());
}

#[test]
fn silent_input_never_fires() {
    let mut inp = Input::new(1, 0, vec![]);
    for t in 0..200 {
        inp.update(t);
    }
    assert!(inp.spikes.is_empty());
}

#[test]
fn random_input_fires_sometimes() {
    let mut inp = Input::new(1, 500, vec![]);
    for t in 0..2000 {
        inp.update(t);
    }
    assert!(inp.spikes.len() > 500 && inp.spikes.len() < 1500);
}

#[test]
fn update_with_draw_follows_the_draw() {
    let mut inp = Input::new(2, 0, vec![]);
    inp.add_connection(InputConnection::new(0, 2, 0, 10));
    inp.update_with_draw(3, false);
    assert!(inp.spikes.is_empty());
    assert!(!inp.input_connections[0].spike);
    inp.update_with_draw(4, true);
    assert_eq!(inp.spikes, vec![4]);
    assert!(inp.input_connections[0].spike);
}
