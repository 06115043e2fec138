use spiking_network::parameters::Parameters;

#[test]
fn constructors_set_topology_and_options() {
    let ff = Parameters::new_FeedForward(String::from("a"), 10, 300, 2, 1, 2, (1, 2), false, 3, (4, 5), 6);
    assert_eq!(ff.topology, "ff");
    assert_eq!((ff.p, ff.l, ff.k, ff.m, ff.seed), (Some(300), Some(2), None, None, Some(6)));
    assert!(ff.is_feed_forward());
    let sf = Parameters::new_ScaleFree(String::from("b"), 10, 7, 1, 2, (1, 2), true, 3, (4, 5), 6);
    assert_eq!(sf.topology, "sf");
    assert_eq!((sf.p, sf.l, sf.k, sf.m), (None, None, Some(7), None));
    assert!(!sf.is_feed_forward());
    let sw = Parameters::new_SmallWorld(String::from("c"), 10, 300, 4, 1, 2, (1, 2), false, 3, (4, 5), 6);
    assert_eq!(sw.topology, "sw");
    assert_eq!((sw.p, sw.l, sw.k, sw.m), (Some(300), None, None, Some(4)));
    let res = Parameters::new_Reservoir(String::from("d"), 10, 300, 1, 2, (1, 2), false, 3, (4, 5), 6);
    assert_eq!(res.topology, "res");
    assert_eq!((res.p, res.l, res.k, res.m), (Some(300), None, None, None));
    let copy = res.duplicate();
    assert_eq!(copy.name, "d");
    assert_eq!(copy.d_span, (4, 5));
}
