use gravity::integrator::IntegratorKind;
use gravity::preset::{ClusterRng, Preset, CLUSTER_SEED};
use gravity::simulation::{merge_all, record_step, Collision, MergeScan, MAX_HISTORY};

#[test]
fn integrator_labels() {
    assert_eq!(IntegratorKind::Euler.label(), "Euler (explicite)");
    assert_eq!(IntegratorKind::Verlet.label(), "Velocity Verlet");
    assert_eq!(IntegratorKind::Leapfrog.label(), "Leapfrog / Verlet kick-drift");
    assert_eq!(
        IntegratorKind::ALL,
        [IntegratorKind::Euler, IntegratorKind::Verlet, IntegratorKind::Leapfrog]
    );
}

#[test]
fn preset_labels() {
    assert_eq!(Preset::SolarSystem.label(), "Système solaire");
    assert_eq!(Preset::Binary.label(), "Étoile binaire + planète");
    assert_eq!(Preset::FigureEight.label(), "8 de chiffre (3 corps)");
    assert_eq!(Preset::RandomCluster.label(), "Amas aléatoire");
    assert_eq!(Preset::ALL.len(), 4);
}

#[test]
fn scan_visits_every_ordered_pair_without_merges() {
    let mut scan = MergeScan::new(3);
    let mut seen = Vec::new();
    while let Some(c) = scan.current() {
        seen.push((c.a, c.b));
        scan.skip();
    }
    assert_eq!(seen, vec![(0, 1), (0, 2), (1, 0), (1, 2), (2, 0), (2, 1)]);
    assert!(MergeScan::new(1).current().is_none());
    assert!(MergeScan::new(0).current().is_none());
}

#[test]
fn scan_merges_and_restarts_the_same_body() {
    // bodies 0 and 1 touch, then the merged body touches body 2 (now index 1).
    let mut bodies = vec![10, 20, 30];
    let mut scan = MergeScan::new(bodies.len());
    let mut collisions = Vec::new();
    while let Some(c) = scan.current() {
        let touch = bodies[c.a] + bodies[c.b] <= 60 && c.a < c.b;
        if touch {
            let merged = bodies[c.a] + bodies[c.b];
            collisions.push(scan.merge(&mut bodies, merged));
        } else {
            scan.skip();
        }
    }
    assert_eq!(collisions, vec![Collision { a: 0, b: 1 }, Collision { a: 0, b: 1 }]);
    assert_eq!(bodies, vec![60]);
    assert_eq!(collisions.len() + bodies.len(), 3);
}

#[test]
fn merge_with_earlier_body_shifts_the_scan() {
    let mut bodies = vec!['a', 'b', 'c'];
    let mut scan = MergeScan::new(3);
    scan.skip(); // (0, 1)
    scan.skip(); // (0, 2)
    assert_eq!(scan.current(), Some(Collision { a: 1, b: 0 }));
    let c = scan.merge(&mut bodies, 'x');
    assert_eq!(c, Collision { a: 1, b: 0 });
    assert_eq!(bodies, vec!['x', 'c']);
    assert_eq!(scan.current(), Some(Collision { a: 1, b: 0 }));
}

#[test]
fn history_is_bounded() {
    let mut history: Vec<u32> = Vec::new();
    let mut steps = 0u64;
    for k in 0..(MAX_HISTORY as u32 + 10) {
        record_step(&mut history, &mut steps, k);
    }
    assert_eq!(MAX_HISTORY, 1024);
    assert_eq!(history.len(), MAX_HISTORY);
    assert_eq!(history[0], 10);
    assert_eq!(*history.last().unwrap(), MAX_HISTORY as u32 + 9);
    assert_eq!(steps, MAX_HISTORY as u64 + 10);
}

#[test]
fn cluster_generator_sequence() {
    let mut rng = ClusterRng::new();
    assert_eq!(rng.state, CLUSTER_SEED);
    assert_eq!(rng.next_u32(), 4269804901);
    assert_eq!(rng.state, 18338672411873516365);
    assert_eq!(rng.next_u32(), 216515735);
    assert_eq!(rng.next_u32(), 1105180314);
    assert_eq!(rng.state, 4746713305112613827);
}

#[test]
fn cluster_generator_never_reaches_zero() {
    let mut rng = ClusterRng { state: 1 };
    for _ in 0..1000 {
        rng.next_u32();
        assert_ne!(rng.state, 0);
    }
}

#[test]
fn merge_all_reports_each_merge() {
    let mut bodies = vec![10, 20, 30, 100];
    let collisions = merge_all(&mut bodies, |a: &i32, b: &i32| if a + b <= 60 { Some(a + b) } else { None });
    assert_eq!(collisions, vec![Collision { a: 0, b: 1 }, Collision { a: 0, b: 1 }]);
    assert_eq!(bodies, vec![60, 100]);
    assert_eq!(collisions.len() + bodies.len(), 4);
    let mut apart = vec![1, 2, 3];
    assert!(merge_all(&mut apart, |_: &i32, _: &i32| None).is_empty());
    assert_eq!(apart, vec![1, 2, 3]);
    let mut all = vec![1, 1, 1, 1];
    let c = merge_all(&mut all, |a: &i32, b: &i32| Some(a + b));
    assert_eq!(c.len(), 3);
    assert_eq!(all, vec![4]);
}

#[test]
fn merge_all_two_touching_bodies() {
    let mut bodies = vec![(3, 'a'), (1, 'b')];
    let collisions = merge_all(&mut bodies, |x: &(i32, char), y: &(i32, char)| Some((x.0 + y.0, x.1)));
    assert_eq!(collisions, vec![Collision { a: 0, b: 1 }]);
    assert_eq!(bodies, vec![(4, 'a')]);
}

#[test]
fn merge_all_keeps_order_of_the_rest() {
    let mut bodies = vec![1, 50, 2, 60, 3];
    let collisions = merge_all(&mut bodies, |x: &i32, y: &i32| if *x < 10 && *y < 10 { Some(x + y) } else { None });
    assert_eq!(collisions, vec![Collision { a: 0, b: 2 }, Collision { a: 0, b: 3 }]);
    assert_eq!(bodies, vec![6, 50, 60]);
}
