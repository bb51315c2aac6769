use petri_engine::net::{Firing, Net, NetError, Step};
use petri_engine::transition::{FireError, Transition};

fn sample_net(budget: usize) -> Net {
    let transitions = vec![
        Transition::new(1, &[(0, 1), (2, -1)], &[(1, 1)], 0),
        Transition::new(2, &[(0, 1)], &[(2, 1)], 0),
        Transition::new(3, &[(1, 1)], &[(0, 1)], 6),
        Transition::new(4, &[(2, 1)], &[(3, 1)], 3),
        Transition::new(5, &[(3, 1)], &[(0, 1)], 4),
    ];
    Net::new(vec![2, 0, 0, 0], transitions, budget).unwrap()
}

fn all_non_negative(m: &[i32]) -> bool {
    m.iter().all(|c| *c >= 0)
}

#[test]
fn firing_consumes_and_produces() {
    let t = Transition::new(1, &[(0, 2)], &[(1, 1)], 0);
    let mut m = vec![2, 0];
    assert!(t.is_active(&m));
    assert_eq!(t.enable(&mut m), Ok(()));
    assert_eq!(m, vec![0, 1]);
}

#[test]
fn firing_without_enough_tokens_is_rejected() {
    let t = Transition::new(1, &[(0, 2)], &[(1, 1)], 0);
    let m = vec![1, 0];
    assert!(!t.is_active(&m));
    let mut net = Net::new(m, vec![t], 5).unwrap();
    assert_eq!(net.fire(0), Err(FireError::NotEnabled));
    assert_eq!(net.marking(), &vec![1, 0]);
}

#[test]
fn net_fire_applies_instant_firing() {
    let t = Transition::new(1, &[(0, 2)], &[(1, 1)], 0);
    let mut net = Net::new(vec![2, 0], vec![t], 5).unwrap();
    assert_eq!(net.fire(0), Ok(Firing::Instant));
    assert_eq!(net.marking(), &vec![0, 1]);
    assert_eq!(net.fire(3), Err(FireError::UnknownTransition));
}

#[test]
fn inhibitory_arcs_guard_below_threshold() {
    let t = Transition::new(1, &[(0, -2), (1, -1)], &[(2, 1)], 0);
    assert!(t.is_active(&[0, 0, 0]));
    assert!(t.is_active(&[1, 0, 0]));
    assert!(!t.is_active(&[2, 0, 0]));
    assert!(!t.is_active(&[3, 0, 0]));
    assert!(!t.is_active(&[1, 1, 0]));
}

#[test]
fn inhibitory_arcs_never_change_the_marking() {
    let t = Transition::new(1, &[(0, -2)], &[(1, 1)], 0);
    let mut m = vec![1, 0];
    assert_eq!(t.enable(&mut m), Ok(()));
    assert_eq!(m, vec![1, 1]);
}

#[test]
fn evaluation_is_repeatable() {
    let t = Transition::new(1, &[(0, 1), (1, -1)], &[], 0);
    let m = vec![1, 0];
    let first = t.is_active(&m);
    let second = t.is_active(&m);
    assert_eq!(first, second);
    assert!(first);
}

#[test]
fn in_flight_transition_is_never_chosen() {
    let t = Transition::new(1, &[(0, 1)], &[(1, 1)], 5);
    let mut net = Net::new(vec![3, 0], vec![t], 10).unwrap();
    assert_eq!(net.advance(0), Step::Started(0));
    assert!(net.transitions()[0].processing());
    assert!(net.any_in_flight());
    assert_eq!(net.enabled_transitions(), Vec::<usize>::new());
    assert_eq!(net.advance(0), Step::Rejected(0, FireError::NotEnabled));
    assert_eq!(net.step(), Step::Wait);
    assert_eq!(net.marking(), &vec![3, 0]);
    assert_eq!(net.complete(0), Ok(()));
    assert!(!net.transitions()[0].processing());
    assert_eq!(net.marking(), &vec![2, 1]);
    assert_eq!(net.enabled_transitions(), vec![0]);
    assert_eq!(net.remaining(), 9);
}

#[test]
fn first_firing_of_sample_net() {
    let mut net = sample_net(20);
    assert_eq!(net.enabled_transitions(), vec![0, 1]);
    assert_eq!(net.advance(0), Step::Fired(0));
    assert_eq!(net.marking(), &vec![1, 1, 0, 0]);
    assert_eq!(net.remaining(), 19);
}

#[test]
fn sample_net_runs_until_budget_is_spent() {
    let mut net = sample_net(20);
    let mut pending: Vec<usize> = Vec::new();
    let mut firings = 0;
    loop {
        match net.step() {
            Step::Fired(_) => firings += 1,
            Step::Started(t) => {
                firings += 1;
                pending.push(t);
            }
            Step::Wait => {
                let t = pending.remove(0);
                assert_eq!(net.complete(t), Ok(()));
            }
            Step::Rejected(t, e) => panic!("transition {} refused: {:?}", t, e),
            Step::Dead => panic!("the sample net never dies"),
            Step::Exhausted => break,
        }
        assert!(all_non_negative(net.marking()));
    }
    assert_eq!(firings, 20);
    assert_eq!(net.remaining(), 0);
    for t in pending {
        assert_eq!(net.complete(t), Ok(()));
        assert!(all_non_negative(net.marking()));
    }
}

#[test]
fn starved_net_is_dead() {
    let t = Transition::new(1, &[(0, 3)], &[(1, 1)], 0);
    let mut net = Net::new(vec![2, 0], vec![t], 20).unwrap();
    assert_eq!(net.step(), Step::Dead);
    assert_eq!(net.step(), Step::Dead);
    assert_eq!(net.remaining(), 20);
    assert_eq!(net.marking(), &vec![2, 0]);
}

#[test]
fn zero_budget_is_exhausted() {
    let t = Transition::new(1, &[(0, 1)], &[(1, 1)], 0);
    let mut net = Net::new(vec![2, 0], vec![t], 0).unwrap();
    assert_eq!(net.step(), Step::Exhausted);
    assert_eq!(net.advance(0), Step::Exhausted);
    assert_eq!(net.marking(), &vec![2, 0]);
}

#[test]
fn single_enabled_transition_is_the_one_chosen() {
    let transitions = vec![
        Transition::new(1, &[(0, 5)], &[(1, 1)], 0),
        Transition::new(2, &[(0, 1)], &[(1, 2)], 0),
    ];
    let mut net = Net::new(vec![1, 0], transitions, 3).unwrap();
    assert_eq!(net.step(), Step::Fired(1));
    assert_eq!(net.marking(), &vec![0, 2]);
}

#[test]
fn random_choice_stays_among_enabled() {
    for _ in 0..20 {
        let transitions = vec![
            Transition::new(1, &[(0, 1)], &[(1, 1)], 0),
            Transition::new(2, &[(1, 1)], &[(0, 1)], 0),
            Transition::new(3, &[(0, 1)], &[(2, 1)], 0),
        ];
        let mut net = Net::new(vec![1, 0, 0], transitions, 1).unwrap();
        match net.step() {
            Step::Fired(0) => assert_eq!(net.marking(), &vec![0, 1, 0]),
            Step::Fired(2) => assert_eq!(net.marking(), &vec![0, 0, 1]),
            other => panic!("unexpected step {:?}", other),
        }
    }
}

#[test]
fn negative_initial_marking_is_refused() {
    let t = Transition::new(1, &[(0, 1)], &[(1, 1)], 0);
    assert!(matches!(Net::new(vec![1, -1], vec![t], 5), Err(NetError::NegativeTokens)));
}

#[test]
fn arc_outside_the_marking_is_refused() {
    let t = Transition::new(1, &[(0, 1)], &[(2, 1)], 0);
    assert!(matches!(Net::new(vec![1, 0], vec![t], 5), Err(NetError::PlaceOutOfRange)));
    let u = Transition::new(1, &[(-1, 1)], &[(0, 1)], 0);
    assert!(matches!(Net::new(vec![1, 0], vec![u], 5), Err(NetError::PlaceOutOfRange)));
}

#[test]
fn repeated_consumption_beyond_tokens_is_refused() {
    let t = Transition::new(1, &[(0, 1), (0, 1)], &[(1, 1)], 0);
    let mut m = vec![1, 0];
    assert!(t.is_active(&m));
    assert_eq!(t.enable(&mut m), Err(FireError::InsufficientTokens));
    assert_eq!(m, vec![1, 0]);
    let mut net = Net::new(vec![1, 0], vec![t], 5).unwrap();
    assert_eq!(net.advance(0), Step::Rejected(0, FireError::InsufficientTokens));
    assert_eq!(net.remaining(), 5);
}

#[test]
fn overflowing_place_is_refused() {
    let t = Transition::new(1, &[(0, 1)], &[(1, 1)], 0);
    let mut m = vec![1, i32::MAX];
    assert_eq!(t.enable(&mut m), Err(FireError::Overflow));
    assert_eq!(m, vec![1, i32::MAX]);
}

#[test]
fn completion_errors() {
    let t = Transition::new(1, &[(0, 1)], &[(1, 1)], 2);
    let mut net = Net::new(vec![1, 0], vec![t], 5).unwrap();
    assert_eq!(net.complete(0), Err(FireError::NotInFlight));
    assert_eq!(net.complete(4), Err(FireError::UnknownTransition));
}

#[test]
fn completion_after_tokens_were_taken_fails_that_firing() {
    let transitions = vec![
        Transition::new(1, &[(0, 1)], &[(1, 1)], 2),
        Transition::new(2, &[(0, 1)], &[(2, 1)], 0),
    ];
    let mut net = Net::new(vec![1, 0, 0], transitions, 5).unwrap();
    assert_eq!(net.advance(0), Step::Started(0));
    assert_eq!(net.advance(1), Step::Fired(1));
    assert_eq!(net.marking(), &vec![0, 0, 1]);
    assert_eq!(net.complete(0), Err(FireError::InsufficientTokens));
    assert!(!net.any_in_flight());
    assert_eq!(net.marking(), &vec![0, 0, 1]);
}

#[test]
fn transition_getters() {
    let t = Transition::new(9, &[(0, 1)], &[(1, 2)], 4);
    assert_eq!(t.id(), 9);
    assert_eq!(t.duration(), 4);
    assert!(!t.processing());
    assert_eq!(t.input(), &vec![(0, 1)]);
    assert_eq!(t.output(), &vec![(1, 2)]);
}
