use stateright::checker::dfs;
use stateright::checker::simulation;
use stateright::checker::HasDiscoveries;
use stateright::checker::bfs::{check_block, fingerprint_path, init_jobs};
use std::collections::hash_map::DefaultHasher;
use std::hash::{Hash, Hasher};
use std::num::Wrapping;
use stateright::UniformChooser;
use stateright::checker::Path;
use stateright::actor::{Envelope, Id};
use stateright::util::DenseNatMap;
use stateright::{DiscoveryClassification, Expectation, Mapping, Reindex, Rewrite, RewritePlan};
use std::collections::{BTreeMap, BTreeSet, VecDeque};

#[test]
fn can_reindex_btreemap_with_vec_of_usize() {
    let original: BTreeMap<_, _> = vec![
        (0, 'A'),
        (1, 'B'),
        (2, 'C'),
    ].into_iter().collect();
    assert_eq!(
        original.reindex(&vec![2, 1, 0]), // swap first and last
        vec![
            (2, 'A'),
            (1, 'B'),
            (0, 'C'),
        ].into_iter().collect());
    assert_eq!(
        original.reindex(&vec![1, 2, 0]), // rotate left
        vec![
            (1, 'A'),
            (2, 'B'),
            (0, 'C'),
        ].into_iter().collect());
}

#[test]
fn can_reindex_btreemap_with_vec_of_id() {
    let original: BTreeMap<Id, _> = vec![
        (0.into(), 'A'),
        (1.into(), 'B'),
        (2.into(), 'C'),
    ].into_iter().collect();
    assert_eq!(
        original.reindex(&Id::vec_from(vec![2, 1, 0])), // swap first and last
        vec![
            (2.into(), 'A'),
            (1.into(), 'B'),
            (0.into(), 'C'),
        ].into_iter().collect());
    assert_eq!(
        original.reindex(&Id::vec_from(vec![1, 2, 0])), // rotate left
        vec![
            (1.into(), 'A'),
            (2.into(), 'B'),
            (0.into(), 'C'),
        ].into_iter().collect());
}

#[test]
fn can_reindex_vec_with_vec_of_usize() {
    let original = vec!['A', 'B', 'C'];
    assert_eq!(
        original.reindex(&vec![2, 1, 0]), // swap first and last
        vec!['C', 'B', 'A']);
    assert_eq!(
        original.reindex(&vec![1, 2, 0]), // rotate left
        vec!['B', 'C', 'A']);
}

#[test]
fn can_reindex_vec_with_vec_of_id() {
    let original = vec!['A', 'B', 'C'];
    assert_eq!(
        original.reindex(&Id::vec_from(vec![2, 1, 0])), // swap first and last
        vec!['C', 'B', 'A']);
    assert_eq!(
        original.reindex(&Id::vec_from(vec![1, 2, 0])), // rotate left
        vec!['B', 'C', 'A']);
}

#[test]
fn can_rewrite_id_vec() {
    let original = Id::vec_from(vec![1, 2, 2]);
    assert_eq!(
        original.rewrite(&RewritePlan::<Id, _>::from_values_to_sort(&vec![2, 0, 1])),
        Id::vec_from(vec![0, 1, 1]));
    assert_eq!(
        original.rewrite(&RewritePlan::<Id, _>::from_values_to_sort(&vec![0, 2, 1])),
        Id::vec_from(vec![2, 1, 1]));
}

#[test]
fn from_sort_sorts() {
    let original = vec!['B', 'D', 'C', 'A'];
    let plan = RewritePlan::<Id, _>::from_values_to_sort(&original);
    assert_eq!(plan.reindex(&original), vec!['A', 'B', 'C', 'D']);
    assert_eq!(plan.reindex(&vec![1, 3, 2, 0]), vec![0, 1, 2, 3]);
}

#[test]
fn can_reindex() {
    let swap_first_and_last = RewritePlan::<Id, _>::from_values_to_sort(&vec![2, 1, 0]);
    let rotate_left = RewritePlan::<Id, _>::from_values_to_sort(&vec![2, 0, 1]);

    let original = vec!['A', 'B', 'C'];
    assert_eq!(swap_first_and_last.reindex(&original), vec!['C', 'B', 'A']);
    assert_eq!(rotate_left.reindex(&original), vec!['B', 'C', 'A']);

    let original: VecDeque<_> = vec!['A', 'B', 'C'].into_iter().collect();
    assert_eq!(
        swap_first_and_last.reindex(&original),
        vec!['C', 'B', 'A'].into_iter().collect::<VecDeque<_>>()
    );
    assert_eq!(
        rotate_left.reindex(&original),
        vec!['B', 'C', 'A'].into_iter().collect::<VecDeque<_>>()
    );
}

#[derive(Debug, PartialEq)]
struct GlobalState {
    process_states: DenseNatMap<Id, char>,
    run_sequence: Vec<Id>,
    zombies1: BTreeSet<Id>,
    zombies2: BTreeMap<Id, bool>,
    zombies3: DenseNatMap<Id, bool>,
}

impl Rewrite<Id> for GlobalState {
    fn rewrite<S: Mapping<Id>>(&self, plan: &RewritePlan<Id, S>) -> Self {
        Self {
            process_states: self.process_states.rewrite(plan),
            run_sequence: self.run_sequence.rewrite(plan),
            zombies1: self.zombies1.rewrite(plan),
            zombies2: self.zombies2.rewrite(plan),
            zombies3: self.zombies3.rewrite(plan),
        }
    }
}

#[test]
fn can_rewrite() {
    let gs = GlobalState {
        process_states: DenseNatMap::from(vec!['B', 'A', 'A', 'C']),
        run_sequence: Id::vec_from(vec![2, 2, 2, 2, 3]),
        zombies1: Id::vec_from(vec![0, 2]).into_iter().collect(),
        zombies2: vec![(0.into(), true), (2.into(), true)]
            .into_iter()
            .collect(),
        zombies3: DenseNatMap::from(vec![true, false, true, false]),
    };
    let plan = (&gs.process_states).into();
    assert_eq!(
        gs.rewrite(&plan),
        GlobalState {
            process_states: DenseNatMap::from(vec!['A', 'A', 'B', 'C']),
            run_sequence: Id::vec_from(vec![1, 1, 1, 1, 3]),
            zombies1: Id::vec_from(vec![1, 2]).into_iter().collect(),
            zombies2: vec![(1.into(), true), (2.into(), true)]
                .into_iter()
                .collect(),
            zombies3: DenseNatMap::from(vec![false, true, true, false]),
        }
    );
}

// The plan maps each index to the stable rank of its value; equal values keep their order.
#[test]
fn plan_maps_indices_to_stable_ranks() {
    let plan = RewritePlan::<Id, _>::from_values_to_sort(&vec![5, 1, 5, 0]);
    assert_eq!(plan.get_state().values(), &Id::vec_from(vec![2, 1, 3, 0])[..]);
    assert_eq!(plan.rewrite(&Id::from(0)), Id::from(2));
    assert_eq!(plan.rewrite(&Id::from(3)), Id::from(0));
    // Identifiers beyond the plan stay as they are.
    assert_eq!(plan.rewrite(&Id::from(9)), Id::from(9));
}

// Rewriting an envelope rewrites its source and destination.
#[test]
fn can_rewrite_envelope() {
    let plan = RewritePlan::<Id, _>::from_values_to_sort(&vec![2, 0, 1]);
    let env = Envelope { src: Id::from(0), dst: Id::from(1), msg: 'x' };
    assert_eq!(env.rewrite(&plan), Envelope { src: Id::from(2), dst: Id::from(0), msg: 'x' });
    assert_eq!(Some(Id::from(2)).rewrite(&plan), Some(Id::from(1)));
    assert_eq!((Id::from(1), 7u8).rewrite(&plan), (Id::from(0), 7u8));
}

#[test]
fn expectations_classify_discoveries() {
    assert!(Expectation::Always.discovery_is_failure());
    assert!(Expectation::Eventually.discovery_is_failure());
    assert!(!Expectation::Sometimes.discovery_is_failure());
    assert_eq!(Expectation::Always.classification(), DiscoveryClassification::Counterexample);
    assert_eq!(Expectation::Sometimes.classification(), DiscoveryClassification::Example);
    assert_eq!(DiscoveryClassification::Example.display_text(), "example");
    assert_eq!(DiscoveryClassification::Counterexample.display_text(), "counterexample");
}

fn steps_from(s: &u8) -> Vec<(char, u8)> {
    if *s < 3 {
        vec![('+', s + 1), ('x', 0), ('+', 9)]
    } else {
        vec![('x', 0)]
    }
}

fn actions_from(s: &u8) -> Vec<char> {
    steps_from(s).into_iter().map(|(a, _)| a).collect()
}

#[test]
fn path_follows_the_first_matching_step() {
    let path = Path::from_actions(&[0, 1], 1, &['+', '+', 'x'], steps_from).unwrap();
    assert_eq!(*path.last_state(), 0);
    assert_eq!(path.clone().into_states(), vec![1, 2, 3, 0]);
    assert_eq!(path.clone().into_actions(), vec!['+', '+', 'x']);
    assert_eq!(
        path.clone().into_vec(),
        vec![(1, Some('+')), (2, Some('+')), (3, Some('x')), (0, None)]
    );
    let v: Vec<(u8, Option<char>)> = path.clone().into();
    assert_eq!(v.len(), 4);
    assert_eq!(path.encode(&[0, 1], actions_from), Some("1/0/0/0".to_string()));
    assert_eq!(path.encode(&[0], actions_from), None);
}

#[test]
fn path_refuses_unknown_starts_and_impossible_actions() {
    assert!(Path::from_actions(&[0, 1], 5, &['+'], steps_from).is_none());
    assert!(Path::from_actions(&[0], 0, &['+', '-'], steps_from).is_none());
    let p = Path::<u8, char>::from_actions(&[0], 0, &[], steps_from).unwrap();
    assert_eq!(p.into_vec(), vec![(0, None)]);
}

#[test]
fn uniform_chooser_picks_an_index() {
    let chooser = UniformChooser;
    let mut state = chooser.new_state(42);
    for _ in 0..20 {
        assert!(chooser.choose_initial_state(&mut state, &['a', 'b', 'c']) < 3);
        assert_eq!(chooser.choose_action(&mut state, &0u8, &[7]), 0);
    }
    let mut a = chooser.new_state(7);
    let mut b = chooser.new_state(7);
    let xs: Vec<usize> = (0..10).map(|_| chooser.choose_action(&mut a, &(), &[0; 100])).collect();
    let ys: Vec<usize> = (0..10).map(|_| chooser.choose_action(&mut b, &(), &[0; 100])).collect();
    assert_eq!(xs, ys);
}

#[derive(Clone, Debug, Eq, PartialEq)]
enum Guess {
    IncreaseX,
    IncreaseY,
}

fn linear_next_steps(state: &(u8, u8)) -> Vec<(Guess, (u8, u8))> {
    let (x, y) = *state;
    vec![
        (Guess::IncreaseX, (x.wrapping_add(1), y)),
        (Guess::IncreaseY, (x, y.wrapping_add(1))),
    ]
}

fn linear_next_states(state: &(u8, u8)) -> Vec<(u8, u8)> {
    linear_next_steps(state).into_iter().map(|(_, s)| s).collect()
}

fn fingerprint<T: Hash>(value: &T) -> u64 {
    let mut hasher = DefaultHasher::new();
    value.hash(&mut hasher);
    hasher.finish()
}

/// 2x + 10y == 14, with wrapping arithmetic.
fn solvable(_: usize, state: &(u8, u8)) -> bool {
    let (x, y) = (Wrapping(state.0), Wrapping(state.1));
    Wrapping(2u8) * x + Wrapping(10u8) * y == Wrapping(14u8)
}

#[test]
fn can_build_path_from_fingerprints() {
    let fp = |a: u8, b: u8| fingerprint(&(a, b));
    let fingerprints = vec![fp(0, 0), fp(0, 1), fp(1, 1), fp(2, 1)];
    let path = Path::from_fingerprints(vec![(0, 0)], &fingerprints, &fingerprint, &linear_next_steps)
        .unwrap();
    assert_eq!(path.last_state(), &(2, 1));
    assert_eq!(
        path.last_state(),
        &Path::final_state(vec![(0, 0)], &fingerprints, &fingerprint, &linear_next_steps).unwrap()
    );
}

#[test]
fn path_from_unknown_fingerprints_is_none() {
    let fp = |a: u8, b: u8| fingerprint(&(a, b));
    assert!(Path::<(u8, u8), Guess>::from_fingerprints(vec![(0, 0)], &[], &fingerprint, &linear_next_steps).is_none());
    assert!(Path::<(u8, u8), Guess>::from_fingerprints(vec![(0, 0)], &[fp(1, 0)], &fingerprint, &linear_next_steps).is_none());
    assert!(Path::<(u8, u8), Guess>::from_fingerprints(vec![(0, 0)], &[fp(0, 0), fp(2, 2)], &fingerprint, &linear_next_steps).is_none());
}

#[test]
fn bfs_finds_the_shallowest_example() {
    let expectations = [Expectation::Sometimes];
    let (mut pending, mut generated) = init_jobs(&expectations, vec![(0u8, 0u8)], &fingerprint);
    let mut discoveries = vec![None];
    let mut blocks = 0;
    while !pending.is_empty() && discoveries[0].is_none() && blocks < 100 {
        check_block(&expectations, &mut pending, &mut generated, &mut discoveries, 3, None, &fingerprint, &solvable, &linear_next_states);
        blocks += 1;
    }
    let found = discoveries[0].unwrap();
    let fps = fingerprint_path(&generated, found).unwrap();
    let path = Path::from_fingerprints(vec![(0, 0)], &fps, &fingerprint, &linear_next_steps).unwrap();
    assert_eq!(path.last_state(), &(2, 1));
    assert_eq!(path.into_actions(), vec![Guess::IncreaseX, Guess::IncreaseX, Guess::IncreaseY]);
}

#[test]
fn bfs_finds_counterexamples_and_respects_depth() {
    let expectations = [Expectation::Always, Expectation::Eventually];
    let small = |i: usize, s: &(u8, u8)| if i == 0 { s.0 + s.1 < 2 } else { s.0 > 5 };
    let (mut pending, mut generated) = init_jobs(&expectations, vec![(0u8, 0u8)], &fingerprint);
    assert_eq!(pending.len(), 1);
    assert_eq!(pending[0].ebits, vec![false, true]);
    let mut discoveries = vec![None, None];
    let depth = check_block(&expectations, &mut pending, &mut generated, &mut discoveries, 100, Some(4), &fingerprint, &small, &linear_next_states);
    // States at depth 4 are taken but not checked.
    assert_eq!(depth, 4);
    // (2, 0) is the first state checked that breaks the invariant.
    let always = discoveries[0].unwrap();
    assert_eq!(always, fingerprint(&(2u8, 0u8)));
    assert_eq!(fingerprint_path(&generated, always).unwrap().len(), 3);
    assert!(discoveries[1].is_none());
    assert!(fingerprint_path(&generated, 12345).is_none());
}

#[test]
fn eventually_is_discovered_at_terminal_states() {
    let expectations = [Expectation::Eventually];
    let never = |_: usize, _: &u8| false;
    let stop_at_two = |s: &u8| if *s < 2 { vec![s + 1] } else { vec![] };
    let (mut pending, mut generated) = init_jobs(&expectations, vec![0u8], &fingerprint);
    let mut discoveries = vec![None];
    check_block(&expectations, &mut pending, &mut generated, &mut discoveries, 10, None, &fingerprint, &never, &stop_at_two);
    assert_eq!(discoveries[0], Some(fingerprint(&2u8)));
    let holds_at_one = |_: usize, s: &u8| *s == 1;
    let (mut pending, mut generated) = init_jobs(&expectations, vec![0u8], &fingerprint);
    let mut discoveries = vec![None];
    check_block(&expectations, &mut pending, &mut generated, &mut discoveries, 10, None, &fingerprint, &holds_at_one, &stop_at_two);
    assert_eq!(discoveries[0], None);
}

#[test]
fn has_discoveries_conditions() {
    let props = vec![
        ("inv".to_string(), Expectation::Always),
        ("live".to_string(), Expectation::Eventually),
        ("ex".to_string(), Expectation::Sometimes),
    ];
    let found = vec!["inv".to_string(), "ex".to_string()];
    assert!(!HasDiscoveries::All.matches(&found, &props));
    assert!(HasDiscoveries::All.matches(&["a".to_string(), "b".to_string(), "c".to_string()], &props));
    assert!(HasDiscoveries::Any.matches(&found, &props));
    assert!(!HasDiscoveries::Any.matches(&[], &props));
    assert!(HasDiscoveries::AnyFailures.matches(&found, &props));
    assert!(!HasDiscoveries::AnyFailures.matches(&["ex".to_string()], &props));
    assert!(!HasDiscoveries::AllFailures.matches(&found, &props));
    assert!(HasDiscoveries::AllFailures.matches(&["live".to_string(), "inv".to_string()], &props));
    assert!(HasDiscoveries::AllOf(vec!["ex".to_string(), "inv".to_string()]).matches(&found, &props));
    assert!(!HasDiscoveries::AllOf(vec!["ex".to_string(), "live".to_string()]).matches(&found, &props));
    assert!(HasDiscoveries::AnyOf(vec!["nope".to_string(), "inv".to_string()]).matches(&found, &props));
    assert!(!HasDiscoveries::AnyOf(vec![]).matches(&found, &props));
}

#[test]
fn dfs_follows_the_latest_branch_first() {
    let expectations = [Expectation::Sometimes];
    let (mut pending, mut generated) = dfs::init_jobs(&expectations, vec![(0u8, 0u8)], &fingerprint, &fingerprint);
    assert_eq!(generated.len(), 1);
    let mut discoveries = vec![None];
    let mut blocks = 0;
    while !pending.is_empty() && discoveries[0].is_none() && blocks < 100 {
        dfs::check_block(&expectations, &mut pending, &mut generated, &mut discoveries, 7, None, &fingerprint, &fingerprint, &solvable, &linear_next_states);
        blocks += 1;
    }
    let fps = discoveries[0].clone().unwrap();
    // 10 * 27 = 270, which wraps to 14.
    assert_eq!(fps.len(), 28);
    let path = Path::from_fingerprints(vec![(0, 0)], &fps, &fingerprint, &linear_next_steps).unwrap();
    assert_eq!(path.last_state(), &(0, 27));
}

#[test]
fn dfs_skips_states_with_a_known_key() {
    let expectations = [Expectation::Always];
    // Every state has the same key, so only the initial state is checked.
    let same_key = |_: &(u8, u8)| 0u64;
    let never = |_: usize, _: &(u8, u8)| true;
    let (mut pending, mut generated) = dfs::init_jobs(&expectations, vec![(0u8, 0u8)], &fingerprint, &same_key);
    let mut discoveries = vec![None];
    let depth = dfs::check_block(&expectations, &mut pending, &mut generated, &mut discoveries, 10, None, &fingerprint, &same_key, &never, &linear_next_states);
    assert_eq!(depth, 1);
    assert!(pending.is_empty());
    assert_eq!(discoveries[0], None);
}

fn fp_of(n: &u32) -> u64 {
    let mut hasher = DefaultHasher::new();
    n.hash(&mut hasher);
    hasher.finish()
}

fn count_up_to_five(n: &u32) -> Vec<char> {
    if *n < 5 {
        vec!['+']
    } else {
        vec![]
    }
}

fn add_one(n: &u32, _a: char) -> Option<u32> {
    Some(n + 1)
}

#[test]
fn simulation_trace_discovers_along_one_path() {
    let expectations = vec![Expectation::Always, Expectation::Sometimes, Expectation::Eventually];
    let holds = |i: usize, n: &u32| match i {
        0 => *n < 3,
        1 => *n == 2,
        _ => *n == 10,
    };
    let mut discoveries: Vec<Option<Vec<u64>>> = vec![None, None, None];
    let (count, depth) = simulation::check_trace(
        &expectations,
        vec![0u32],
        &UniformChooser,
        7,
        &mut discoveries,
        None,
        &fp_of,
        &fp_of,
        &holds,
        &count_up_to_five,
        &add_one,
        &|_: &u32| true,
    );
    assert_eq!(count, 6);
    assert_eq!(depth, 5);
    let path = |upto: u32| (0..=upto).map(|n| fp_of(&n)).collect::<Vec<u64>>();
    assert_eq!(discoveries[0], Some(path(3)));
    assert_eq!(discoveries[1], Some(path(2)));
    // never 10 by the terminal state 5
    assert_eq!(discoveries[2], Some(path(5)));
}

#[test]
fn simulation_trace_stops_at_a_cycle_and_at_the_depth_sought() {
    let expectations = vec![Expectation::Eventually];
    let never = |_: usize, _: &u32| false;
    let flip = |n: &u32, _a: char| Some(1 - n);
    let mut discoveries: Vec<Option<Vec<u64>>> = vec![None];
    let (count, _) = simulation::check_trace(
        &expectations, vec![0u32], &UniformChooser, 1, &mut discoveries, None,
        &fp_of, &fp_of, &never, &|_: &u32| vec!['~'], &flip, &|_: &u32| true,
    );
    assert_eq!(count, 2);
    assert_eq!(discoveries[0], Some(vec![fp_of(&0), fp_of(&1), fp_of(&0)]));

    // Beyond the depth sought nothing more is discovered.
    let mut discoveries: Vec<Option<Vec<u64>>> = vec![None];
    let (count, depth) = simulation::check_trace(
        &expectations, vec![0u32], &UniformChooser, 1, &mut discoveries, Some(3),
        &fp_of, &fp_of, &never, &count_up_to_five, &add_one, &|_: &u32| true,
    );
    assert_eq!((count, depth), (3, 3));
    assert_eq!(discoveries[0], None);

    // A state outside the boundary ends the trace before it is visited.
    let mut discoveries: Vec<Option<Vec<u64>>> = vec![None];
    let (count, _) = simulation::check_trace(
        &expectations, vec![0u32], &UniformChooser, 1, &mut discoveries, None,
        &fp_of, &fp_of, &never, &count_up_to_five, &add_one, &|n: &u32| *n < 2,
    );
    assert_eq!(count, 2);
    assert_eq!(discoveries[0], Some(vec![fp_of(&0), fp_of(&1)]));
}

#[test]
fn simulation_trace_stops_once_every_property_is_discovered() {
    // Once every property has a discovery, the trace stops.
    let expectations = vec![Expectation::Sometimes];
    let at_one = |_: usize, n: &u32| *n == 1;
    let mut discoveries: Vec<Option<Vec<u64>>> = vec![None];
    let (count, _) = simulation::check_trace(
        &expectations, vec![0u32], &UniformChooser, 3, &mut discoveries, None,
        &fp_of, &fp_of, &at_one, &count_up_to_five, &add_one, &|_: &u32| true,
    );
    assert_eq!(count, 2);
    assert_eq!(discoveries[0], Some(vec![fp_of(&0), fp_of(&1)]));
}

fn linear_actions(_: &(u8, u8)) -> Vec<Guess> {
    vec![Guess::IncreaseX, Guess::IncreaseY]
}

fn linear_next_state(state: &(u8, u8), action: Guess) -> Option<(u8, u8)> {
    let (x, y) = *state;
    match action {
        Guess::IncreaseX => Some((x.wrapping_add(1), y)),
        Guess::IncreaseY => Some((x, y.wrapping_add(1))),
    }
}

#[test]
fn simulation_can_complete_by_eliminating_properties() {
    let expectations = vec![Expectation::Sometimes];
    let mut discoveries: Vec<Option<Vec<u64>>> = vec![None];
    let mut seed = 0;
    while discoveries[0].is_none() && seed < 10_000 {
        simulation::check_trace(
            &expectations, vec![(0u8, 0u8)], &UniformChooser, seed, &mut discoveries, None,
            &fingerprint, &fingerprint, &solvable, &linear_actions, &linear_next_state,
            &|_: &(u8, u8)| true,
        );
        seed += 1;
    }
    // The property has a discovery, on a path that ends where the equation holds.
    let fps = discoveries[0].clone().expect("a discovery of \"solvable\"");
    let path = Path::from_fingerprints(vec![(0, 0)], &fps, &fingerprint, &linear_next_steps).unwrap();
    assert!(solvable(0, path.last_state()));
    // Other paths are discoveries too, such as the following one.
    let path = Path::from_actions(
        &[(0, 0)],
        (0, 0),
        &[Guess::IncreaseX, Guess::IncreaseY, Guess::IncreaseX],
        linear_next_steps,
    )
    .unwrap();
    assert!(solvable(0, path.last_state()));
}

/// What a check of the linear equation found: the states checked in order, the number of states
/// generated, and the path of the discovery of "solvable", if any.
struct LinearReport {
    visited: Vec<(u8, u8)>,
    unique_state_count: usize,
    discovery: Option<Path<(u8, u8), Guess>>,
}

fn linear_property(a: u8, b: u8, c: u8) -> impl Fn(usize, &(u8, u8)) -> bool {
    move |_: usize, state: &(u8, u8)| {
        let (x, y) = (Wrapping(state.0), Wrapping(state.1));
        Wrapping(a) * x + Wrapping(b) * y == Wrapping(c)
    }
}

fn check_linear_bfs(a: u8, b: u8, c: u8) -> LinearReport {
    let expectations = [Expectation::Sometimes];
    let visited = std::cell::RefCell::new(Vec::new());
    let property = linear_property(a, b, c);
    let holds = |i: usize, s: &(u8, u8)| {
        visited.borrow_mut().push(*s);
        property(i, s)
    };
    let (mut pending, mut generated) = init_jobs(&expectations, vec![(0u8, 0u8)], &fingerprint);
    let mut discoveries = vec![None];
    while !pending.is_empty() && discoveries[0].is_none() {
        check_block(&expectations, &mut pending, &mut generated, &mut discoveries, 1500, None, &fingerprint, &holds, &linear_next_states);
    }
    let discovery = discoveries[0].map(|d| {
        let fps = fingerprint_path(&generated, d).unwrap();
        Path::from_fingerprints(vec![(0, 0)], &fps, &fingerprint, &linear_next_steps).unwrap()
    });
    LinearReport { visited: visited.into_inner(), unique_state_count: generated.len(), discovery }
}

fn check_linear_dfs(a: u8, b: u8, c: u8) -> LinearReport {
    let expectations = [Expectation::Sometimes];
    let visited = std::cell::RefCell::new(Vec::new());
    let property = linear_property(a, b, c);
    let holds = |i: usize, s: &(u8, u8)| {
        visited.borrow_mut().push(*s);
        property(i, s)
    };
    let (mut pending, mut generated) = dfs::init_jobs(&expectations, vec![(0u8, 0u8)], &fingerprint, &fingerprint);
    let mut discoveries: Vec<Option<Vec<u64>>> = vec![None];
    while !pending.is_empty() && discoveries[0].is_none() {
        dfs::check_block(&expectations, &mut pending, &mut generated, &mut discoveries, 1500, None, &fingerprint, &fingerprint, &holds, &linear_next_states);
    }
    let discovery = discoveries[0].as_ref().map(|fps| {
        Path::from_fingerprints(vec![(0, 0)], fps, &fingerprint, &linear_next_steps).unwrap()
    });
    LinearReport { visited: visited.into_inner(), unique_state_count: generated.len(), discovery }
}

#[test]
fn bfs_visits_states_in_bfs_order() {
    assert_eq!(
        check_linear_bfs(2, 10, 14).visited,
        vec![
            (0, 0),                 // distance == 0
            (1, 0), (0, 1),         // distance == 1
            (2, 0), (1, 1), (0, 2), // distance == 2
            (3, 0), (2, 1),         // distance == 3
        ]);
}

#[test]
fn bfs_can_complete_by_enumerating_all_states() {
    let report = check_linear_bfs(2, 4, 7);
    assert!(report.discovery.is_none());
    assert_eq!(report.unique_state_count, 256 * 256);
}

#[test]
fn bfs_can_complete_by_eliminating_properties() {
    let report = check_linear_bfs(2, 10, 14);
    assert_eq!(report.unique_state_count, 12);
    // bfs found this example...
    assert_eq!(
        report.discovery.unwrap().into_actions(),
        // (2*2 + 10*1) % 256 == 14
        vec![Guess::IncreaseX, Guess::IncreaseX, Guess::IncreaseY]);
    // ... but there are of course other solutions, such as the following.
    let other = Path::from_actions(&[(0, 0)], (0, 0), &vec![Guess::IncreaseY; 27], linear_next_steps).unwrap();
    assert!(linear_property(2, 10, 14)(0, other.last_state()));
}

#[test]
fn visits_states_in_dfs_order() {
    assert_eq!(
        check_linear_dfs(2, 10, 14).visited,
        (0..=27).map(|y| (0, y)).collect::<Vec<(u8, u8)>>());
}

#[test]
fn dfs_can_complete_by_eliminating_properties() {
    let report = check_linear_dfs(2, 10, 14);
    assert_eq!(report.unique_state_count, 55);
    // DFS found this example...
    assert_eq!(report.discovery.unwrap().into_actions(), vec![Guess::IncreaseY; 27]); // (2*0 + 10*27) % 256 == 14
    // ... but there are of course other solutions, such as the following.
    let other = Path::from_actions(
        &[(0, 0)],
        (0, 0),
        &[Guess::IncreaseX, Guess::IncreaseY, Guess::IncreaseX],
        linear_next_steps,
    )
    .unwrap();
    assert!(linear_property(2, 10, 14)(0, other.last_state()));
}

#[test]
fn fingerprint_path_is_none_where_the_parents_never_reach_an_initial_state() {
    let mut generated = std::collections::HashMap::new();
    generated.insert(1u64, Some(2u64));
    generated.insert(2u64, Some(1u64));
    assert!(fingerprint_path(&generated, 1).is_none());
    generated.insert(3u64, None);
    generated.insert(4u64, Some(3u64));
    assert_eq!(fingerprint_path(&generated, 4), Some(vec![3, 4]));
}

#[test]
fn simulation_trace_discovers_at_whichever_initial_state() {
    // An always property false on every initial state is discovered at the first state visited,
    // whichever initial state the chooser picks.
    let expectations = vec![Expectation::Always];
    let small = |_: usize, n: &u32| *n < 3;
    for seed in 0..8 {
        let mut discoveries: Vec<Option<Vec<u64>>> = vec![None];
        let (count, depth) = simulation::check_trace(
            &expectations, vec![4u32, 7u32], &UniformChooser, seed, &mut discoveries, None,
            &fp_of, &fp_of, &small, &count_up_to_five, &add_one, &|_: &u32| true,
        );
        assert!(count >= 1);
        assert_eq!((count, depth), (1, 0));
        let found = discoveries[0].clone().unwrap();
        assert_eq!(found.len(), 1);
        assert!(found[0] == fp_of(&4) || found[0] == fp_of(&7));
    }
}

#[test]
fn searches_run_until_every_property_is_discovered_or_nothing_is_left() {
    let expectations = [Expectation::Sometimes, Expectation::Always];
    let props = |i: usize, s: &u8| if i == 0 { *s == 3 } else { *s < 10 };
    let upto_five = |s: &u8| if *s < 5 { vec![s + 1] } else { vec![] };
    let (discoveries, generated, depth, left) =
        stateright::checker::bfs::search(&expectations, vec![0u8], None, &fingerprint, &props, &upto_five);
    assert_eq!(discoveries, vec![Some(fingerprint(&3u8)), None]);
    assert_eq!(generated.len(), 6);
    assert_eq!(depth, 6);
    assert_eq!(left, 0);

    let (discoveries, generated, _, left) = dfs::search(
        &expectations, vec![0u8], None, &fingerprint, &fingerprint, &props, &upto_five,
    );
    assert_eq!(discoveries[0], Some((0u8..=3).map(|n| fingerprint(&n)).collect::<Vec<u64>>()));
    assert_eq!(discoveries[1], None);
    assert_eq!(generated.len(), 6);
    assert_eq!(left, 0);
}

#[test]
fn simulation_runs_traces_until_every_property_is_discovered() {
    let expectations = vec![Expectation::Sometimes];
    let at_three = |_: usize, n: &u32| *n == 3;
    let (discoveries, count, depth, traces) = simulation::simulate(
        &expectations, &|| vec![0u32], &UniformChooser, 3, 10, None,
        &fp_of, &fp_of, &at_three, &count_up_to_five, &add_one, &|_: &u32| true,
    );
    assert_eq!(traces, 1);
    assert_eq!((count, depth), (4, 3));
    assert_eq!(discoveries[0], Some((0u32..=3).map(|n| fp_of(&n)).collect::<Vec<u64>>()));

    let never = |_: usize, _: &u32| false;
    let (discoveries, _, _, traces) = simulation::simulate(
        &expectations, &|| vec![0u32], &UniformChooser, 3, 4, None,
        &fp_of, &fp_of, &never, &count_up_to_five, &add_one, &|_: &u32| true,
    );
    assert_eq!(traces, 4);
    assert_eq!(discoveries[0], None);
}

#[test]
fn searches_check_every_reachable_state() {
    // Every state below 6 is reached, and the always property holds on each of them.
    let expectations = [Expectation::Always];
    let below_six = |_: usize, s: &u8| *s < 6;
    let upto_five = |s: &u8| if *s < 5 { vec![s + 1] } else { vec![] };
    let (discoveries, generated, _, left) =
        stateright::checker::bfs::search(&expectations, vec![0u8], None, &fingerprint, &below_six, &upto_five);
    assert_eq!((discoveries, generated.len(), left), (vec![None], 6, 0));
    let (discoveries, generated, _, left) = dfs::search(
        &expectations, vec![0u8], None, &fingerprint, &fingerprint, &below_six, &upto_five,
    );
    assert_eq!((discoveries, generated.len(), left), (vec![None], 6, 0));
    // A violation at the deepest state is found.
    let below_five = |_: usize, s: &u8| *s < 5;
    let (discoveries, _, _, _) =
        stateright::checker::bfs::search(&expectations, vec![0u8], None, &fingerprint, &below_five, &upto_five);
    assert_eq!(discoveries, vec![Some(fingerprint(&5u8))]);
}
