use orchitecture::idea::{
    book_title, compute_understood, shuffled_segments, titled, count_segments, dep_indices, idea_by_name, roll_book,
    topo_sort, validate_idea_info, Idea, IdeaInfoError, IdeaState, ALL_SEGMENTS, SEGMENTS,
};
use rand::rngs::StdRng;
use rand::SeedableRng;

fn idea(name: &str, depends_on: &[&str]) -> Idea {
    Idea {
        name: name.to_string(),
        depends_on: depends_on.iter().map(|s| s.to_string()).collect(),
    }
}

fn bit(n: u32) -> u64 {
    1u64 << n
}

#[test]
fn topo_sort_puts_prerequisites_first() {
    let sorted = topo_sort(vec![
        idea("Arithmetic", &["Specialization", "Organization"]),
        idea("Specialization", &[]),
        idea("Organization", &[]),
    ])
    .expect("no cycle");
    let names: Vec<&str> = sorted.iter().map(|i| i.name.as_str()).collect();
    assert_eq!(names, vec!["Specialization", "Organization", "Arithmetic"]);
}

#[test]
#[should_panic(expected = "dependency cycle")]
fn topo_sort_rejects_cycles() {
    topo_sort(vec![idea("A", &["B"]), idea("B", &["A"])]).expect("dependency cycle among ideas");
}

#[test]
#[should_panic(expected = "unknown idea")]
fn validation_rejects_unknown_dependencies() {
    if let Err(IdeaInfoError::UnknownDependency { idea, dep }) =
        validate_idea_info(&[idea("Arithmetic", &["Astrology"])])
    {
        panic!("dependency {dep} of idea {idea} is an unknown idea");
    }
}

#[test]
#[should_panic(expected = "depends on itself")]
fn validation_rejects_self_dependency() {
    if let Err(IdeaInfoError::SelfDependency { idea, .. }) =
        validate_idea_info(&[idea("Arithmetic", &["Arithmetic"])])
    {
        panic!("idea {idea} depends on itself");
    }
}

#[test]
fn validation_accepts_a_consistent_list() {
    assert_eq!(
        validate_idea_info(&[idea("A", &[]), idea("B", &["A"])]),
        Ok(())
    );
    assert_eq!(
        validate_idea_info(&[idea("A", &["Z"]), idea("B", &["B"])]),
        Err(IdeaInfoError::UnknownDependency { idea: 0, dep: 0 }),
        "the first offence is reported"
    );
}

#[test]
fn understanding_is_per_segment_across_prerequisites() {
    let ideas = vec![
        idea("Specialization", &[]),
        idea("Organization", &[]),
        idea("Arithmetic", &["Specialization", "Organization"]),
    ];
    let deps = dep_indices(&ideas);

    let understood = compute_understood(&deps, &[bit(13), bit(7), bit(13)]);
    assert_eq!(understood[2], 0, "one prerequisite short is nothing");

    let understood = compute_understood(&deps, &[bit(13), bit(13), bit(13)]);
    assert_eq!(understood[2], bit(13));

    let understood = compute_understood(&deps, &[ALL_SEGMENTS, ALL_SEGMENTS, bit(13) | bit(20)]);
    assert_eq!(understood[2], bit(13) | bit(20));
}

#[test]
fn learned_segments_can_outrun_understood_ones() {
    let ideas = vec![idea("Specialization", &[]), idea("Sums", &["Specialization"])];
    let deps = dep_indices(&ideas);
    let learned = [0, ALL_SEGMENTS];
    let understood = compute_understood(&deps, &learned);
    assert_eq!(learned[1].count_ones(), SEGMENTS);
    assert_eq!(understood[1], 0);
}

#[test]
fn understanding_never_exceeds_the_segments() {
    let ideas = vec![idea("A", &[])];
    let deps = dep_indices(&ideas);
    assert_eq!(compute_understood(&deps, &[u64::MAX]), vec![ALL_SEGMENTS]);
}

#[test]
fn learn_accumulates_and_reports_novelty() {
    let mut state = IdeaState::new(2);
    assert!(state.learn(0, 0b101));
    assert!(!state.learn(0, 0b001), "already known");
    assert!(state.learn(0, 0b010));
    assert_eq!(state.learned[0], 0b111);
    assert_eq!(state.learned[1], 0);
}

#[test]
fn learn_ignores_out_of_range_segments() {
    let mut state = IdeaState::new(1);
    state.learn(0, u64::MAX);
    assert_eq!(state.learned[0].count_ones(), SEGMENTS);
}

#[test]
fn roll_book_picks_distinct_segments_of_one_idea() {
    let mut rng = StdRng::seed_from_u64(7);
    for _ in 0..100 {
        let (which, mask) = roll_book(&[0, 1, 2], 30, &mut rng);
        assert!(which < 3);
        assert_eq!(mask.count_ones(), 30, "segments must be distinct");
        assert_eq!(mask & !ALL_SEGMENTS, 0, "no segments beyond SEGMENTS");
    }
}

#[test]
fn roll_book_only_picks_from_its_candidates() {
    let mut rng = StdRng::seed_from_u64(5);
    for _ in 0..100 {
        let (which, _) = roll_book(&[2], 10, &mut rng);
        assert_eq!(which, 2);
    }
}

#[test]
fn roll_book_clamps_to_the_segment_count() {
    let mut rng = StdRng::seed_from_u64(3);
    let (_, mask) = roll_book(&[0], 1000, &mut rng);
    assert_eq!(mask, ALL_SEGMENTS);
}

#[test]
fn roll_book_draws_vary_with_the_generator() {
    // The draws come from the generator: two different seeds do not give
    // the same sequence of picks.
    let mut a = StdRng::seed_from_u64(1);
    let mut b = StdRng::seed_from_u64(2);
    let ra: Vec<u64> = (0..20).map(|_| roll_book(&[0], 5, &mut a).1).collect();
    let rb: Vec<u64> = (0..20).map(|_| roll_book(&[0], 5, &mut b).1).collect();
    assert_ne!(ra, rb);
}

#[test]
fn book_titles_name_the_idea_after_a_known_prefix() {
    let mut rng = StdRng::seed_from_u64(11);
    let prefixes = [
        "A Treatise on",
        "Notes toward",
        "The Elements of",
        "Concerning",
        "Observations upon",
    ];
    for _ in 0..50 {
        let t = book_title("Arithmetic", &mut rng);
        assert!(prefixes.iter().any(|p| t == format!("{p} Arithmetic")), "got {t}");
    }
}

#[test]
fn idea_lookup_by_name() {
    let ideas = vec![idea("A", &[]), idea("B", &["A"])];
    assert_eq!(idea_by_name(&ideas, "B"), Some(1));
    assert_eq!(idea_by_name(&ideas, "C"), None);
}

#[test]
fn segment_counting_matches_the_bits() {
    assert_eq!(count_segments(0), 0);
    assert_eq!(count_segments(ALL_SEGMENTS), SEGMENTS);
    assert_eq!(count_segments(u64::MAX), 64);
    assert_eq!(count_segments(bit(3) | bit(40)), 2);
}

#[test]
fn a_titled_book_names_its_idea_after_the_chosen_prefix() {
    assert_eq!(titled("Arithmetic", 0), "A Treatise on Arithmetic");
    assert_eq!(titled("Sums", 4), "Observations upon Sums");
}

#[test]
fn the_shuffle_takes_the_drawn_segments() {
    // Draw 0 swaps segments 0 and 7, draw 1 keeps segment 1 in place, draw 2
    // swaps segments 2 and 7 (segment 0 now sits at position 7).
    assert_eq!(shuffled_segments(&[7, 1, 7]), bit(7) | bit(1) | bit(0));
    assert_eq!(shuffled_segments(&[]), 0);
    let all: Vec<usize> = (0..50).collect();
    assert_eq!(shuffled_segments(&all), ALL_SEGMENTS);
}
