use orchitecture::idea::IdeaState;
use orchitecture::idea_view::SegmentState;
use orchitecture::idea_window::{announce_new_knowledge, IdeaWindowState, KnowledgeSnapshot, Reveal};

// Two ideas, the second depending on the first.
fn deps() -> Vec<Vec<usize>> {
    vec![vec![], vec![0]]
}

#[test]
fn the_first_look_announces_nothing() {
    let mut snapshot = KnowledgeSnapshot::default();
    let mut window = IdeaWindowState::default();
    let state = IdeaState::new(2);
    let announced = announce_new_knowledge(&mut snapshot, &mut window, &deps(), &state.learned);
    assert!(!announced);
    assert!(!window.open);
    assert!(window.reveal.is_none());
    assert_eq!(snapshot.learned, vec![0, 0]);
}

#[test]
fn learning_pops_the_window_and_arms_the_fade() {
    let mut snapshot = KnowledgeSnapshot::default();
    let mut window = IdeaWindowState::default();
    let mut state = IdeaState::new(2);
    announce_new_knowledge(&mut snapshot, &mut window, &deps(), &state.learned);

    state.learn(0, 0b101);
    assert!(announce_new_knowledge(&mut snapshot, &mut window, &deps(), &state.learned));

    assert!(window.open, "a gain should open the window");
    let reveal = window.reveal.as_ref().expect("fade armed");
    assert_eq!(reveal.prev_learned[0], 0, "masks are from before the gain");
    assert_eq!(reveal.prev_understood[0], 0);
    assert_eq!(snapshot.learned[0], 0b101);
    assert_eq!(snapshot.understood[0], 0b101);
}

#[test]
fn an_unchanged_frame_announces_nothing() {
    let mut snapshot = KnowledgeSnapshot::default();
    let mut window = IdeaWindowState::default();
    let mut state = IdeaState::new(2);
    announce_new_knowledge(&mut snapshot, &mut window, &deps(), &state.learned);
    state.learn(0, 0b101);
    announce_new_knowledge(&mut snapshot, &mut window, &deps(), &state.learned);

    window.open = false;
    assert!(!announce_new_knowledge(&mut snapshot, &mut window, &deps(), &state.learned));
    assert!(!announce_new_knowledge(&mut snapshot, &mut window, &deps(), &state.learned));
    assert!(!window.open, "a closed window should stay closed while nothing is learned");
}

#[test]
fn a_newly_understood_segment_is_a_change_too() {
    let mut snapshot = KnowledgeSnapshot::default();
    let mut window = IdeaWindowState::default();
    let mut state = IdeaState::new(2);
    state.learn(1, 0b1);
    announce_new_knowledge(&mut snapshot, &mut window, &deps(), &state.learned);
    assert_eq!(snapshot.understood, vec![0, 0]);

    state.learn(0, 0b1);
    assert!(announce_new_knowledge(&mut snapshot, &mut window, &deps(), &state.learned));
    assert_eq!(snapshot.understood, vec![0b1, 0b1]);
}

#[test]
fn prev_state_distinguishes_blocked_from_unread() {
    let reveal = Reveal { prev_learned: vec![0b110], prev_understood: vec![0b010] };
    assert_eq!(reveal.prev_state(0, 1), Some(SegmentState::Understood));
    assert_eq!(reveal.prev_state(0, 2), Some(SegmentState::LearnedOnly));
    assert_eq!(reveal.prev_state(0, 0), Some(SegmentState::Unknown));
    assert_eq!(reveal.prev_state(9, 0), None, "unknown idea");
}
