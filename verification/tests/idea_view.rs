use orchitecture::idea::{compute_understood, dep_indices, Idea, ALL_SEGMENTS, SEGMENTS};
use orchitecture::idea_view::{idea_tree_view, IdeaTreeView, SegmentState};

fn ideas() -> Vec<Idea> {
    vec![
        Idea { name: "Specialization".to_string(), depends_on: vec![] },
        Idea { name: "Organization".to_string(), depends_on: vec![] },
        Idea {
            name: "Arithmetic".to_string(),
            depends_on: vec!["Specialization".to_string(), "Organization".to_string()],
        },
    ]
}

fn view(learned: &[u64]) -> IdeaTreeView {
    let ideas = ideas();
    let deps = dep_indices(&ideas);
    let understood = compute_understood(&deps, learned);
    idea_tree_view(&ideas, &deps, learned, &understood)
}

#[test]
fn segments_split_three_ways() {
    let bit = |n: u32| 1u64 << n;
    let v = view(&[bit(5), bit(5), bit(5) | bit(13)]);
    let arithmetic = &v.rows[2];

    assert_eq!(arithmetic.segments[5], SegmentState::Understood);
    assert_eq!(arithmetic.segments[13], SegmentState::LearnedOnly);
    assert_eq!(arithmetic.segments[0], SegmentState::Unknown);
    assert_eq!(arithmetic.understood, 1);
    assert_eq!(arithmetic.pending, 1);
    assert_eq!(arithmetic.summary(), "1/50 understood, 1 awaiting prerequisites");
}

#[test]
fn the_summary_omits_pending_when_there_is_none() {
    let v = view(&[ALL_SEGMENTS, 0, 0]);
    assert_eq!(v.rows[0].summary(), "50/50 understood");
    assert_eq!(v.rows[0].understood as f32 / SEGMENTS as f32, 1.0);
}

#[test]
fn depth_counts_the_longest_path_from_a_root() {
    let v = view(&[0, 0, 0]);
    assert_eq!(v.rows[0].depth, 0);
    assert_eq!(v.rows[1].depth, 0);
    assert_eq!(v.rows[2].depth, 1);
    assert_eq!(v.rows[2].prereqs, vec![0, 1]);
}

#[test]
fn the_marker_flips_at_the_confidence_threshold() {
    let below = (1u64 << 24) - 1; // 24/50
    let at = (1u64 << 25) - 1; // 25/50 == 50%
    let v = view(&[below, at, 0]);
    assert_eq!(v.rows[0].marker(), "?");
    assert!(!v.rows[0].confident());
    assert_eq!(v.rows[1].marker(), "✓");
    assert!(v.rows[1].confident());
}

#[test]
fn layers_group_ideas_by_depth() {
    let v = view(&[0, 0, 0]);
    assert_eq!(v.layers(), vec![vec![0, 1], vec![2]]);
}

#[test]
fn layers_handle_depth_that_dips_back_down() {
    let ideas = vec![
        Idea { name: "A".to_string(), depends_on: vec![] },
        Idea { name: "B".to_string(), depends_on: vec!["A".to_string()] },
        Idea { name: "C".to_string(), depends_on: vec![] },
    ];
    let deps = dep_indices(&ideas);
    let learned = [0, 0, 0];
    let understood = compute_understood(&deps, &learned);
    let v = idea_tree_view(&ideas, &deps, &learned, &understood);

    assert_eq!(v.rows.iter().map(|r| r.depth).collect::<Vec<_>>(), vec![0, 1, 0]);
    assert_eq!(v.layers(), vec![vec![0, 2], vec![1]]);
}

#[test]
fn every_row_has_one_entry_per_segment() {
    let v = view(&[0, 0, 0]);
    for row in &v.rows {
        assert_eq!(row.segments.len(), SEGMENTS as usize);
    }
}

#[test]
fn a_chain_deepens_one_row_per_prerequisite() {
    let ideas = vec![
        Idea { name: "A".to_string(), depends_on: vec![] },
        Idea { name: "B".to_string(), depends_on: vec!["A".to_string()] },
        Idea { name: "C".to_string(), depends_on: vec!["B".to_string(), "A".to_string()] },
    ];
    let deps = dep_indices(&ideas);
    let learned = [0, 0, 0];
    let understood = compute_understood(&deps, &learned);
    let v = idea_tree_view(&ideas, &deps, &learned, &understood);
    assert_eq!(v.rows[2].depth, 2);
    assert_eq!(v.layers(), vec![vec![0], vec![1], vec![2]]);
    assert_eq!(v.rows[2].summary(), "0/50 understood");
}

#[test]
fn an_empty_view_has_no_layers() {
    let v = idea_tree_view(&[], &[], &[], &[]);
    assert!(v.layers().is_empty());
}
