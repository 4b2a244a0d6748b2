//! The state of the ideas window: whether it shows, which idea it calls
//! out, and the knowledge gain it is fading in. Each time the city's
//! knowledge is looked at, a change since the last look opens the window and
//! keeps the masks from before the change, from which the fade draws each
//! segment's old colour.
use vstd::prelude::*;
use crate::idea::{compute_understood, spec_understood};
use crate::idea_view::{segment_state, SegmentState};

verus! {

/// An idea to call out, with a line saying why.
#[derive(Clone, PartialEq, Eq, Debug)]
pub struct IdeaHighlight {
    /// Index of the idea.
    pub idea: usize,
    pub note: String,
}

/// A knowledge gain being shown: the learned and understood masks as they
/// stood before it.
pub struct Reveal {
    pub prev_learned: Vec<u64>,
    pub prev_understood: Vec<u64>,
}

impl Reveal {
    /// What `segment` of `idea` looked like before the gain; none for an
    /// idea the old masks do not cover.
    pub fn prev_state(&self, idea: usize, segment: usize) -> (s: Option<SegmentState>)
        requires
            segment < 64,
        ensures
            s == (if idea < self.prev_learned@.len() && idea < self.prev_understood@.len() {
                Some(segment_state(self.prev_learned@[idea as int], self.prev_understood@[idea as int], segment as u64))
            } else {
                None
            }),
    {
        if idea >= self.prev_learned.len() || idea >= self.prev_understood.len() {
            return None;
        }
        let b = segment as u64;
        let learned = self.prev_learned[idea];
        let understood = self.prev_understood[idea];
        Some(if (understood >> b) & 1 == 1 {
            SegmentState::Understood
        } else if (learned >> b) & 1 == 1 {
            SegmentState::LearnedOnly
        } else {
            SegmentState::Unknown
        })
    }
}

/// Whether the ideas window shows, what it calls out, and the gain it is
/// fading in.
pub struct IdeaWindowState {
    pub open: bool,
    pub focus: Option<IdeaHighlight>,
    pub reveal: Option<Reveal>,
}

impl Default for IdeaWindowState {
    /// Closed, calling out nothing, fading nothing.
    fn default() -> (w: Self)
        ensures
            !w.open,
            w.focus is None,
            w.reveal is None,
    {
        IdeaWindowState { open: false, focus: None, reveal: None }
    }
}

/// The masks as of the last look.
pub struct KnowledgeSnapshot {
    pub learned: Vec<u64>,
    pub understood: Vec<u64>,
}

impl Default for KnowledgeSnapshot {
    /// Nothing looked at yet.
    fn default() -> (k: Self)
        ensures
            k.learned@.len() == 0,
            k.understood@.len() == 0,
    {
        KnowledgeSnapshot { learned: Vec::new(), understood: Vec::new() }
    }
}

fn masks_equal(a: &Vec<u64>, b: &Vec<u64>) -> (same: bool)
    ensures
        same == (a@ == b@),
{
    if a.len() != b.len() {
        return false;
    }
    let mut i: usize = 0;
    while i < a.len()
        invariant
            i <= a@.len(),
            a@.len() == b@.len(),
            forall|k: int| 0 <= k < i ==> a@[k] == b@[k],
        decreases a@.len() - i,
    {
        if a[i] != b[i] {
            return false;
        }
        i += 1;
    }
    proof {
        assert(a@ =~= b@);
    }
    true
}

/// The learned masks differ in length from the last look's: the idea list
/// is new, and nothing is announced.
pub open spec fn first_look(snapshot: KnowledgeSnapshot, learned: Seq<u64>) -> bool {
    snapshot.learned@.len() != learned.len()
}

/// The learned masks, or the understood ones they give, differ from the
/// last look's.
pub open spec fn knowledge_changed(snapshot: KnowledgeSnapshot, learned: Seq<u64>, understood: Seq<u64>) -> bool {
    snapshot.learned@ != learned || snapshot.understood@ != understood
}

/// Looks at the city's knowledge: `learned`, and the understood masks it
/// gives under `deps`. When it changed since the last look, and this is not
/// the first look at this idea list, the window opens and fades in from the
/// last look's masks; when it changed at all, the snapshot takes the new
/// masks. Returns whether a gain was announced.
pub fn announce_new_knowledge(
    snapshot: &mut KnowledgeSnapshot,
    window: &mut IdeaWindowState,
    deps: &[Vec<usize>],
    learned: &Vec<u64>,
) -> (announced: bool)
    requires
        deps@.len() >= learned@.len(),
        forall|i: int, k: int| 0 <= i < learned@.len() && 0 <= k < deps@[i]@.len() ==> #[trigger] deps@[i]@[k] < i,
    ensures
        ({
            let u = spec_understood(deps@.map_values(|d: Vec<usize>| d@), learned@);
            let changed = knowledge_changed(*old(snapshot), learned@, u);
            &&& announced == (changed && !first_look(*old(snapshot), learned@))
            &&& announced ==> (final(window).open
                && final(window).focus == old(window).focus
                && (final(window).reveal matches Some(r)
                && r.prev_learned@ == old(snapshot).learned@
                && r.prev_understood@ == old(snapshot).understood@))
            &&& !announced ==> *final(window) == *old(window)
            &&& changed ==> final(snapshot).learned@ == learned@ && final(snapshot).understood@ == u
            &&& !changed ==> *final(snapshot) == *old(snapshot)
        }),
{
    let understood = compute_understood(deps, learned.as_slice());
    let first = snapshot.learned.len() != learned.len();
    let changed = !masks_equal(&snapshot.learned, learned) || !masks_equal(&snapshot.understood, &understood);
    if !changed {
        return false;
    }
    let mut prev_learned = learned.clone();
    let mut prev_understood = understood;
    std::mem::swap(&mut prev_learned, &mut snapshot.learned);
    std::mem::swap(&mut prev_understood, &mut snapshot.understood);
    if first {
        return false;
    }
    window.open = true;
    window.reveal = Some(Reveal { prev_learned, prev_understood });
    true
}

/// Every look leaves the snapshot holding the masks it looked at (see
/// `announce_new_knowledge`), so a further look at the same masks finds no
/// change: it announces nothing and changes nothing, and an idle frame never
/// reopens the window or restarts the fade.
pub proof fn lemma_second_look_is_quiet(snapshot: KnowledgeSnapshot, deps: Seq<Seq<usize>>, learned: Seq<u64>)
    requires
        snapshot.learned@ == learned,
        snapshot.understood@ == spec_understood(deps, learned),
    ensures
        !knowledge_changed(snapshot, learned, spec_understood(deps, learned)),
        !first_look(snapshot, learned),
{
}

} // verus!
