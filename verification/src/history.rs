//! The undo history: named steps that can be undone and redone, each
//! holding what it takes to go either way.
use crate::doc::{opt_bytes_view, Layer, LayerMeta, LayerView, MetaView};
use crate::document::{DocView, Document};
use vstd::prelude::*;

verus! {

/// One change of the document. Pixel changes keep a snapshot of the touched
/// layer only.
#[derive(Clone)]
#[allow(inconsistent_fields)]
pub enum Action {
    Pixels { layer: usize, before: Vec<u8>, after: Vec<u8> },
    LayerAdd { index: usize },
    LayerDelete { index: usize, layer: Box<Layer> },
    LayerMove { from: usize, to: usize },
    LayerMeta { index: usize, before: LayerMeta, after: LayerMeta },
    /// The mask of a layer before and after (`None`: there was none, or it
    /// was removed).
    Mask { layer: usize, before: Option<Vec<u8>>, after: Option<Vec<u8>> },
    /// Merging two layers: the top one is removed and the one under it
    /// changed; undoing brings both back.
    Merge { top_index: usize, top: Box<Layer>, under_index: usize, under_before: Vec<u8> },
    /// The whole document: turning, mirroring, resizing the canvas.
    Document { before: Box<Document>, after: Box<Document> },
}

/// What an action holds.
#[allow(inconsistent_fields)]
pub enum ActionView {
    Pixels { layer: nat, before: Seq<u8>, after: Seq<u8> },
    LayerAdd { index: nat },
    LayerDelete { index: nat, layer: LayerView },
    LayerMove { from: nat, to: nat },
    LayerMeta { index: nat, before: MetaView, after: MetaView },
    Mask { layer: nat, before: Option<Seq<u8>>, after: Option<Seq<u8>> },
    Merge { top_index: nat, top: LayerView, under_index: nat, under_before: Seq<u8> },
    Document { before: DocView, after: DocView },
}

impl View for Action {
    type V = ActionView;

    open spec fn view(&self) -> ActionView {
        match self {
            Action::Pixels { layer, before, after } => ActionView::Pixels {
                layer: *layer as nat,
                before: before@,
                after: after@,
            },
            Action::LayerAdd { index } => ActionView::LayerAdd { index: *index as nat },
            Action::LayerDelete { index, layer } => ActionView::LayerDelete { index: *index as nat, layer: layer@ },
            Action::LayerMove { from, to } => ActionView::LayerMove { from: *from as nat, to: *to as nat },
            Action::LayerMeta { index, before, after } => ActionView::LayerMeta {
                index: *index as nat,
                before: before@,
                after: after@,
            },
            Action::Mask { layer, before, after } => ActionView::Mask {
                layer: *layer as nat,
                before: opt_bytes_view(*before),
                after: opt_bytes_view(*after),
            },
            Action::Merge { top_index, top, under_index, under_before } => ActionView::Merge {
                top_index: *top_index as nat,
                top: top@,
                under_index: *under_index as nat,
                under_before: under_before@,
            },
            Action::Document { before, after } => ActionView::Document { before: before@, after: after@ },
        }
    }
}

fn copy_bytes(v: &Vec<u8>) -> (r: Vec<u8>)
    ensures
        r@ == v@,
{
    let r = v.clone();
    assert(r@ =~= v@);
    r
}

fn copy_opt_bytes(v: &Option<Vec<u8>>) -> (r: Option<Vec<u8>>)
    ensures
        opt_bytes_view(r) == opt_bytes_view(*v),
{
    match v {
        Some(b) => Some(copy_bytes(b)),
        None => None,
    }
}

impl Action {
    /// A copy holding the same data.
    pub fn copy(&self) -> (r: Self)
        ensures
            r@ == self@,
    {
        match self {
            Action::Pixels { layer, before, after } => Action::Pixels {
                layer: *layer,
                before: copy_bytes(before),
                after: copy_bytes(after),
            },
            Action::LayerAdd { index } => Action::LayerAdd { index: *index },
            Action::LayerDelete { index, layer } => Action::LayerDelete { index: *index, layer: Box::new(layer.copy()) },
            Action::LayerMove { from, to } => Action::LayerMove { from: *from, to: *to },
            Action::LayerMeta { index, before, after } => Action::LayerMeta {
                index: *index,
                before: before.copy(),
                after: after.copy(),
            },
            Action::Mask { layer, before, after } => Action::Mask {
                layer: *layer,
                before: copy_opt_bytes(before),
                after: copy_opt_bytes(after),
            },
            Action::Merge { top_index, top, under_index, under_before } => Action::Merge {
                top_index: *top_index,
                top: Box::new(top.copy()),
                under_index: *under_index,
                under_before: copy_bytes(under_before),
            },
            Action::Document { before, after } => Action::Document {
                before: Box::new(before.copy()),
                after: Box::new(after.copy()),
            },
        }
    }
}

/// A history step with the name that the history panel shows.
#[derive(Clone)]
pub struct Step {
    pub name: String,
    pub action: Action,
}

/// What a step holds.
pub struct StepView {
    pub name: Seq<char>,
    pub action: ActionView,
}

impl View for Step {
    type V = StepView;

    open spec fn view(&self) -> StepView {
        StepView { name: self.name@, action: self.action@ }
    }
}

impl Step {
    /// A copy holding the same name and action.
    pub fn copy(&self) -> (r: Self)
        ensures
            r@ == self@,
    {
        Step { name: self.name.clone(), action: self.action.copy() }
    }
}

/// The undo history.
pub struct History {
    /// The steps done: their count is the current state of the document.
    pub steps: Vec<Step>,
    /// The steps undone, waiting to be redone; the last one first.
    pub undone: Vec<Step>,
    pub limit: usize,
}

/// What a history holds.
pub struct HistoryView {
    pub steps: Seq<StepView>,
    pub undone: Seq<StepView>,
    pub limit: nat,
}

pub open spec fn step_view(s: Step) -> StepView {
    s@
}

impl View for History {
    type V = HistoryView;

    open spec fn view(&self) -> HistoryView {
        HistoryView {
            steps: self.steps@.map_values(|s: Step| step_view(s)),
            undone: self.undone@.map_values(|s: Step| step_view(s)),
            limit: self.limit as nat,
        }
    }
}

/// The history after recording `s`: nothing is recorded with a limit of 0;
/// otherwise `s` is added, the oldest step is dropped when the limit is
/// passed, and nothing is left to redo.
pub open spec fn spec_push(h: HistoryView, s: StepView) -> HistoryView {
    if h.limit == 0 {
        h
    } else {
        let steps = h.steps.push(s);
        HistoryView {
            steps: if steps.len() > h.limit {
                steps.drop_first()
            } else {
                steps
            },
            undone: Seq::empty(),
            limit: h.limit,
        }
    }
}

/// The history after undoing its last step (unchanged when there is none).
pub open spec fn spec_undo(h: HistoryView) -> HistoryView {
    if h.steps.len() == 0 {
        h
    } else {
        HistoryView { steps: h.steps.drop_last(), undone: h.undone.push(h.steps.last()), limit: h.limit }
    }
}

/// The history after redoing its last undone step (unchanged when there is
/// none).
pub open spec fn spec_redo(h: HistoryView) -> HistoryView {
    if h.undone.len() == 0 {
        h
    } else {
        HistoryView { steps: h.steps.push(h.undone.last()), undone: h.undone.drop_last(), limit: h.limit }
    }
}

/// The steps met going back to `target` steps: each undone step, newest
/// first, marked as applied backwards.
pub open spec fn back_steps(h: HistoryView, target: nat) -> Seq<(StepView, bool)>
    decreases h.steps.len(),
{
    if h.steps.len() > target {
        seq![(h.steps.last(), false)] + back_steps(spec_undo(h), target)
    } else {
        Seq::empty()
    }
}

/// The history gone back to `target` steps.
pub open spec fn back_to(h: HistoryView, target: nat) -> HistoryView
    decreases h.steps.len(),
{
    if h.steps.len() > target {
        back_to(spec_undo(h), target)
    } else {
        h
    }
}

/// The steps met going forward to `target` steps, as far as there are
/// undone steps: each one redone, marked as applied forwards.
pub open spec fn fwd_steps(h: HistoryView, target: nat) -> Seq<(StepView, bool)>
    decreases h.undone.len(),
{
    if h.steps.len() < target && h.undone.len() > 0 {
        seq![(h.undone.last(), true)] + fwd_steps(spec_redo(h), target)
    } else {
        Seq::empty()
    }
}

/// The history gone forward to `target` steps, as far as it can.
pub open spec fn fwd_to(h: HistoryView, target: nat) -> HistoryView
    decreases h.undone.len(),
{
    if h.steps.len() < target && h.undone.len() > 0 {
        fwd_to(spec_redo(h), target)
    } else {
        h
    }
}

/// The timeline of a history: the steps done, then the undone ones in the
/// order they were done.
pub open spec fn timeline(h: HistoryView) -> Seq<StepView> {
    h.steps + h.undone.reverse()
}

pub open spec fn move_view(p: (Step, bool)) -> (StepView, bool) {
    (p.0@, p.1)
}

impl History {
    /// An empty history that keeps at most `limit` steps.
    pub fn new(limit: usize) -> (h: Self)
        ensures
            h@ == (HistoryView { steps: Seq::empty(), undone: Seq::empty(), limit: limit as nat }),
    {
        let h = History { steps: Vec::new(), undone: Vec::new(), limit };
        assert(h@.steps =~= Seq::<StepView>::empty());
        assert(h@.undone =~= Seq::<StepView>::empty());
        h
    }

    /// Records a step named `name` (see `spec_push`).
    pub fn push(&mut self, name: &str, a: Action)
        ensures
            final(self)@ == spec_push(old(self)@, StepView { name: name@, action: a@ }),
    {
        if self.limit == 0 {
            return;
        }
        let ghost s = StepView { name: name@, action: a@ };
        self.steps.push(Step { name: name.to_owned(), action: a });
        assert(self@.steps =~= old(self)@.steps.push(s));
        if self.steps.len() > self.limit {
            self.steps.remove(0);
            assert(self@.steps =~= old(self)@.steps.push(s).drop_first());
        }
        self.undone.clear();
        assert(self@.undone =~= Seq::<StepView>::empty());
    }

    /// There is a step to undo.
    pub fn can_undo(&self) -> (r: bool)
        ensures
            r == (self@.steps.len() > 0),
    {
        self.steps.len() > 0
    }

    /// There is a step to redo.
    pub fn can_redo(&self) -> (r: bool)
        ensures
            r == (self@.undone.len() > 0),
    {
        self.undone.len() > 0
    }

    /// The current state: how many steps are applied.
    pub fn position(&self) -> (r: usize)
        ensures
            r == self@.steps.len(),
    {
        self.steps.len()
    }

    /// Undoes the last step and returns it.
    pub fn undo(&mut self) -> (r: Option<Step>)
        ensures
            final(self)@ == spec_undo(old(self)@),
            r is None <==> old(self)@.steps.len() == 0,
            r matches Some(s) ==> s@ == old(self)@.steps.last(),
    {
        match self.steps.pop() {
            None => {
                assert(self@ == old(self)@);
                None
            },
            Some(s) => {
                self.undone.push(s.copy());
                assert(self@.steps =~= old(self)@.steps.drop_last());
                assert(self@.undone =~= old(self)@.undone.push(s@));
                Some(s)
            },
        }
    }

    /// Redoes the last undone step and returns it.
    pub fn redo(&mut self) -> (r: Option<Step>)
        ensures
            final(self)@ == spec_redo(old(self)@),
            r is None <==> old(self)@.undone.len() == 0,
            r matches Some(s) ==> s@ == old(self)@.undone.last(),
    {
        match self.undone.pop() {
            None => {
                assert(self@ == old(self)@);
                None
            },
            Some(s) => {
                self.steps.push(s.copy());
                assert(self@.undone =~= old(self)@.undone.drop_last());
                assert(self@.steps =~= old(self)@.steps.push(s@));
                Some(s)
            },
        }
    }

    /// Winds the history to `target` steps and returns the steps in the
    /// order to apply them: first the undone ones (marked `false`, to apply
    /// backwards), then the redone ones (marked `true`).
    pub fn goto(&mut self, target: usize) -> (out: Vec<(Step, bool)>)
        ensures
            final(self)@ == fwd_to(back_to(old(self)@, target as nat), target as nat),
            out@.map_values(|p: (Step, bool)| move_view(p)) == back_steps(old(self)@, target as nat) + fwd_steps(
                back_to(old(self)@, target as nat),
                target as nat,
            ),
    {
        let mut out: Vec<(Step, bool)> = Vec::new();
        let ghost h0 = self@;
        while self.steps.len() > target
            invariant
                back_to(self@, target as nat) == back_to(h0, target as nat),
                out@.map_values(|p: (Step, bool)| move_view(p)) + back_steps(self@, target as nat) == back_steps(
                    h0,
                    target as nat,
                ),
            decreases self@.steps.len(),
        {
            let ghost before = self@;
            let ghost outv = out@.map_values(|p: (Step, bool)| move_view(p));
            let s = self.undo().unwrap();
            out.push((s, false));
            assert(out@.map_values(|p: (Step, bool)| move_view(p)) =~= outv.push((before.steps.last(), false)));
            assert(back_steps(before, target as nat) == seq![(before.steps.last(), false)] + back_steps(
                self@,
                target as nat,
            ));
            assert(outv.push((before.steps.last(), false)) + back_steps(self@, target as nat) =~= outv
                + back_steps(before, target as nat));
        }
        let ghost mid = self@;
        proof {
            assert(back_steps(mid, target as nat) =~= Seq::<(StepView, bool)>::empty());
            assert(back_to(mid, target as nat) == mid);
        }
        let ghost base = out@.map_values(|p: (Step, bool)| move_view(p));
        while self.steps.len() < target && self.undone.len() > 0
            invariant
                base == back_steps(h0, target as nat),
                mid == back_to(h0, target as nat),
                fwd_to(self@, target as nat) == fwd_to(mid, target as nat),
                out@.map_values(|p: (Step, bool)| move_view(p)) + fwd_steps(self@, target as nat) == base + fwd_steps(
                    mid,
                    target as nat,
                ),
            decreases self@.undone.len(),
        {
            let ghost before = self@;
            let ghost outv = out@.map_values(|p: (Step, bool)| move_view(p));
            let s = self.redo().unwrap();
            out.push((s, true));
            assert(out@.map_values(|p: (Step, bool)| move_view(p)) =~= outv.push((before.undone.last(), true)));
            assert(fwd_steps(before, target as nat) == seq![(before.undone.last(), true)] + fwd_steps(
                self@,
                target as nat,
            ));
            assert(outv.push((before.undone.last(), true)) + fwd_steps(self@, target as nat) =~= outv
                + fwd_steps(before, target as nat));
        }
        proof {
            assert(fwd_steps(self@, target as nat) =~= Seq::<(StepView, bool)>::empty());
            assert(fwd_to(self@, target as nat) == self@);
            assert(out@.map_values(|p: (Step, bool)| move_view(p)) =~= base + fwd_steps(mid, target as nat));
        }
        out
    }
}

/// Undoing a step and redoing it gives the history back.
pub proof fn lemma_undo_redo(h: HistoryView)
    requires
        h.steps.len() > 0,
    ensures
        spec_redo(spec_undo(h)) == h,
{
    assert(spec_redo(spec_undo(h)).steps =~= h.steps);
    assert(spec_redo(spec_undo(h)).undone =~= h.undone);
}

/// Redoing a step and undoing it gives the history back.
pub proof fn lemma_redo_undo(h: HistoryView)
    requires
        h.undone.len() > 0,
    ensures
        spec_undo(spec_redo(h)) == h,
{
    assert(spec_undo(spec_redo(h)).steps =~= h.steps);
    assert(spec_undo(spec_redo(h)).undone =~= h.undone);
}

/// Undo and redo move along the timeline without changing it.
pub proof fn lemma_timeline_kept(h: HistoryView)
    ensures
        timeline(spec_undo(h)) == timeline(h),
        timeline(spec_redo(h)) == timeline(h),
{
    if h.steps.len() > 0 {
        let u = spec_undo(h);
        assert(u.undone.reverse() =~= seq![h.steps.last()] + h.undone.reverse());
        assert(timeline(u) =~= timeline(h));
    }
    if h.undone.len() > 0 {
        let r = spec_redo(h);
        assert(h.undone.reverse() =~= seq![h.undone.last()] + r.undone.reverse());
        assert(timeline(r) =~= timeline(h));
    }
}

/// Winding keeps the timeline, and reaches `target` steps whenever the
/// timeline is that long.
pub proof fn lemma_goto(h: HistoryView, target: nat)
    ensures
        timeline(fwd_to(back_to(h, target), target)) == timeline(h),
        target <= timeline(h).len() ==> fwd_to(back_to(h, target), target).steps.len() == target,
    decreases h.steps.len() + h.undone.len(),
{
    lemma_back(h, target);
    lemma_fwd(back_to(h, target), target);
}

proof fn lemma_back(h: HistoryView, target: nat)
    ensures
        timeline(back_to(h, target)) == timeline(h),
        back_to(h, target).steps.len() == if h.steps.len() > target {
            target
        } else {
            h.steps.len()
        },
    decreases h.steps.len(),
{
    if h.steps.len() > target {
        lemma_timeline_kept(h);
        lemma_back(spec_undo(h), target);
    }
}

proof fn lemma_fwd(h: HistoryView, target: nat)
    ensures
        timeline(fwd_to(h, target)) == timeline(h),
        h.steps.len() <= target <= timeline(h).len() ==> fwd_to(h, target).steps.len() == target,
        target < h.steps.len() ==> fwd_to(h, target) == h,
    decreases h.undone.len(),
{
    if h.steps.len() < target && h.undone.len() > 0 {
        lemma_timeline_kept(h);
        lemma_fwd(spec_redo(h), target);
    }
}

proof fn lemma_back_steps(h: HistoryView, t: nat)
    ensures
        back_steps(h, t).len() == if h.steps.len() > t {
            h.steps.len() - t
        } else {
            0
        },
        forall|k: int|
            0 <= k < back_steps(h, t).len() ==> #[trigger] back_steps(h, t)[k] == (
                h.steps[h.steps.len() - 1 - k],
                false,
            ),
    decreases h.steps.len(),
{
    if h.steps.len() > t {
        let u = spec_undo(h);
        lemma_back_steps(u, t);
        let g = back_steps(h, t);
        assert forall|k: int| 0 <= k < g.len() implies #[trigger] g[k] == (h.steps[h.steps.len() - 1 - k], false) by {
            if k > 0 {
                assert(g[k] == back_steps(u, t)[k - 1]);
                assert(u.steps[u.steps.len() - 1 - (k - 1)] == h.steps[h.steps.len() - 1 - k]);
            }
        }
    }
}

proof fn lemma_fwd_steps(h: HistoryView, t: nat)
    ensures
        fwd_steps(h, t).len() == if h.steps.len() < t {
            if t <= timeline(h).len() {
                t - h.steps.len()
            } else {
                h.undone.len() as int
            }
        } else {
            0
        },
        forall|k: int|
            0 <= k < fwd_steps(h, t).len() ==> #[trigger] fwd_steps(h, t)[k] == (
                timeline(h)[h.steps.len() + k],
                true,
            ),
    decreases h.undone.len(),
{
    if h.steps.len() < t && h.undone.len() > 0 {
        let r = spec_redo(h);
        lemma_fwd_steps(r, t);
        lemma_timeline_kept(h);
        let g = fwd_steps(h, t);
        assert(h.undone.reverse()[0] == h.undone.last());
        assert(timeline(h)[h.steps.len() as int] == h.undone.last());
        assert forall|k: int| 0 <= k < g.len() implies #[trigger] g[k] == (timeline(h)[h.steps.len() + k], true) by {
            if k > 0 {
                assert(g[k] == fwd_steps(r, t)[k - 1]);
            }
        }
    }
}

/// Going to `target` steps reports exactly the steps between where the
/// history was and where it ends: when going back, the undone steps newest
/// first, each marked backwards; when going forward, the redone steps in the
/// order they were done, each marked forwards. It ends at `target` steps,
/// or at the end of the timeline when that is shorter.
pub proof fn lemma_goto_moves(h: HistoryView, target: nat)
    ensures
        ({
            let p = h.steps.len();
            let g = back_steps(h, target) + fwd_steps(back_to(h, target), target);
            let n = fwd_to(back_to(h, target), target).steps.len();
            &&& n == if target <= timeline(h).len() {
                target
            } else {
                timeline(h).len()
            }
            &&& g.len() == if n <= p {
                p - n
            } else {
                n - p
            }
            &&& forall|k: int| 0 <= k < g.len() ==> (#[trigger] g[k]).1 == (target > p)
            &&& forall|k: int| 0 <= k < g.len() && target < p ==> (#[trigger] g[k]).0 == h.steps[p - 1 - k]
            &&& forall|k: int| 0 <= k < g.len() && target > p ==> (#[trigger] g[k]).0 == timeline(h)[p + k]
        }),
{
    let p = h.steps.len();
    lemma_back(h, target);
    lemma_back_steps(h, target);
    let b = back_to(h, target);
    lemma_fwd(b, target);
    lemma_fwd_steps(b, target);
    if p > target {
        assert(fwd_steps(b, target) =~= Seq::<(StepView, bool)>::empty());
        assert(back_steps(h, target) + fwd_steps(b, target) =~= back_steps(h, target));
        assert(fwd_to(b, target) == b);
    } else {
        assert(b == h);
        assert(back_steps(h, target) =~= Seq::<(StepView, bool)>::empty());
        assert(back_steps(h, target) + fwd_steps(b, target) =~= fwd_steps(b, target));
        if target > timeline(h).len() {
            lemma_fwd_to_end(h, target);
        }
    }
}

proof fn lemma_fwd_to_end(h: HistoryView, t: nat)
    requires
        t > timeline(h).len(),
    ensures
        fwd_to(h, t).steps.len() == timeline(h).len(),
    decreases h.undone.len(),
{
    if h.undone.len() > 0 {
        lemma_timeline_kept(h);
        lemma_fwd_to_end(spec_redo(h), t);
    }
}

} // verus!
