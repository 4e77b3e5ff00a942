//! One run over a batch of pending uploads, as a state machine: the caller
//! performs each action it hands out (a status update in the queue table,
//! or an upload) and reports how each upload ended.
use vstd::prelude::*;

verus! {

/// A queued file waiting to be uploaded.
#[derive(Clone, Debug)]
pub struct PendingUpload {
    pub id: String,
    pub path: String,
}

impl View for PendingUpload {
    type V = (Seq<char>, Seq<char>);

    open spec fn view(&self) -> (Seq<char>, Seq<char>) {
        (self.id@, self.path@)
    }
}

/// What the caller does next.
#[derive(Clone, Debug)]
pub enum UploadAction {
    /// Set the queue row `id` to `Uploading`.
    MarkUploading { id: String },
    /// Upload the file at `path` into the target folder, tagged with its
    /// queue id; then report how it ended.
    Upload { path: String, target_folder_id: Option<i64>, queue_id: String },
    /// Set the queue row `id` to `Uploaded`.
    MarkUploaded { id: String },
    /// Set the queue row `id` to `Failed` and count one more retry.
    MarkFailed { id: String },
    /// The batch is done.
    Finished,
}

/// An action as data.
pub enum ActionView {
    MarkUploading { id: Seq<char> },
    Upload { path: Seq<char>, target_folder_id: Option<i64>, queue_id: Seq<char> },
    MarkUploaded { id: Seq<char> },
    MarkFailed { id: Seq<char> },
    Finished,
}

impl View for UploadAction {
    type V = ActionView;

    open spec fn view(&self) -> ActionView {
        match self {
            UploadAction::MarkUploading { id } => ActionView::MarkUploading { id: id@ },
            UploadAction::Upload { path, target_folder_id, queue_id } => ActionView::Upload {
                path: path@,
                target_folder_id: *target_folder_id,
                queue_id: queue_id@,
            },
            UploadAction::MarkUploaded { id } => ActionView::MarkUploaded { id: id@ },
            UploadAction::MarkFailed { id } => ActionView::MarkFailed { id: id@ },
            UploadAction::Finished => ActionView::Finished,
        }
    }
}

/// Where the run stands with its current item.
#[derive(Clone, Copy, Debug, PartialEq, Eq, Structural)]
pub enum UploadStage {
    /// The current item (if any) is to be marked `Uploading`.
    Mark,
    /// The current item is to be uploaded.
    Transfer,
    /// The current item's upload is under way; its outcome is awaited.
    AwaitResult,
}

/// A run as data: the batch, the target folder, the index of the current
/// item, and the stage.
pub struct RunView {
    pub items: Seq<(Seq<char>, Seq<char>)>,
    pub target_folder_id: Option<i64>,
    pub next: nat,
    pub stage: UploadStage,
}

/// A run over a batch of pending uploads.
pub struct UploadRun {
    items: Vec<PendingUpload>,
    target_folder_id: Option<i64>,
    next: usize,
    stage: UploadStage,
}

/// The run is consistent: the current index lies within the batch, and
/// strictly so while an item is being uploaded.
pub open spec fn run_wf(v: RunView) -> bool {
    &&& v.next <= v.items.len()
    &&& v.stage != UploadStage::Mark ==> v.next < v.items.len()
}

/// The next action in stage `Mark` or `Transfer`, and the run after it.
pub open spec fn advance(v: RunView) -> (RunView, ActionView) {
    if v.stage == UploadStage::Mark {
        if v.next >= v.items.len() {
            (v, ActionView::Finished)
        } else {
            (RunView { stage: UploadStage::Transfer, ..v }, ActionView::MarkUploading { id: v.items[v.next as int].0 })
        }
    } else {
        (
            RunView { stage: UploadStage::AwaitResult, ..v },
            ActionView::Upload {
                path: v.items[v.next as int].1,
                target_folder_id: v.target_folder_id,
                queue_id: v.items[v.next as int].0,
            },
        )
    }
}

/// The action recording how the current upload ended, and the run after
/// it, which moves on to the next item.
pub open spec fn settle(v: RunView, succeeded: bool) -> (RunView, ActionView) {
    let id = v.items[v.next as int].0;
    (
        RunView { next: v.next + 1, stage: UploadStage::Mark, ..v },
        if succeeded {
            ActionView::MarkUploaded { id }
        } else {
            ActionView::MarkFailed { id }
        },
    )
}

impl View for UploadRun {
    type V = RunView;

    closed spec fn view(&self) -> RunView {
        RunView {
            items: self.items@.map_values(|p: PendingUpload| p@),
            target_folder_id: self.target_folder_id,
            next: self.next as nat,
            stage: self.stage,
        }
    }
}

impl UploadRun {
    /// A run over `items` (the batch, in the order the queue gave them) into
    /// `target_folder_id`.
    pub fn new(items: Vec<PendingUpload>, target_folder_id: Option<i64>) -> (r: Self)
        ensures
            r@ == (RunView {
                items: items@.map_values(|p: PendingUpload| p@),
                target_folder_id,
                next: 0,
                stage: UploadStage::Mark,
            }),
            run_wf(r@),
    {
        UploadRun { items, target_folder_id, next: 0, stage: UploadStage::Mark }
    }

    /// Whether the run waits for the outcome of an upload.
    pub fn awaits_result(&self) -> (r: bool)
        ensures
            r == (self@.stage == UploadStage::AwaitResult),
    {
        self.stage == UploadStage::AwaitResult
    }

    /// The next action while no upload outcome is awaited.
    pub fn next_action(&mut self) -> (r: UploadAction)
        requires
            run_wf(old(self)@),
            old(self)@.stage != UploadStage::AwaitResult,
        ensures
            (final(self)@, r@) == advance(old(self)@),
            run_wf(final(self)@),
    {
        let ghost v = self@;
        if self.stage == UploadStage::Mark {
            if self.next >= self.items.len() {
                return UploadAction::Finished;
            }
            let id = self.items[self.next].id.clone();
            self.stage = UploadStage::Transfer;
            proof {
                assert(self@.items =~= v.items);
            }
            UploadAction::MarkUploading { id }
        } else {
            let path = self.items[self.next].path.clone();
            let queue_id = self.items[self.next].id.clone();
            self.stage = UploadStage::AwaitResult;
            proof {
                assert(self@.items =~= v.items);
            }
            UploadAction::Upload { path, target_folder_id: self.target_folder_id, queue_id }
        }
    }

    /// Records how the awaited upload ended and returns the status update
    /// for it.
    pub fn upload_finished(&mut self, succeeded: bool) -> (r: UploadAction)
        requires
            run_wf(old(self)@),
            old(self)@.stage == UploadStage::AwaitResult,
        ensures
            (final(self)@, r@) == settle(old(self)@, succeeded),
            run_wf(final(self)@),
    {
        let ghost v = self@;
        let n = self.items.len();
        assert(v.items.len() == n);
        let id = self.items[self.next].id.clone();
        self.next = self.next + 1;
        self.stage = UploadStage::Mark;
        proof {
            assert(self@.items =~= v.items);
        }
        if succeeded {
            UploadAction::MarkUploaded { id }
        } else {
            UploadAction::MarkFailed { id }
        }
    }
}

/// The actions a run hands out from `v` on, when the uploads end as
/// `outcomes` says (indexed by item).
pub open spec fn drive(v: RunView, outcomes: Seq<bool>) -> Seq<ActionView>
    decreases 3 * (v.items.len() - v.next) + (if v.stage == UploadStage::Mark {
        2int
    } else if v.stage == UploadStage::Transfer {
        1int
    } else {
        0int
    }),
{
    if !run_wf(v) {
        Seq::empty()
    } else if v.stage == UploadStage::AwaitResult {
        let (w, a) = settle(v, outcomes[v.next as int]);
        seq![a] + drive(w, outcomes)
    } else if v.stage == UploadStage::Mark && v.next >= v.items.len() {
        seq![ActionView::Finished]
    } else {
        let (w, a) = advance(v);
        seq![a] + drive(w, outcomes)
    }
}

/// The actions for items `i` onwards: for each, mark it uploading, upload
/// it, and mark it uploaded or failed by its outcome; then finish.
pub open spec fn plan_from(
    items: Seq<(Seq<char>, Seq<char>)>,
    target_folder_id: Option<i64>,
    outcomes: Seq<bool>,
    i: nat,
) -> Seq<ActionView>
    decreases items.len() - i,
{
    if i >= items.len() {
        seq![ActionView::Finished]
    } else {
        let (id, path) = items[i as int];
        seq![
            ActionView::MarkUploading { id },
            ActionView::Upload { path, target_folder_id, queue_id: id },
            if outcomes[i as int] {
                ActionView::MarkUploaded { id }
            } else {
                ActionView::MarkFailed { id }
            },
        ] + plan_from(items, target_folder_id, outcomes, i + 1)
    }
}

proof fn lemma_drive_from_item(
    items: Seq<(Seq<char>, Seq<char>)>,
    target_folder_id: Option<i64>,
    outcomes: Seq<bool>,
    i: nat,
)
    requires
        i <= items.len(),
    ensures
        drive(RunView { items, target_folder_id, next: i, stage: UploadStage::Mark }, outcomes)
            == plan_from(items, target_folder_id, outcomes, i),
    decreases items.len() - i,
{
    let v0 = RunView { items, target_folder_id, next: i, stage: UploadStage::Mark };
    if i < items.len() {
        lemma_drive_from_item(items, target_folder_id, outcomes, i + 1);
        let v1 = RunView { stage: UploadStage::Transfer, ..v0 };
        let v2 = RunView { stage: UploadStage::AwaitResult, ..v0 };
        let v3 = RunView { next: i + 1, stage: UploadStage::Mark, ..v0 };
        assert(advance(v0).0 == v1);
        assert(advance(v1).0 == v2);
        assert(settle(v2, outcomes[i as int]).0 == v3);
        let rest = plan_from(items, target_folder_id, outcomes, i + 1);
        assert(drive(v2, outcomes) == seq![settle(v2, outcomes[i as int]).1] + rest);
        assert(drive(v1, outcomes) == seq![advance(v1).1] + drive(v2, outcomes));
        assert(drive(v0, outcomes) == seq![advance(v0).1] + drive(v1, outcomes));
        assert(drive(v0, outcomes) =~= plan_from(items, target_folder_id, outcomes, i));
    }
}

/// A run over a batch marks each item `Uploading`, uploads it into the
/// target folder under its queue id, and marks it `Uploaded` or `Failed`
/// by how its upload ended, item after item in batch order; then it
/// finishes.
pub proof fn lemma_run_follows_plan(
    items: Seq<(Seq<char>, Seq<char>)>,
    target_folder_id: Option<i64>,
    outcomes: Seq<bool>,
)
    requires
        outcomes.len() == items.len(),
    ensures
        drive(RunView { items, target_folder_id, next: 0, stage: UploadStage::Mark }, outcomes)
            == plan_from(items, target_folder_id, outcomes, 0),
{
    lemma_drive_from_item(items, target_folder_id, outcomes, 0);
}

} // verus!
