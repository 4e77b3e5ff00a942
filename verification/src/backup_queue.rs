//! The in-memory backup queue: jobs in arrival order and a pause switch.
use vstd::prelude::*;
use std::collections::VecDeque;

verus! {

/// Where a backup job stands.
#[derive(Debug)]
pub enum BackupStatus {
    Pending,
    Uploading,
    Uploaded,
    Failed(String),
    Retry,
}

impl Clone for BackupStatus {
    fn clone(&self) -> (r: Self)
        ensures
            r == *self,
    {
        match self {
            BackupStatus::Pending => BackupStatus::Pending,
            BackupStatus::Uploading => BackupStatus::Uploading,
            BackupStatus::Uploaded => BackupStatus::Uploaded,
            BackupStatus::Failed(reason) => BackupStatus::Failed(reason.clone()),
            BackupStatus::Retry => BackupStatus::Retry,
        }
    }
}

/// One file to back up.
#[derive(Debug)]
pub struct BackupJob {
    pub id: String,
    pub path: String,
    pub uri: Option<String>,
    pub media_store_id: Option<String>,
    pub status: BackupStatus,
}

fn clone_optional_text(s: &Option<String>) -> (r: Option<String>)
    ensures
        r == *s,
{
    match s {
        Some(t) => Some(t.clone()),
        None => None,
    }
}

impl Clone for BackupJob {
    fn clone(&self) -> (r: Self)
        ensures
            r == *self,
    {
        BackupJob {
            id: self.id.clone(),
            path: self.path.clone(),
            uri: clone_optional_text(&self.uri),
            media_store_id: clone_optional_text(&self.media_store_id),
            status: self.status.clone(),
        }
    }
}

/// The queue of backup jobs and whether backing up is paused.
pub struct BackupQueueState {
    queue: VecDeque<BackupJob>,
    is_paused: bool,
}

/// `jobs` enqueued one after another onto a queue holding `queue`.
pub open spec fn enqueue_all(queue: Seq<BackupJob>, jobs: Seq<BackupJob>) -> Seq<BackupJob>
    decreases jobs.len(),
{
    if jobs.len() == 0 {
        queue
    } else {
        enqueue_all(queue, jobs.drop_last()).push(jobs.last())
    }
}

impl BackupQueueState {
    /// The jobs, oldest first.
    pub closed spec fn jobs(&self) -> Seq<BackupJob> {
        self.queue@
    }

    /// Whether backing up is paused.
    pub closed spec fn paused(&self) -> bool {
        self.is_paused
    }

    /// An empty, running queue.
    pub fn new() -> (r: Self)
        ensures
            r.jobs() == Seq::<BackupJob>::empty(),
            !r.paused(),
    {
        BackupQueueState { queue: VecDeque::new(), is_paused: false }
    }

    /// Adds a job at the back of the queue.
    pub fn enqueue(&mut self, job: BackupJob)
        ensures
            final(self).jobs() == old(self).jobs().push(job),
            final(self).paused() == old(self).paused(),
    {
        self.queue.push_back(job);
    }

    /// Copies of the jobs, oldest first.
    pub fn jobs_snapshot(&self) -> (r: Vec<BackupJob>)
        ensures
            r@ == self.jobs(),
    {
        let mut out: Vec<BackupJob> = Vec::new();
        let n = self.queue.len();
        for i in 0..n
            invariant
                n == self.queue@.len(),
                out@ == self.queue@.take(i as int),
        {
            let job = self.queue[i].clone();
            out.push(job);
            assert(out@ =~= self.queue@.take(i + 1));
        }
        assert(self.queue@.take(n as int) =~= self.queue@);
        out
    }

    /// Pauses backing up; the jobs stay as they are.
    pub fn pause(&mut self)
        ensures
            final(self).paused(),
            final(self).jobs() == old(self).jobs(),
    {
        self.is_paused = true;
    }

    /// Resumes backing up; the jobs stay as they are.
    pub fn resume(&mut self)
        ensures
            !final(self).paused(),
            final(self).jobs() == old(self).jobs(),
    {
        self.is_paused = false;
    }

    /// Whether backing up is paused.
    pub fn is_paused(&self) -> (r: bool)
        ensures
            r == self.paused(),
    {
        self.is_paused
    }
}

/// First in, first out: jobs enqueued one after another come out of a
/// snapshot after the jobs already there, in the order they were enqueued.
pub proof fn lemma_queue_is_first_in_first_out(queue: Seq<BackupJob>, jobs: Seq<BackupJob>)
    ensures
        enqueue_all(queue, jobs) == queue + jobs,
    decreases jobs.len(),
{
    if jobs.len() > 0 {
        lemma_queue_is_first_in_first_out(queue, jobs.drop_last());
        assert(queue + jobs =~= (queue + jobs.drop_last()).push(jobs.last()));
    } else {
        assert(queue + jobs =~= queue);
    }
}

} // verus!
