//! Decisions for publishing: the order in which the statuses of a thread
//! go out, and what kind of medium an attachment is.

use crate::sync::NewStatus;
use vstd::prelude::*;
use vstd::string::*;

verus! {

/// The replies of a thread that wait to be posted, each with the id of the
/// status it answers. Replies go out in the order in which they came in,
/// so every status is posted before the replies to it.
pub struct ThreadQueue<'a> {
    waiting: Vec<WaitingReply<'a>>,
}

/// A reply that waits, with the id of the status it answers.
pub struct WaitingReply<'a> {
    pub parent_id: String,
    pub reply: &'a NewStatus,
}

/// The replies, each with the id of the status they answer.
pub open spec fn replies_to(replies: Seq<NewStatus>, parent_id: Seq<char>) -> Seq<
    (Seq<char>, NewStatus),
> {
    replies.map_values(|reply: NewStatus| (parent_id, reply))
}

impl<'a> View for ThreadQueue<'a> {
    type V = Seq<(Seq<char>, NewStatus)>;

    closed spec fn view(&self) -> Seq<(Seq<char>, NewStatus)> {
        self.waiting@.map_values(|entry: WaitingReply| (entry.parent_id@, *entry.reply))
    }
}

impl<'a> ThreadQueue<'a> {
    /// Appends the replies to `status`, which was posted under `status_id`.
    fn wait_for(&mut self, status: &'a NewStatus, status_id: &str)
        ensures
            final(self)@ == old(self)@ + replies_to(status.replies@, status_id@),
    {
        let ghost given = self@;
        let mut i: usize = 0;
        assert(self@ =~= given + replies_to(status.replies@.subrange(0, 0), status_id@));
        while i < status.replies.len()
            invariant
                i <= status.replies@.len(),
                self@ == given + replies_to(status.replies@.subrange(0, i as int), status_id@),
            decreases status.replies@.len() - i,
        {
            let ghost before = self@;
            let parent_id = String::from_str(status_id);
            self.waiting.push(WaitingReply { parent_id, reply: &status.replies[i] });
            proof {
                assert(self@ =~= before.push((status_id@, status.replies@[i as int])));
                assert(replies_to(status.replies@.subrange(0, i + 1), status_id@) =~= replies_to(
                    status.replies@.subrange(0, i as int),
                    status_id@,
                ).push((status_id@, status.replies@[i as int])));
            }
            i += 1;
        }
        assert(status.replies@.subrange(0, i as int) =~= status.replies@);
    }

    /// The queue for the thread under `status`, which was posted under
    /// `status_id`: its direct replies wait.
    pub fn start(status: &'a NewStatus, status_id: &str) -> (queue: ThreadQueue<'a>)
        ensures
            queue@ == replies_to(status.replies@, status_id@),
    {
        let mut queue = ThreadQueue { waiting: Vec::new() };
        assert(queue@ =~= Seq::empty());
        queue.wait_for(status, status_id);
        assert(Seq::<(Seq<char>, NewStatus)>::empty() + replies_to(status.replies@, status_id@)
            =~= replies_to(status.replies@, status_id@));
        queue
    }

    /// Whether no reply waits.
    pub fn is_empty(&self) -> (empty: bool)
        ensures
            empty == (self@.len() == 0),
    {
        self.waiting.len() == 0
    }

    /// Takes the reply that waits longest, with the id of the status it
    /// answers.
    pub fn next(&mut self) -> (first: Option<WaitingReply<'a>>)
        ensures
            old(self)@.len() == 0 ==> first is None && final(self)@ == old(self)@,
            old(self)@.len() > 0 ==> first is Some && (first->0.parent_id@, *first->0.reply) == old(
                self,
            )@[0] && final(self)@ == old(self)@.drop_first(),
    {
        if self.waiting.len() == 0 {
            None
        } else {
            let ghost before = self.waiting@;
            let entry = self.waiting.remove(0);
            proof {
                assert(self.waiting@ =~= before.drop_first());
                assert(self@ =~= old(self)@.drop_first());
            }
            Some(entry)
        }
    }

    /// Notes that `reply` was posted under `reply_id`: the replies to it
    /// wait behind those that wait already.
    pub fn posted(&mut self, reply: &'a NewStatus, reply_id: &str)
        ensures
            final(self)@ == old(self)@ + replies_to(reply.replies@, reply_id@),
    {
        self.wait_for(reply, reply_id);
    }
}

/// What kind of medium a content type names.
#[derive(Debug, Clone, Copy, PartialEq, Eq, Structural)]
pub enum MediaKind {
    Image,
    Video,
    Other,
}

/// Whether `text` starts with `prefix`.
pub open spec fn starts_with(text: Seq<char>, prefix: Seq<char>) -> bool {
    prefix.len() <= text.len() && text.subrange(0, prefix.len() as int) == prefix
}

/// The kind of medium that a content type names: an image where it starts
/// with `image/`, a video where it starts with `video/`.
pub open spec fn kind_of(content_type: Seq<char>) -> MediaKind {
    if starts_with(content_type, "image/"@) {
        MediaKind::Image
    } else if starts_with(content_type, "video/"@) {
        MediaKind::Video
    } else {
        MediaKind::Other
    }
}

/// Tells from its content type what kind of medium an attachment is.
pub fn media_kind(content_type: &str) -> (kind: MediaKind)
    ensures
        kind == kind_of(content_type@),
{
    proof {
        reveal_strlit("image/");
        reveal_strlit("video/");
    }
    if content_type.unicode_len() < 6 {
        return MediaKind::Other;
    }
    let head = String::from_str(content_type.substring_char(0, 6));
    if head == String::from_str("image/") {
        MediaKind::Image
    } else if head == String::from_str("video/") {
        MediaKind::Video
    } else {
        MediaKind::Other
    }
}

/// Whether the processing of an uploaded video has come to an end: the
/// video is there, or the job is reported as completed or as failed.
pub open spec fn job_has_ended(has_blob: bool, state: Seq<char>) -> bool {
    has_blob || state == "JOB_STATE_COMPLETED"@ || state == "JOB_STATE_FAILED"@
}

/// Decides whether to stop asking for the state of a video job.
pub fn video_job_is_done(has_blob: bool, state: &str) -> (done: bool)
    ensures
        done == job_has_ended(has_blob, state@),
{
    if has_blob {
        return true;
    }
    let state = String::from_str(state);
    state == String::from_str("JOB_STATE_COMPLETED") || state == String::from_str(
        "JOB_STATE_FAILED",
    )
}

} // verus!
