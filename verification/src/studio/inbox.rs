//! The worker's replies on their way to those who wait for them.
//!
//! A reply that arrives while another one is waited for is kept and handed out later,
//! in the order of arrival: none is lost.
use crate::studio::lang::Response;
use vstd::prelude::*;

verus! {

/// The number of the next request, and the replies that have arrived for someone else.
#[derive(Debug)]
pub struct Inbox {
    next_id: u64,
    kept: Vec<Response>,
}

/// An inbox in mathematical terms.
pub struct InboxView {
    pub next_id: u64,
    pub kept: Seq<Response>,
}

impl View for Inbox {
    type V = InboxView;

    closed spec fn view(&self) -> InboxView {
        InboxView { next_id: self.next_id, kept: self.kept@ }
    }
}

/// The inbox after a request was numbered. Numbers begin anew behind the last one.
pub open spec fn numbered(v: InboxView) -> InboxView {
    InboxView { next_id: v.next_id.wrapping_add(1), ..v }
}

/// The reply that is handed out next, and the inbox after it.
pub open spec fn next_kept(v: InboxView) -> (Option<Response>, InboxView) {
    if v.kept.len() == 0 {
        (None, v)
    } else {
        (Some(v.kept[0]), InboxView { kept: v.kept.skip(1), ..v })
    }
}

/// What becomes of a reply that arrives while the reply to `waited` is waited for: it
/// is that reply, or it is kept.
pub open spec fn arrival(v: InboxView, waited: u64, reply: Response) -> (Option<Response>, InboxView) {
    if reply@.0 == waited {
        (Some(reply), v)
    } else {
        (None, InboxView { kept: v.kept.push(reply), ..v })
    }
}

/// The inbox after replies to other requests than `waited` arrived.
pub open spec fn after_others(v: InboxView, waited: u64, replies: Seq<Response>) -> InboxView
    decreases replies.len(),
{
    if replies.len() == 0 {
        v
    } else {
        arrival(after_others(v, waited, replies.drop_last()), waited, replies.last()).1
    }
}

impl Inbox {
    /// An inbox without replies; the first request is number 1.
    pub fn new() -> (r: Inbox)
        ensures
            r@ == (InboxView { next_id: 1, kept: Seq::empty() }),
    {
        let r = Inbox { next_id: 1, kept: Vec::new() };
        assert(r@.kept =~= Seq::empty());
        r
    }

    /// The number of a new request.
    pub fn next_number(&mut self) -> (r: u64)
        ensures
            r == old(self)@.next_id,
            final(self)@ == numbered(old(self)@),
    {
        let id: u64 = self.next_id;
        self.next_id = id.wrapping_add(1);
        id
    }

    /// The kept reply that arrived first, if there is one.
    pub fn take(&mut self) -> (r: Option<Response>)
        ensures
            (r, final(self)@) == next_kept(old(self)@),
    {
        let ghost before = self.kept@;
        if self.kept.len() == 0 {
            None
        } else {
            let r = self.kept.remove(0);
            assert(self.kept@ =~= before.skip(1));
            Some(r)
        }
    }

    /// A reply that arrives while the reply to `waited` is waited for: handed out if
    /// it is that one, kept if it is not.
    pub fn receive(&mut self, waited: u64, reply: Response) -> (r: Option<Response>)
        ensures
            (r, final(self)@) == arrival(old(self)@, waited, reply),
    {
        if reply.id() == waited {
            Some(reply)
        } else {
            self.kept.push(reply);
            None
        }
    }
}

/// No reply is lost: what arrives while another reply is waited for is kept behind
/// what was kept before, in the order of arrival.
pub proof fn law_no_reply_is_lost(v: InboxView, waited: u64, replies: Seq<Response>)
    requires
        forall|i: int| 0 <= i < replies.len() ==> (#[trigger] replies[i])@.0 != waited,
    ensures
        after_others(v, waited, replies) == (InboxView { kept: v.kept + replies, ..v }),
    decreases replies.len(),
{
    if replies.len() == 0 {
        assert(v.kept + replies =~= v.kept);
    } else {
        let before = replies.drop_last();
        assert forall|i: int| 0 <= i < before.len() implies (#[trigger] before[i])@.0 != waited by {
            assert(before[i] == replies[i]);
        }
        law_no_reply_is_lost(v, waited, before);
        assert(replies[replies.len() - 1] == replies.last());
        assert((v.kept + before).push(replies.last()) =~= v.kept + replies);
    }
}

/// Kept replies are handed out in the order of arrival.
pub proof fn law_kept_replies_come_in_order(v: InboxView, reply: Response)
    requires
        v.kept.len() > 0,
    ensures
        next_kept(InboxView { kept: v.kept.push(reply), ..v }) == (
            next_kept(v).0,
            (InboxView { kept: next_kept(v).1.kept.push(reply), ..v }),
        ),
{
    assert(v.kept.push(reply).skip(1) =~= v.kept.skip(1).push(reply));
}

/// Two requests in a row have different numbers.
pub proof fn law_numbers_differ(v: InboxView)
    ensures
        numbered(v).next_id != v.next_id,
{
}

} // verus!
