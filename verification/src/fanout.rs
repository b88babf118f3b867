//! Broadcast fanout: a one-to-many distribution primitive. Every published
//! frame is delivered to every subscriber, each subscriber reading at its
//! own pace through its own cursor. The buffer is bounded: a subscriber
//! that falls more than the capacity behind loses the oldest frames it has
//! not read — only for itself — and observes how many it missed, so a
//! stalled reader never blocks a publisher and never grows memory without
//! bound.

use vstd::prelude::*;

verus! {

/// The distribution state: the retained tail of the published stream.
///
/// `dropped` frames have been discarded from the front of the stream; the
/// buffer holds the rest, never more than `cap`. A frame's position in the
/// whole published stream (its publish index) is `dropped + ` its buffer
/// position.
pub struct Fanout {
    buf: Vec<Vec<u8>>,
    dropped: usize,
    cap: usize,
    hist: Ghost<Seq<Seq<u8>>>,
}

/// One subscriber's read handle: the publish index of the next frame it
/// has yet to observe.
pub struct Subscriber {
    pub next: usize,
}

/// What one attempt to read yields: the next frame, a count of frames
/// lost to lag, or nothing new yet.
pub enum RecvOutcome {
    Frame(Vec<u8>),
    Lagged(usize),
    Empty,
}

impl Fanout {
    /// Every frame ever published, in publish order.
    pub closed spec fn history(self) -> Seq<Seq<u8>> {
        self.hist@
    }

    /// How many of the oldest frames are no longer retained.
    pub closed spec fn spec_dropped(self) -> int {
        self.dropped as int
    }

    /// The bound on retained frames.
    pub closed spec fn spec_cap(self) -> int {
        self.cap as int
    }

    /// The buffer is the retained suffix of the history, at most `cap` long.
    pub closed spec fn wf(self) -> bool {
        &&& self.cap >= 1
        &&& self.buf@.len() <= self.cap
        &&& self.hist@.len() <= usize::MAX
        &&& self.hist@.len() == self.dropped + self.buf@.len()
        &&& forall|i: int|
            0 <= i < self.buf@.len() ==> self.buf@[i]@ == self.hist@[self.dropped + i]
    }

    /// A fanout with capacity `cap` and nothing published yet.
    pub fn new(cap: usize) -> (r: Fanout)
        requires
            cap >= 1,
        ensures
            r.wf(),
            r.history() =~= Seq::<Seq<u8>>::empty(),
            r.spec_dropped() == 0,
            r.spec_cap() == cap,
    {
        Fanout { buf: Vec::new(), dropped: 0, cap, hist: Ghost(Seq::empty()) }
    }

    /// A new read handle that will observe every frame published after
    /// this call, and nothing published before it.
    pub fn subscribe(&self) -> (r: Subscriber)
        requires
            self.wf(),
        ensures
            r.next == self.history().len(),
    {
        Subscriber { next: self.dropped + self.buf.len() }
    }

    /// Publishes a frame: appended to the stream for every current and
    /// future reader; if the buffer is full the oldest retained frame is
    /// discarded. Never blocks and never fails.
    pub fn publish(&mut self, frame: Vec<u8>)
        requires
            old(self).wf(),
            old(self).history().len() < usize::MAX,
        ensures
            final(self).wf(),
            final(self).history() =~= old(self).history().push(frame@),
            final(self).spec_cap() == old(self).spec_cap(),
            final(self).spec_dropped() == (if old(self).history().len() - old(self).spec_dropped()
                == old(self).spec_cap() {
                old(self).spec_dropped() + 1
            } else {
                old(self).spec_dropped()
            }),
    {
        if self.buf.len() == self.cap {
            self.buf.remove(0);
            self.dropped = self.dropped + 1;
        }
        let ghost f = frame@;
        self.buf.push(frame);
        proof {
            self.hist@ = self.hist@.push(f);
        }
    }

    /// Reads the next frame for `sub`. A reader inside the retained window
    /// gets exactly the frame at its cursor, in publish order; one that has
    /// fallen behind the window is told how many frames it lost and is
    /// moved to the oldest retained frame; one that has read everything
    /// gets nothing.
    pub fn recv(&self, sub: &mut Subscriber) -> (r: RecvOutcome)
        requires
            self.wf(),
            old(sub).next <= self.history().len(),
        ensures
            final(sub).next <= self.history().len(),
            match r {
                RecvOutcome::Frame(f) => {
                    &&& old(sub).next >= self.spec_dropped()
                    &&& old(sub).next < self.history().len()
                    &&& f@ == self.history()[old(sub).next as int]
                    &&& final(sub).next == old(sub).next + 1
                },
                RecvOutcome::Lagged(n) => {
                    &&& old(sub).next < self.spec_dropped()
                    &&& n == self.spec_dropped() - old(sub).next
                    &&& final(sub).next == self.spec_dropped()
                },
                RecvOutcome::Empty => {
                    &&& old(sub).next == self.history().len()
                    &&& *final(sub) == *old(sub)
                },
            },
    {
        if sub.next < self.dropped {
            let missed = self.dropped - sub.next;
            sub.next = self.dropped;
            RecvOutcome::Lagged(missed)
        } else if sub.next < self.dropped + self.buf.len() {
            let frame = self.buf[sub.next - self.dropped].clone();
            proof {
                assert(frame@ =~= self.buf@[old(sub).next - self.dropped]@);
            }
            sub.next = sub.next + 1;
            RecvOutcome::Frame(frame)
        } else {
            RecvOutcome::Empty
        }
    }
}

/// Every frame reaches every subscriber that was active when it was
/// published, unless the subscriber lags: a publish evicts at most one
/// frame, and only when the buffer stands at capacity, so a cursor that
/// was within the retained window — or at the stream's end — before the
/// publish is still within the window after it. By `recv`'s contract such
/// a cursor is then handed exactly the frame at its position, in publish
/// order, one frame per read with no gap; only a cursor that has fallen
/// behind the window loses frames, and only its own unread oldest ones.
pub proof fn lemma_active_subscriber_keeps_window(pre: Fanout, post: Fanout, fr: Seq<u8>, c: int)
    requires
        pre.wf(),
        post.wf(),
        post.history() == pre.history().push(fr),
        post.spec_dropped() == (if pre.history().len() - pre.spec_dropped() == pre.spec_cap() {
            pre.spec_dropped() + 1
        } else {
            pre.spec_dropped()
        }),
        post.spec_cap() == pre.spec_cap(),
        pre.spec_dropped() <= c <= pre.history().len(),
    ensures
        pre.spec_dropped() < c ==> post.spec_dropped() <= c,
        c < pre.history().len() ==> post.history()[c] == pre.history()[c],
        c == pre.history().len() ==> post.spec_dropped() <= c && post.history()[c] == fr,
{
}

} // verus!
