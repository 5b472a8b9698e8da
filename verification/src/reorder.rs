//! Assigns caption frame indices in display (PTS) order while packets leave
//! in decode order.
//!
//! With B-frames, the k-th caption must go on the k-th frame *displayed*; a
//! frame's display rank is known once `depth` later frames have arrived, so
//! video is held for `depth` frames (0 = no delay).
use std::collections::VecDeque;
use vstd::prelude::*;

use crate::counter::{count, counted};

verus! {

/// What is known of a packet besides its bytes.
#[derive(Clone, Copy, Debug)]
pub struct Meta {
    pub session: u32,
    /// The caption frame, once assigned.
    pub frame: Option<u64>,
    pub in_pts: i64,
    pub read_ns: u64,
}

/// A packet that waits for its caption frame, or for packets before it.
pub struct Held<T> {
    pub pts: i64,
    pub item: T,
    pub meta: Meta,
}

/// The packet has no caption frame yet.
pub open spec fn waiting<T>(h: Held<T>) -> bool {
    h.meta.frame is None
}

/// How many packets have no caption frame yet.
pub open spec fn unassigned<T>(queue: Seq<Held<T>>) -> nat
    decreases queue.len(),
{
    if queue.len() == 0 {
        0
    } else {
        unassigned(queue.drop_last()) + (if waiting(queue.last()) {
            1nat
        } else {
            0
        })
    }
}

/// The packet displayed first of those without a caption frame; of equal PTS the
/// one that came first.
pub open spec fn first_displayed<T>(queue: Seq<Held<T>>) -> Option<int>
    decreases queue.len(),
{
    if queue.len() == 0 {
        None
    } else {
        let head = first_displayed(queue.drop_last());
        if waiting(queue.last()) && (head matches Some(i) ==> queue.last().pts < queue[i].pts) {
            Some(queue.len() - 1)
        } else {
            head
        }
    }
}

/// A packet with its caption frame.
pub open spec fn captioned<T>(h: Held<T>, frame: u64) -> Held<T> {
    Held { meta: Meta { frame: Some(frame), ..h.meta }, ..h }
}

/// The queue once packets were given caption frames from `next` on, in display
/// order, until no more than `depth` wait; and the frame that comes next.
pub open spec fn assigned<T>(queue: Seq<Held<T>>, next: u64, depth: nat, fuel: nat) -> (
    Seq<Held<T>>,
    u64,
)
    decreases fuel,
{
    if fuel == 0 || unassigned(queue) <= depth {
        (queue, next)
    } else {
        match first_displayed(queue) {
            Some(i) => assigned(
                queue.update(i, captioned(queue[i], next)),
                counted(next, 1),
                depth,
                (fuel - 1) as nat,
            ),
            None => (queue, next),
        }
    }
}

/// How many packets at the front have their caption frame.
pub open spec fn ready<T>(queue: Seq<Held<T>>) -> int
    decreases queue.len(),
{
    if queue.len() == 0 || waiting(queue[0]) {
        0
    } else {
        1 + ready(queue.drop_first())
    }
}

/// The packets and what is known of them.
pub open spec fn released<T>(queue: Seq<Held<T>>) -> Seq<(T, Meta)> {
    queue.map_values(|h: Held<T>| (h.item, h.meta))
}

proof fn lemma_first_displayed<T>(queue: Seq<Held<T>>)
    ensures
        first_displayed(queue) is Some <==> unassigned(queue) > 0,
        first_displayed(queue) is None ==> forall|j: int|
            0 <= j < queue.len() ==> !waiting(#[trigger] queue[j]),
        first_displayed(queue) matches Some(i) ==> {
            &&& 0 <= i < queue.len()
            &&& waiting(queue[i])
            &&& forall|j: int|
                0 <= j < queue.len() && waiting(#[trigger] queue[j]) ==> queue[i].pts
                    < queue[j].pts || (queue[i].pts == queue[j].pts && i <= j)
        },
    decreases queue.len(),
{
    if queue.len() > 0 {
        let init = queue.drop_last();
        lemma_first_displayed(init);
        let n = queue.len() - 1;
        if let Some(i) = first_displayed(queue) {
            assert(i < n ==> queue[i] == init[i]);
            assert forall|j: int|
                0 <= j < queue.len() && waiting(#[trigger] queue[j]) implies queue[i].pts
                < queue[j].pts || (queue[i].pts == queue[j].pts && i <= j) by {
                if j < n {
                    assert(queue[j] == init[j]);
                }
            }
        } else {
            assert forall|j: int| 0 <= j < queue.len() implies !waiting(#[trigger] queue[j]) by {
                if j < n {
                    assert(queue[j] == init[j]);
                }
            }
        }
    }
}

proof fn lemma_unassigned_update<T>(queue: Seq<Held<T>>, i: int, frame: u64)
    requires
        0 <= i < queue.len(),
        waiting(queue[i]),
    ensures
        unassigned(queue.update(i, captioned(queue[i], frame))) == unassigned(queue) - 1,
    decreases queue.len(),
{
    let done = queue.update(i, captioned(queue[i], frame));
    if i == queue.len() - 1 {
        assert(done.drop_last() =~= queue.drop_last());
    } else {
        let init = queue.drop_last();
        lemma_unassigned_update(init, i, frame);
        assert(done.drop_last() =~= init.update(i, captioned(init[i], frame)));
    }
}

proof fn lemma_unassigned_bound<T>(queue: Seq<Held<T>>)
    ensures
        unassigned(queue) <= queue.len(),
    decreases queue.len(),
{
    if queue.len() > 0 {
        lemma_unassigned_bound(queue.drop_last());
    }
}

proof fn lemma_assigned_down_to<T>(queue: Seq<Held<T>>, next: u64, depth: nat, fuel: nat)
    requires
        unassigned(queue) <= fuel,
    ensures
        unassigned(assigned(queue, next, depth, fuel).0) <= depth,
        assigned(queue, next, depth, fuel).0.len() == queue.len(),
    decreases fuel,
{
    if unassigned(queue) > depth {
        lemma_first_displayed(queue);
        if let Some(i) = first_displayed(queue) {
            lemma_unassigned_update(queue, i, next);
            lemma_assigned_down_to(
                queue.update(i, captioned(queue[i], next)),
                counted(next, 1),
                depth,
                (fuel - 1) as nat,
            );
        }
    }
}

proof fn lemma_all_ready<T>(queue: Seq<Held<T>>)
    requires
        forall|j: int| 0 <= j < queue.len() ==> !waiting(#[trigger] queue[j]),
    ensures
        ready(queue) == queue.len(),
    decreases queue.len(),
{
    if queue.len() > 0 {
        let rest = queue.drop_first();
        assert forall|j: int| 0 <= j < rest.len() implies !waiting(#[trigger] rest[j]) by {
            assert(rest[j] == queue[j + 1]);
        }
        assert(!waiting(queue[0]));
        lemma_all_ready(rest);
    }
}

/// Flushing releases every packet held; pushing leaves at most `depth` of them
/// without a caption frame.
pub proof fn law_flush_releases_everything<T>(queue: Seq<Held<T>>, next: u64, depth: nat)
    ensures
        ready(assigned(queue, next, 0, queue.len()).0) == queue.len(),
        unassigned(assigned(queue, next, depth, queue.len()).0) <= depth,
{
    lemma_unassigned_bound(queue);
    lemma_assigned_down_to(queue, next, 0, queue.len());
    lemma_assigned_down_to(queue, next, depth, queue.len());
    let after = assigned(queue, next, 0, queue.len()).0;
    lemma_first_displayed(after);
    lemma_all_ready(after);
}

/// Frames are given in display order: of two packets that waited before and have
/// their frames after, the one displayed first has the lower frame, and a packet
/// that still waits is displayed after all that got theirs.
pub proof fn law_captions_follow_display_order<T>(queue: Seq<Held<T>>, next: u64, depth: nat)
    requires
        next + queue.len() <= u64::MAX,
    ensures
        ({
            let after = assigned(queue, next, depth, queue.len()).0;
            &&& after.len() == queue.len()
            &&& forall|i: int, j: int|
                #![trigger after[i], after[j]]
                0 <= i < queue.len() && 0 <= j < queue.len() && waiting(queue[i]) && waiting(
                    queue[j],
                ) && (queue[i].pts < queue[j].pts || (queue[i].pts == queue[j].pts && i < j)) ==> {
                    &&& !waiting(after[j]) ==> !waiting(after[i])
                    &&& !waiting(after[j]) ==> after[i].meta.frame->0 < after[j].meta.frame->0
                }
            &&& forall|i: int|
                #![trigger after[i]]
                0 <= i < queue.len() && !waiting(queue[i]) ==> after[i] == queue[i]
        }),
{
    lemma_unassigned_bound(queue);
    lemma_display_order(queue, next, depth, queue.len());
}

proof fn lemma_display_order<T>(queue: Seq<Held<T>>, next: u64, depth: nat, fuel: nat)
    requires
        next + fuel <= u64::MAX,
    ensures
        ({
            let after = assigned(queue, next, depth, fuel).0;
            &&& after.len() == queue.len()
            &&& forall|i: int|
                #![trigger after[i]]
                0 <= i < queue.len() ==> {
                    &&& !waiting(queue[i]) ==> after[i] == queue[i]
                    &&& after[i].pts == queue[i].pts
                    &&& waiting(queue[i]) && !waiting(after[i]) ==> after[i].meta.frame->0 >= next
                }
            &&& forall|i: int, j: int|
                #![trigger after[i], after[j]]
                0 <= i < queue.len() && 0 <= j < queue.len() && waiting(queue[i]) && waiting(
                    queue[j],
                ) && (queue[i].pts < queue[j].pts || (queue[i].pts == queue[j].pts && i < j)) ==> {
                    &&& !waiting(after[j]) ==> !waiting(after[i])
                    &&& !waiting(after[j]) ==> after[i].meta.frame->0 < after[j].meta.frame->0
                }
        }),
    decreases fuel,
{
    if fuel == 0 || unassigned(queue) <= depth {
    } else {
        lemma_first_displayed(queue);
        if let Some(m) = first_displayed(queue) {
            let mid = queue.update(m, captioned(queue[m], next));
            lemma_display_order(mid, counted(next, 1), depth, (fuel - 1) as nat);
            let after = assigned(queue, next, depth, fuel).0;
            assert(after == assigned(mid, counted(next, 1), depth, (fuel - 1) as nat).0);
            assert(after[m] == mid[m]);
            assert forall|i: int, j: int|
                #![trigger after[i], after[j]]
                0 <= i < queue.len() && 0 <= j < queue.len() && waiting(queue[i]) && waiting(
                    queue[j],
                ) && (queue[i].pts < queue[j].pts || (queue[i].pts == queue[j].pts && i
                    < j)) implies {
                &&& !waiting(after[j]) ==> !waiting(after[i])
                &&& !waiting(after[j]) ==> after[i].meta.frame->0 < after[j].meta.frame->0
            } by {
                if i == m {
                    assert(mid[j] == queue[j]);
                } else if j == m {
                    assert(queue[m].pts < queue[i].pts || (queue[m].pts == queue[i].pts && m
                        <= i));
                } else {
                    assert(mid[i] == queue[i]);
                    assert(mid[j] == queue[j]);
                }
            }
        }
    }
}

/// Holds packets until their caption frames are known.
pub struct Reorder<T> {
    depth: usize,
    queue: VecDeque<Held<T>>,
}

impl<T> Reorder<T> {
    /// The packets held, oldest first.
    pub closed spec fn held(&self) -> Seq<Held<T>> {
        self.queue@
    }

    /// How many packets may wait.
    pub closed spec fn depth(&self) -> nat {
        self.depth as nat
    }

    pub fn new(depth: usize) -> (r: Self)
        ensures
            r.held() == Seq::<Held<T>>::empty(),
            r.depth() == depth,
    {
        Reorder { depth, queue: VecDeque::new() }
    }

    /// Takes a packet in and returns those whose caption frames are known, in the
    /// order in which they came in.
    pub fn push(&mut self, pkt: T, pts: i64, meta: Meta, next_caption: &mut u64) -> (r: Vec<
        (T, Meta),
    >)
        requires
            meta.frame is None,
        ensures
            ({
                let queue = old(self).held().push(Held { pts, item: pkt, meta });
                let after = assigned(queue, *old(next_caption), old(self).depth(), queue.len());
                let n = ready(after.0);
                &&& *final(next_caption) == after.1
                &&& final(self).depth() == old(self).depth()
                &&& final(self).held() == after.0.skip(n)
                &&& r@ == released(after.0.take(n))
            }),
    {
        self.queue.push_back(Held { pts, item: pkt, meta });
        let depth: usize = self.depth;
        self.assign(depth, next_caption);
        self.drain_ready()
    }

    /// Gives every packet held its caption frame and returns them all.
    pub fn flush(&mut self, next_caption: &mut u64) -> (r: Vec<(T, Meta)>)
        ensures
            ({
                let queue = old(self).held();
                let after = assigned(queue, *old(next_caption), 0, queue.len());
                let n = ready(after.0);
                &&& *final(next_caption) == after.1
                &&& final(self).depth() == old(self).depth()
                &&& final(self).held() == after.0.skip(n)
                &&& r@ == released(after.0.take(n))
            }),
    {
        self.assign(0, next_caption);
        self.drain_ready()
    }

    /// Gives caption frames in display order until no more than `depth` packets
    /// wait.
    fn assign(&mut self, depth: usize, next_caption: &mut u64)
        ensures
            ({
                let queue = old(self).held();
                let after = assigned(queue, *old(next_caption), depth as nat, queue.len());
                &&& *final(next_caption) == after.1
                &&& final(self).depth() == old(self).depth()
                &&& final(self).held() == after.0
            }),
    {
        let ghost all = self.queue@;
        let ghost target = assigned(all, *next_caption, depth as nat, all.len());
        let ghost mut fuel: nat = all.len();
        proof {
            lemma_unassigned_bound(all);
        }
        loop
            invariant
                self.depth() == old(self).depth(),
                unassigned(self.queue@) <= fuel,
                target == assigned(self.queue@, *next_caption, depth as nat, fuel),
            ensures
                self.depth() == old(self).depth(),
                target == (self.queue@, *next_caption),
            decreases fuel,
        {
            let ghost here = self.queue@;
            let mut n: usize = 0;
            let mut first: usize = 0;
            let mut i: usize = 0;
            while i < self.queue.len()
                invariant
                    i <= self.queue@.len(),
                    self.queue@ == here,
                    n <= i,
                    n == unassigned(here.take(i as int)),
                    n > 0 ==> first < i && first_displayed(here.take(i as int)) == Some(
                        first as int,
                    ),
                    n == 0 ==> first_displayed(here.take(i as int)) is None,
                decreases self.queue@.len() - i,
            {
                assert(here.take(i + 1).drop_last() =~= here.take(i as int));
                assert(here.take(i + 1).last() == here[i as int]);
                if self.queue[i].meta.frame.is_none() {
                    if n == 0 || self.queue[i].pts < self.queue[first].pts {
                        first = i;
                    }
                    n = n + 1;
                }
                i = i + 1;
            }
            assert(here.take(i as int) =~= here);
            if n <= depth {
                break;
            }
            proof {
                lemma_first_displayed(here);
                lemma_unassigned_update(here, first as int, *next_caption);
            }
            if let Some(mut h) = self.queue.remove(first) {
                h.meta.frame = Some(*next_caption);
                assert(h == captioned(here[first as int], *next_caption));
                self.queue.insert(first, h);
                assert(self.queue@ =~= here.update(first as int, h));
            }
            *next_caption = count(*next_caption, 1);
            proof {
                fuel = (fuel - 1) as nat;
            }
        }
    }

    fn drain_ready(&mut self) -> (r: Vec<(T, Meta)>)
        ensures
            ({
                let queue = old(self).held();
                let n = ready(queue);
                &&& final(self).depth() == old(self).depth()
                &&& final(self).held() == queue.skip(n)
                &&& r@ == released(queue.take(n))
            }),
    {
        let ghost all = self.queue@;
        let ghost mut n: int = 0;
        let mut out: Vec<(T, Meta)> = Vec::new();
        assert(all.skip(0) =~= all);
        assert(released(all.take(0)) =~= seq![]);
        while self.queue.len() > 0 && self.queue[0].meta.frame.is_some()
            invariant
                0 <= n <= all.len(),
                self.depth() == old(self).depth(),
                self.queue@ == all.skip(n),
                ready(all) == n + ready(all.skip(n)),
                out@ == released(all.take(n)),
            decreases self.queue@.len(),
        {
            let ghost here = self.queue@;
            if let Some(h) = self.queue.pop_front() {
                assert(here.drop_first() =~= all.skip(n + 1));
                assert(h == all[n]);
                out.push((h.item, h.meta));
                assert(released(all.take(n + 1)) =~= released(all.take(n)).push((h.item, h.meta)));
                proof {
                    n = n + 1;
                }
            }
        }
        assert(ready(all) == n);
        out
    }
}

} // verus!
