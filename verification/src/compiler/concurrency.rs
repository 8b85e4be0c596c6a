//! Working through a list with a bounded number of items in hand at once.
//!
//! A window slides over the list: an item is started only when fewer than `limit` are
//! in hand, and items are started in the order of the list. With a limit of one this
//! is the list worked through from front to back. Once a result asks for it, nothing
//! more is started; what is in hand is still finished.

use vstd::prelude::*;

use crate::order::{
    gathered, law_gathered_values_are_those_that_are_made, law_gathering_goes_value_by_value,
};

verus! {

/// How far a list has been worked through.
#[derive(Debug)]
pub struct Window {
    /// How many items there are.
    pub total: usize,
    /// How many may be in hand at once.
    pub limit: usize,
    /// How many were started: the items from the front.
    pub started: usize,
    /// How many of those were finished.
    pub finished: usize,
    /// Whether more may be started.
    pub dispatching: bool,
}

impl Window {
    /// Whether no more items are in hand than may be, and none was started that is not
    /// there.
    pub open spec fn wf(&self) -> bool {
        &&& 1 <= self.limit
        &&& self.finished <= self.started <= self.total
        &&& self.started - self.finished <= self.limit
    }

    /// How many items are in hand.
    pub open spec fn in_hand(&self) -> int {
        self.started - self.finished
    }

    /// Whether an item can be started now.
    pub open spec fn may_start(&self) -> bool {
        self.dispatching && self.started < self.total && self.in_hand() < self.limit
    }

    /// A window over `total` items. A limit of zero counts as one.
    pub fn new(total: usize, limit: usize) -> (r: Window)
        ensures
            r.wf(),
            r.total == total,
            r.limit == (if limit == 0 {
                1
            } else {
                limit
            }),
            r.started == 0,
            r.finished == 0,
            r.dispatching,
    {
        Window {
            total,
            limit: if limit == 0 {
                1
            } else {
                limit
            },
            started: 0,
            finished: 0,
            dispatching: true,
        }
    }

    /// The next item to start, if one can be started now.
    pub fn next(&mut self) -> (r: Option<usize>)
        requires
            old(self).wf(),
        ensures
            final(self).wf(),
            r == (if old(self).may_start() {
                Some(old(self).started)
            } else {
                None
            }),
            *final(self) == (Window {
                started: (if old(self).may_start() {
                    (old(self).started + 1) as usize
                } else {
                    old(self).started
                }),
                ..*old(self)
            }),
    {
        if self.dispatching && self.started < self.total && self.started - self.finished
            < self.limit {
            let i: usize = self.started;
            self.started = i + 1;
            Some(i)
        } else {
            None
        }
    }

    /// Takes note that an item in hand is finished. `go_on` is whether its result lets
    /// more be started; a refusal stands for good.
    pub fn complete(&mut self, go_on: bool)
        requires
            old(self).wf(),
            old(self).in_hand() > 0,
        ensures
            final(self).wf(),
            *final(self) == (Window {
                finished: (old(self).finished + 1) as usize,
                dispatching: old(self).dispatching && go_on,
                ..*old(self)
            }),
    {
        self.finished = self.finished + 1;
        self.dispatching = self.dispatching && go_on;
    }

    /// Whether nothing is in hand and nothing more will be started.
    pub fn is_done(&self) -> (r: bool)
        requires
            self.wf(),
        ensures
            r == (self.in_hand() == 0 && !self.may_start()),
    {
        self.started == self.finished && !(self.dispatching && self.started < self.total)
    }
}

/// The results that there are, in the order of the items.
pub open spec fn filled<R>(slots: Seq<Option<R>>) -> Seq<R>
    decreases slots.len(),
{
    if slots.len() == 0 {
        seq![]
    } else {
        match slots.last() {
            Some(r) => filled(slots.drop_last()).push(r),
            None => filled(slots.drop_last()),
        }
    }
}

/// The results that there are, in the order of the items. An item that was never
/// started has none.
pub fn in_input_order<R>(slots: Vec<Option<R>>) -> (r: Vec<R>)
    ensures
        r@ == filled(slots@),
{
    let ghost all = slots@;
    let mut out: Vec<R> = Vec::new();
    assert(out@ =~= filled(all.take(0)));
    for slot in it: slots
        invariant
            it.seq() == all,
            out@ == filled(all.take(it.index())),
    {
        proof {
            let now = all.take(it.index() + 1);
            assert(now.drop_last() =~= all.take(it.index()));
            assert(now.last() == slot);
        }
        match slot {
            Some(r) => {
                out.push(r);
            },
            None => {},
        }
    }
    assert(all.take(all.len() as int) =~= all);
    out
}

/// When nothing is in hand and nothing can be started, every item was started and
/// finished, unless a result asked to stop.
pub proof fn law_done_means_all_done_or_stopped(w: Window)
    requires
        w.wf(),
        w.in_hand() == 0,
        !w.may_start(),
    ensures
        !w.dispatching || (w.started == w.total && w.finished == w.total),
{
}

/// With a limit of one, an item is started only when all items before it are finished.
pub proof fn law_limit_one_is_sequential(w: Window)
    requires
        w.wf(),
        w.limit == 1,
        w.may_start(),
    ensures
        w.finished == w.started,
{
}

proof fn lemma_filled<R>(slots: Seq<Option<R>>)
    ensures
        filled(slots) == gathered(slots, |slot: Option<R>| slot),
    decreases slots.len(),
{
    if slots.len() > 0 {
        lemma_filled(slots.drop_last());
    }
}

/// No result is lost, doubled or moved: the results of two runs of items are those of the
/// one and then those of the other, and a result is there exactly if some item has it.
pub proof fn law_every_result_is_kept_in_its_place<R>(
    a: Seq<Option<R>>,
    b: Seq<Option<R>>,
    slot: Option<R>,
    result: R,
)
    ensures
        filled(a + b) == filled(a) + filled(b),
        filled(seq![slot]) == (match slot {
            Some(r) => seq![r],
            None => seq![],
        }),
        filled(a).contains(result) <==> a.contains(Some(result)),
{
    let f = |slot: Option<R>| slot;
    lemma_filled(a);
    lemma_filled(b);
    lemma_filled(a + b);
    lemma_filled(seq![slot]);
    law_gathering_goes_value_by_value(a, b, slot, f);
    law_gathered_values_are_those_that_are_made(a, f, result);
    if filled(a).contains(result) {
        let i = choose|i: int| 0 <= i < a.len() && f(#[trigger] a[i]) == Some(result);
        assert(a[i] == Some(result));
    }
    if a.contains(Some(result)) {
        let i = choose|i: int| 0 <= i < a.len() && a[i] == Some(result);
        assert(f(a[i]) == Some(result));
    }
}

/// An item is started whenever one is left, fewer are in hand than may be, and no result
/// asked to stop; then there is room for it.
pub proof fn law_work_goes_on_while_there_is_room(w: Window)
    requires
        w.wf(),
    ensures
        w.may_start() <==> w.dispatching && w.started < w.total && w.started - w.finished < w.limit,
        w.may_start() ==> (Window { started: (w.started + 1) as usize, ..w }).wf(),
        w.dispatching && w.finished == w.started && w.started < w.total ==> w.may_start(),
{
}

} // verus!
