//! Grouping edit records into hunks with context, and rendering hunks as
//! unified-diff text.
use vstd::prelude::*;
use std::collections::VecDeque;
use crate::conf::{Conf, ContextLineFormat, ContextLineTokenization};
use crate::edit::{
    advances_new, advances_old, backfill, backfill_indices, has_change, is_script, lcs, lcs_of,
    new_count, old_count, rec_new_count, rec_old_count, lemma_counts_prefix, exist_differences, placed_at,
    seqs_view, DiffRecord, Edit, EditKind,
};
use crate::wdiff::{
    atom_ok, atoms_ok, cc_spec, char_atoms, dec, intra_line_write_cc,
    intra_line_write_wdiff, split_final_newline, tokenize, wdiff_spec, word_split, write_bytes,
    write_decimal, atom_of, concat, group_side, kinds_alternate, lemma_wdiff_groups, render_groups, side_of,
    wdiff_groups,
};
use crate::edit::commons_pair_equal;

verus! {

/// Smallest old index among the edits.
pub open spec fn min_old(e: Seq<Edit>) -> nat
    recommends
        e.len() > 0,
    decreases e.len(),
{
    if e.len() <= 1 {
        e[0].old_index as nat
    } else {
        let m = min_old(e.drop_last());
        if (e.last().old_index as nat) < m { e.last().old_index as nat } else { m }
    }
}

/// Smallest new index among the edits.
pub open spec fn min_new(e: Seq<Edit>) -> nat
    recommends
        e.len() > 0,
    decreases e.len(),
{
    if e.len() <= 1 {
        e[0].new_index as nat
    } else {
        let m = min_new(e.drop_last());
        if (e.last().new_index as nat) < m { e.last().new_index as nat } else { m }
    }
}

/// No side counts more records than there are.
pub proof fn lemma_counts_bounded(e: Seq<Edit>)
    ensures
        old_count(e) <= e.len(),
        new_count(e) <= e.len(),
    decreases e.len(),
{
    if e.len() > 0 {
        lemma_counts_bounded(e.drop_last());
    }
}

/// A contiguous group of edit records, with the header data of a unified-diff hunk.
pub struct Hunk {
    pub old_start: usize,
    pub old_len: usize,
    pub new_start: usize,
    pub new_len: usize,
    pub items: Vec<Edit>,
}

impl Hunk {
    /// The lengths count the records that advance each side, and the starts
    /// are the smallest index on each side.
    pub open spec fn wf(&self) -> bool {
        &&& self.old_len == old_count(self.items@)
        &&& self.new_len == new_count(self.items@)
        &&& self.items@.len() > 0 ==> self.old_start == min_old(self.items@)
        &&& self.items@.len() > 0 ==> self.new_start == min_new(self.items@)
    }

    /// An empty hunk that starts at the record's coordinates.
    pub fn from_diff(d: &Edit) -> (r: Hunk)
        ensures
            r.wf(),
            r.items@.len() == 0,
            r.old_start == d.old_index,
            r.new_start == d.new_index,
    {
        Hunk { old_start: d.old_index, old_len: 0, new_start: d.new_index, new_len: 0, items: Vec::new() }
    }

    /// Appends one record, keeping the lengths and starts in step with the items.
    pub fn append(&mut self, d: Edit)
        requires
            old(self).wf(),
            old(self).items@.len() < usize::MAX,
            old(self).items@.len() == 0 ==> old(self).old_start == d.old_index
                && old(self).new_start == d.new_index,
        ensures
            final(self).wf(),
            final(self).items@ == old(self).items@.push(d),
            final(self).old_len == old(self).old_len + if advances_old(d.kind) { 1int } else { 0int },
            final(self).new_len == old(self).new_len + if advances_new(d.kind) { 1int } else { 0int },
            final(self).old_start == if d.old_index < old(self).old_start { d.old_index } else { old(self).old_start },
            final(self).new_start == if d.new_index < old(self).new_start { d.new_index } else { old(self).new_start },
    {
        proof {
            lemma_counts_bounded(self.items@);
        }
        match d.kind {
            EditKind::Common => {
                self.old_len = self.old_len + 1;
                self.new_len = self.new_len + 1;
            },
            EditKind::Removed => {
                self.old_len = self.old_len + 1;
            },
            EditKind::Added => {
                self.new_len = self.new_len + 1;
            },
        }
        if d.old_index < self.old_start {
            self.old_start = d.old_index;
        }
        if d.new_index < self.new_start {
            self.new_start = d.new_index;
        }
        let ghost before = self.items@;
        self.items.push(d);
        assert(self.items@.drop_last() =~= before);
    }
}

/// The records of a hunk that may be absent.
pub open spec fn opt_items(h: Option<Hunk>) -> Seq<Edit> {
    match h {
        None => Seq::empty(),
        Some(h) => h.items@,
    }
}

/// A present hunk is well formed and not empty.
pub open spec fn opt_wf(h: Option<Hunk>) -> bool {
    match h {
        None => true,
        Some(h) => h.wf() && h.items@.len() > 0,
    }
}

/// Appends a record, opening the hunk at that record if there was none.
fn append(hunk: &mut Option<Hunk>, d: Edit)
    requires
        opt_wf(*old(hunk)),
        opt_items(*old(hunk)).len() < usize::MAX,
    ensures
        opt_wf(*final(hunk)),
        opt_items(*final(hunk)) == opt_items(*old(hunk)).push(d),
{
    let mut h = match hunk.take() {
        None => Hunk::from_diff(&d),
        Some(h) => h,
    };
    h.append(d);
    *hunk = Some(h);
}

/// Appends the records in order.
fn consume(hunk: &mut Option<Hunk>, ds: Vec<Edit>)
    requires
        opt_wf(*old(hunk)),
        opt_items(*old(hunk)).len() + ds@.len() <= usize::MAX,
    ensures
        opt_wf(*final(hunk)),
        opt_items(*final(hunk)) == opt_items(*old(hunk)) + ds@,
{
    let ghost start = opt_items(*hunk);
    let mut i: usize = 0;
    while i < ds.len()
        invariant
            0 <= i <= ds@.len(),
            start.len() + ds@.len() <= usize::MAX,
            opt_wf(*hunk),
            opt_items(*hunk) =~= start + ds@.take(i as int),
        decreases ds@.len() - i,
    {
        append(hunk, ds[i]);
        assert(ds@.take(i as int + 1) =~= ds@.take(i as int).push(ds@[i as int]));
        i = i + 1;
    }
    assert(ds@.take(i as int) =~= ds@);
}

/// Appends the queued records in order, emptying the queue.
fn consume_queue(hunk: &mut Option<Hunk>, queue: VecDeque<Edit>)
    requires
        opt_wf(*old(hunk)),
        opt_items(*old(hunk)).len() + queue@.len() <= usize::MAX,
    ensures
        opt_wf(*final(hunk)),
        opt_items(*final(hunk)) == opt_items(*old(hunk)) + queue@,
{
    let mut q = queue;
    let ghost start = opt_items(*hunk);
    let ghost all = q@;
    while q.len() > 0
        invariant
            all.len() >= q@.len(),
            q@ == all.subrange(all.len() - q@.len(), all.len() as int),
            start.len() + all.len() <= usize::MAX,
            opt_wf(*hunk),
            opt_items(*hunk) =~= start + all.take(all.len() - q@.len()),
        decreases q@.len(),
    {
        let ghost taken = all.len() - q@.len();
        if let Some(d) = q.pop_front() {
            assert(d == all[taken]);
            append(hunk, d);
            assert(all.take(taken + 1) =~= all.take(taken).push(d));
        }
    }
    assert(all.take(all.len() as int) =~= all);
}

fn one_queued(d: Edit) -> (r: VecDeque<Edit>)
    ensures
        r@ == seq![d],
{
    let mut r: VecDeque<Edit> = VecDeque::new();
    r.push_back(d);
    assert(r@ =~= seq![d]);
    r
}

/// The phase of the hunk-assembly machine.
pub enum Phase {
    /// The last record was an addition; further additions are held.
    CollectingAdds,
    /// Enough trailing context was taken; the latest commons are held as
    /// leading context for a later change. Counts the commons seen here.
    CollectingCommonsTail(nat),
    /// A change was just taken; commons are held as its trailing context.
    CollectingCommonsCorked,
    /// The last record was a removal; held additions wait for the removals to end.
    SequentialRemoves,
}

/// The machine's state: its phase, the hunk being built, and the held records
/// (pending additions, or queued commons).
pub struct FsmState {
    pub phase: Phase,
    pub hunk: Seq<Edit>,
    pub held: Seq<Edit>,
}

/// A machine state from its parts.
pub open spec fn mk(phase: Phase, hunk: Seq<Edit>, held: Seq<Edit>) -> FsmState {
    FsmState { phase, hunk, held }
}

/// The state before the first record.
pub open spec fn initial(ctx: nat) -> FsmState {
    if ctx == 0 {
        mk(Phase::SequentialRemoves, seq![], seq![])
    } else {
        mk(Phase::CollectingCommonsTail(0), seq![], seq![])
    }
}

/// One transition on record `d` with `ctx` lines of context: the next state,
/// and the hunk that is complete (empty if none is).
pub open spec fn step(ctx: nat, s: FsmState, d: Edit) -> (FsmState, Seq<Edit>) {
    match s.phase {
        Phase::CollectingAdds => match d.kind {
            EditKind::Added => (mk(Phase::CollectingAdds, s.hunk, s.held.push(d)), seq![]),
            EditKind::Removed => (mk(Phase::SequentialRemoves, s.hunk.push(d), s.held), seq![]),
            EditKind::Common => if ctx == 0 {
                (mk(Phase::SequentialRemoves, seq![], seq![]), s.hunk + s.held)
            } else {
                (mk(Phase::CollectingCommonsCorked, s.hunk + s.held, seq![d]), seq![])
            },
        },
        Phase::SequentialRemoves => match d.kind {
            EditKind::Added => (mk(Phase::CollectingAdds, s.hunk + s.held, seq![d]), seq![]),
            EditKind::Removed => (mk(Phase::SequentialRemoves, s.hunk.push(d), s.held), seq![]),
            EditKind::Common => if ctx == 0 {
                (mk(Phase::SequentialRemoves, seq![], seq![]), s.hunk + s.held)
            } else {
                (mk(Phase::CollectingCommonsCorked, s.hunk + s.held, seq![d]), seq![])
            },
        },
        Phase::CollectingCommonsTail(seen) => {
            let h = if seen > ctx { Seq::<Edit>::empty() } else { s.hunk };
            let done = if seen > ctx { s.hunk } else { Seq::<Edit>::empty() };
            match d.kind {
                EditKind::Added => (mk(Phase::CollectingAdds, h + s.held, seq![d]), done),
                EditKind::Removed => (mk(Phase::SequentialRemoves, (h + s.held).push(d), seq![]), done),
                EditKind::Common => {
                    let q = s.held.push(d);
                    let q = if q.len() > ctx { q.drop_first() } else { q };
                    (mk(Phase::CollectingCommonsTail(seen + 1), h, q), done)
                },
            }
        },
        Phase::CollectingCommonsCorked => match d.kind {
            EditKind::Added => (mk(Phase::CollectingAdds, s.hunk + s.held, seq![d]), seq![]),
            EditKind::Removed => (mk(Phase::SequentialRemoves, (s.hunk + s.held).push(d), seq![]), seq![]),
            EditKind::Common => if s.held.len() == ctx {
                (mk(Phase::CollectingCommonsTail(1), s.hunk + s.held, seq![d]), seq![])
            } else {
                (mk(Phase::CollectingCommonsCorked, s.hunk, s.held.push(d)), seq![])
            },
        },
    }
}

/// The hunk left when the records run out: held additions and trailing
/// context join it, leading context for a change that never came does not.
pub open spec fn finish(s: FsmState) -> Seq<Edit> {
    match s.phase {
        Phase::CollectingCommonsTail(_) => s.hunk,
        _ => s.hunk + s.held,
    }
}

/// Adds a completed hunk to a list, unless it is empty.
pub open spec fn push_hunk(hs: Seq<Seq<Edit>>, h: Seq<Edit>) -> Seq<Seq<Edit>> {
    if h.len() > 0 { hs.push(h) } else { hs }
}

/// The state after the records, and the hunks completed on the way.
pub open spec fn run(ctx: nat, edits: Seq<Edit>) -> (FsmState, Seq<Seq<Edit>>)
    decreases edits.len(),
{
    if edits.len() == 0 {
        (initial(ctx), seq![])
    } else {
        let (s, hs) = run(ctx, edits.drop_last());
        let (s2, done) = step(ctx, s, edits.last());
        (s2, push_hunk(hs, done))
    }
}

/// The hunks into which the records are grouped with `ctx` lines of context.
pub open spec fn hunks_of(ctx: nat, edits: Seq<Edit>) -> Seq<Seq<Edit>> {
    let (s, hs) = run(ctx, edits);
    push_hunk(hs, finish(s))
}

/// The hunk-assembly machine's state, with the hunk being built and the held records.
pub enum State {
    CollectingAdds(Option<Hunk>, Vec<Edit>),
    CollectingCommonsTail(Option<Hunk>, usize, VecDeque<Edit>),
    CollectingCommonsCorked(Option<Hunk>, VecDeque<Edit>),
    SequentialRemoves(Option<Hunk>, Vec<Edit>),
}

impl State {
    pub open spec fn model(&self) -> FsmState {
        match self {
            State::CollectingAdds(h, a) => mk(Phase::CollectingAdds, opt_items(*h), a@),
            State::CollectingCommonsTail(h, n, q) => mk(
                Phase::CollectingCommonsTail(*n as nat),
                opt_items(*h),
                q@,
            ),
            State::CollectingCommonsCorked(h, q) => mk(Phase::CollectingCommonsCorked, opt_items(*h), q@),
            State::SequentialRemoves(h, a) => mk(Phase::SequentialRemoves, opt_items(*h), a@),
        }
    }

    pub open spec fn wf(&self) -> bool {
        match self {
            State::CollectingAdds(h, _) => opt_wf(*h),
            State::CollectingCommonsTail(h, _, _) => opt_wf(*h),
            State::CollectingCommonsCorked(h, _) => opt_wf(*h),
            State::SequentialRemoves(h, _) => opt_wf(*h),
        }
    }
}

/// Number of records that a state holds.
pub open spec fn load(s: FsmState) -> nat {
    s.hunk.len() + s.held.len()
}

/// The count of commons seen in the tail phase, zero in the others.
pub open spec fn seen_of(s: FsmState) -> nat {
    match s.phase {
        Phase::CollectingCommonsTail(n) => n,
        _ => 0,
    }
}

/// The phases that the machine without context uses.
pub open spec fn no_context_phase(s: FsmState) -> bool {
    s.phase is CollectingAdds || s.phase is SequentialRemoves
}

fn one(d: Edit) -> (r: Vec<Edit>)
    ensures
        r@ == seq![d],
{
    let mut r: Vec<Edit> = Vec::new();
    r.push(d);
    assert(r@ =~= seq![d]);
    r
}

fn none() -> (r: Vec<Edit>)
    ensures
        r@ == Seq::<Edit>::empty(),
{
    let r: Vec<Edit> = Vec::new();
    assert(r@ =~= Seq::<Edit>::empty());
    r
}

/// One transition with at least one line of context.
fn fsm(ctx: usize, state: State, d: Edit) -> (r: (State, Option<Hunk>))
    requires
        ctx > 0,
        state.wf(),
        load(state.model()) < usize::MAX,
        seen_of(state.model()) < usize::MAX,
    ensures
        r.0.wf(),
        opt_wf(r.1),
        r.0.model() == step(ctx as nat, state.model(), d).0,
        opt_items(r.1) == step(ctx as nat, state.model(), d).1,
        load(r.0.model()) <= load(state.model()) + 1,
        seen_of(r.0.model()) <= seen_of(state.model()) + 1,
{
    match state {
        State::CollectingAdds(mut hunk, mut adds) => {
            match d.kind {
                EditKind::Added => {
                    adds.push(d);
                    (State::CollectingAdds(hunk, adds), None)
                },
                EditKind::Removed => {
                    append(&mut hunk, d);
                    (State::SequentialRemoves(hunk, adds), None)
                },
                EditKind::Common => {
                    consume(&mut hunk, adds);
                    (State::CollectingCommonsCorked(hunk, one_queued(d)), None)
                },
            }
        },
        State::CollectingCommonsTail(mut hunk, seen, mut commons) => {
            let mut done: Option<Hunk> = None;
            if seen > ctx {
                done = hunk;
                hunk = None;
            }
            match d.kind {
                EditKind::Added => {
                    consume_queue(&mut hunk, commons);
                    (State::CollectingAdds(hunk, one(d)), done)
                },
                EditKind::Removed => {
                    consume_queue(&mut hunk, commons);
                    append(&mut hunk, d);
                    (State::SequentialRemoves(hunk, none()), done)
                },
                EditKind::Common => {
                    commons.push_back(d);
                    if commons.len() > ctx {
                        let ghost q = commons@;
                        commons.pop_front();
                        assert(commons@ =~= q.drop_first());
                    }
                    (State::CollectingCommonsTail(hunk, seen + 1, commons), done)
                },
            }
        },
        State::CollectingCommonsCorked(mut hunk, mut commons) => {
            match d.kind {
                EditKind::Added => {
                    consume_queue(&mut hunk, commons);
                    (State::CollectingAdds(hunk, one(d)), None)
                },
                EditKind::Removed => {
                    consume_queue(&mut hunk, commons);
                    append(&mut hunk, d);
                    (State::SequentialRemoves(hunk, none()), None)
                },
                EditKind::Common => {
                    if commons.len() == ctx {
                        consume_queue(&mut hunk, commons);
                        (State::CollectingCommonsTail(hunk, 1, one_queued(d)), None)
                    } else {
                        commons.push_back(d);
                        (State::CollectingCommonsCorked(hunk, commons), None)
                    }
                },
            }
        },
        State::SequentialRemoves(mut hunk, mut adds) => {
            match d.kind {
                EditKind::Added => {
                    consume(&mut hunk, adds);
                    (State::CollectingAdds(hunk, one(d)), None)
                },
                EditKind::Removed => {
                    append(&mut hunk, d);
                    (State::SequentialRemoves(hunk, adds), None)
                },
                EditKind::Common => {
                    consume(&mut hunk, adds);
                    (State::CollectingCommonsCorked(hunk, one_queued(d)), None)
                },
            }
        },
    }
}

/// One transition without context: commons never join a hunk and close the open one.
fn fsm_nocontext(state: State, d: Edit) -> (r: (State, Option<Hunk>))
    requires
        state.wf(),
        no_context_phase(state.model()),
        load(state.model()) < usize::MAX,
    ensures
        r.0.wf(),
        opt_wf(r.1),
        no_context_phase(r.0.model()),
        r.0.model() == step(0, state.model(), d).0,
        opt_items(r.1) == step(0, state.model(), d).1,
        load(r.0.model()) <= load(state.model()) + 1,
        seen_of(r.0.model()) == 0,
{
    match state {
        State::CollectingAdds(mut hunk, mut adds) => {
            match d.kind {
                EditKind::Added => {
                    adds.push(d);
                    (State::CollectingAdds(hunk, adds), None)
                },
                EditKind::Removed => {
                    append(&mut hunk, d);
                    (State::SequentialRemoves(hunk, adds), None)
                },
                EditKind::Common => {
                    consume(&mut hunk, adds);
                    (State::SequentialRemoves(None, none()), hunk)
                },
            }
        },
        State::SequentialRemoves(mut hunk, mut adds) => {
            match d.kind {
                EditKind::Added => {
                    consume(&mut hunk, adds);
                    (State::CollectingAdds(hunk, one(d)), None)
                },
                EditKind::Removed => {
                    append(&mut hunk, d);
                    (State::SequentialRemoves(hunk, adds), None)
                },
                EditKind::Common => {
                    consume(&mut hunk, adds);
                    (State::SequentialRemoves(None, none()), hunk)
                },
            }
        },
        State::CollectingCommonsTail(hunk, _, _) => (State::SequentialRemoves(hunk, none()), None),
        State::CollectingCommonsCorked(hunk, _) => (State::SequentialRemoves(hunk, none()), None),
    }
}

/// The hunk left at the end of the records.
fn handle_final_state(state: State) -> (r: Option<Hunk>)
    requires
        state.wf(),
        load(state.model()) <= usize::MAX,
    ensures
        opt_wf(r),
        opt_items(r) == finish(state.model()),
{
    match state {
        State::CollectingAdds(mut hunk, adds) => {
            consume(&mut hunk, adds);
            hunk
        },
        State::CollectingCommonsTail(hunk, _, _) => hunk,
        State::CollectingCommonsCorked(mut hunk, commons) => {
            consume_queue(&mut hunk, commons);
            hunk
        },
        State::SequentialRemoves(mut hunk, adds) => {
            consume(&mut hunk, adds);
            hunk
        },
    }
}

/// The records of each hunk.
pub open spec fn hunk_views(hs: Seq<Hunk>) -> Seq<Seq<Edit>> {
    hs.map_values(|h: Hunk| h.items@)
}

/// Groups the records into hunks with `ctx` records of context on each side of a change.
pub fn group_hunks(ctx: usize, edits: &Vec<Edit>) -> (r: Vec<Hunk>)
    ensures
        hunk_views(r@) == hunks_of(ctx as nat, edits@),
        forall|i: int| 0 <= i < r@.len() ==> (#[trigger] r@[i]).wf(),
{
    let mut state = if ctx > 0 {
        State::CollectingCommonsTail(None, 0, VecDeque::new())
    } else {
        State::SequentialRemoves(None, Vec::new())
    };
    let mut hunks: Vec<Hunk> = Vec::new();
    let mut i: usize = 0;
    assert(edits@.take(0) =~= Seq::<Edit>::empty());
    assert(hunk_views(hunks@) =~= Seq::<Seq<Edit>>::empty());
    while i < edits.len()
        invariant
            0 <= i <= edits@.len(),
            state.wf(),
            ctx == 0 ==> no_context_phase(state.model()),
            load(state.model()) <= i,
            seen_of(state.model()) <= i,
            (state.model(), hunk_views(hunks@)) == run(ctx as nat, edits@.take(i as int)),
            forall|j: int| 0 <= j < hunks@.len() ==> (#[trigger] hunks@[j]).wf(),
        decreases edits@.len() - i,
    {
        let d = edits[i];
        let ghost before = hunks@;
        let (next, done) = if ctx > 0 {
            fsm(ctx, state, d)
        } else {
            fsm_nocontext(state, d)
        };
        state = next;
        match done {
            Some(h) => {
                hunks.push(h);
                assert(hunk_views(hunks@) =~= hunk_views(before).push(h.items@));
            },
            None => {},
        }
        assert(edits@.take(i as int + 1).drop_last() =~= edits@.take(i as int));
        i = i + 1;
    }
    assert(edits@.take(i as int) =~= edits@);
    let last = handle_final_state(state);
    let ghost before = hunks@;
    match last {
        Some(h) => {
            hunks.push(h);
            assert(hunk_views(hunks@) =~= hunk_views(before).push(h.items@));
        },
        None => {},
    }
    hunks
}

/// The record's indices lie within sequences of `alen` old and `blen` new
/// items, and within the items on each side that it advances.
pub open spec fn line_ok(e: Edit, alen: nat, blen: nat) -> bool {
    &&& (e.old_index as nat) <= alen
    &&& (e.new_index as nat) <= blen
    &&& advances_old(e.kind) ==> (e.old_index as nat) < alen
    &&& advances_new(e.kind) ==> (e.new_index as nat) < blen
}

/// Every record lies within both sides.
pub open spec fn within(s: Seq<Edit>, alen: nat, blen: nat) -> bool {
    forall|i: int| 0 <= i < s.len() ==> #[trigger] line_ok(s[i], alen, blen)
}

proof fn lemma_within_concat(x: Seq<Edit>, y: Seq<Edit>, alen: nat, blen: nat)
    requires
        within(x, alen, blen),
        within(y, alen, blen),
    ensures
        within(x + y, alen, blen),
{
    assert forall|i: int| 0 <= i < (x + y).len() implies #[trigger] line_ok((x + y)[i], alen, blen) by {
        if i < x.len() {
            assert(line_ok(x[i], alen, blen));
        } else {
            assert(line_ok(y[i - x.len()], alen, blen));
        }
    }
}

proof fn lemma_within_one(x: Edit, alen: nat, blen: nat)
    requires
        line_ok(x, alen, blen),
    ensures
        within(seq![x], alen, blen),
{
    assert(seq![x][0] == x);
}

proof fn lemma_within_drop_first(x: Seq<Edit>, alen: nat, blen: nat)
    requires
        within(x, alen, blen),
        x.len() > 0,
    ensures
        within(x.drop_first(), alen, blen),
{
    assert forall|i: int| 0 <= i < x.drop_first().len() implies #[trigger] line_ok(x.drop_first()[i], alen, blen) by {
        assert(line_ok(x[i + 1], alen, blen));
    }
}

/// Every record of every hunk lies within both sides.
pub open spec fn all_within(hs: Seq<Seq<Edit>>, alen: nat, blen: nat) -> bool {
    forall|j: int| 0 <= j < hs.len() ==> within(#[trigger] hs[j], alen, blen)
}

proof fn lemma_run_within(ctx: nat, edits: Seq<Edit>, alen: nat, blen: nat)
    requires
        within(edits, alen, blen),
    ensures
        within(run(ctx, edits).0.hunk, alen, blen),
        within(run(ctx, edits).0.held, alen, blen),
        all_within(run(ctx, edits).1, alen, blen),
    decreases edits.len(),
{
    if edits.len() > 0 {
        let pre = edits.drop_last();
        assert(within(pre, alen, blen)) by {
            assert forall|i: int| 0 <= i < pre.len() implies #[trigger] line_ok(pre[i], alen, blen) by {
                assert(line_ok(edits[i], alen, blen));
            }
        }
        lemma_run_within(ctx, pre, alen, blen);
        let (st, hs) = run(ctx, pre);
        let d = edits.last();
        assert(line_ok(edits[edits.len() - 1], alen, blen));
        lemma_within_one(d, alen, blen);
        lemma_within_concat(st.hunk, st.held, alen, blen);
        lemma_within_concat(st.hunk, seq![d], alen, blen);
        lemma_within_concat(st.held, seq![d], alen, blen);
        lemma_within_concat(st.hunk + st.held, seq![d], alen, blen);
        lemma_within_concat(Seq::<Edit>::empty(), st.held, alen, blen);
        lemma_within_concat(Seq::<Edit>::empty() + st.held, seq![d], alen, blen);
        assert(st.hunk.push(d) =~= st.hunk + seq![d]);
        assert(st.held.push(d) =~= st.held + seq![d]);
        assert((st.hunk + st.held).push(d) =~= (st.hunk + st.held) + seq![d]);
        assert((Seq::<Edit>::empty() + st.held).push(d) =~= (Seq::<Edit>::empty() + st.held) + seq![d]);
        if st.held.push(d).len() > 0 {
            lemma_within_drop_first(st.held + seq![d], alen, blen);
        }
        let (st2, done) = step(ctx, st, d);
        assert(within(done, alen, blen));
        assert(all_within(push_hunk(hs, done), alen, blen)) by {
            if done.len() > 0 {
                assert forall|j: int| 0 <= j < hs.push(done).len() implies within(#[trigger] hs.push(done)[j], alen, blen) by {
                    if j < hs.len() {
                        assert(within(hs[j], alen, blen));
                    }
                }
            }
        }
    }
}

/// Every record of every hunk comes from the records given.
proof fn lemma_hunks_within(ctx: nat, edits: Seq<Edit>, alen: nat, blen: nat)
    requires
        within(edits, alen, blen),
    ensures
        all_within(hunks_of(ctx, edits), alen, blen),
{
    lemma_run_within(ctx, edits, alen, blen);
    let (st, hs) = run(ctx, edits);
    lemma_within_concat(st.hunk, st.held, alen, blen);
    let h = finish(st);
    if h.len() > 0 {
        assert forall|j: int| 0 <= j < hs.push(h).len() implies within(#[trigger] hs.push(h)[j], alen, blen) by {
            if j < hs.len() {
                assert(within(hs[j], alen, blen));
            }
        }
    }
}

/// The records of a script, with their missing indices filled in, lie within both sides.
proof fn lemma_backfill_within(r: Seq<DiffRecord>, alen: nat, blen: nat)
    requires
        is_script(r, alen, blen),
    ensures
        within(backfill(r), alen, blen),
{
    assert forall|i: int| 0 <= i < backfill(r).len() implies #[trigger] line_ok(backfill(r)[i], alen, blen) by {
        lemma_counts_prefix(r, i);
        lemma_counts_prefix(r, i + 1);
        assert(r.take(i + 1).drop_last() =~= r.take(i));
        assert(placed_at(r[i], rec_old_count(r.take(i)), rec_new_count(r.take(i))));
    }
}

/// The atoms of a line under the chosen tokenization: its bytes one by one,
/// or its words.
pub open spec fn tokens_of(t: ContextLineTokenization, line: Seq<u8>) -> Seq<Seq<u8>> {
    match t {
        ContextLineTokenization::Char => Seq::new(line.len(), |i: int| seq![line[i]]),
        ContextLineTokenization::Word => split_final_newline(word_split(line)),
    }
}

/// The intra-line rendering of one hunk of atoms of the lines `a` and `b`.
pub open spec fn intra_render(conf: Conf, a: Seq<u8>, b: Seq<u8>, items: Seq<Edit>) -> Seq<u8> {
    let ta = tokens_of(conf.context_tokenization, a);
    let tb = tokens_of(conf.context_tokenization, b);
    match conf.context_format {
        ContextLineFormat::CC(e) => cc_spec(e, items, ta, tb),
        ContextLineFormat::Wdiff => wdiff_spec(items, ta, tb),
        ContextLineFormat::Old => a,
        ContextLineFormat::New => b,
    }
}

/// The intra-line renderings of the hunks, one after the other.
pub open spec fn intra_render_all(conf: Conf, a: Seq<u8>, b: Seq<u8>, hs: Seq<Seq<Edit>>) -> Seq<u8>
    decreases hs.len(),
{
    if hs.len() == 0 {
        Seq::empty()
    } else {
        intra_render_all(conf, a, b, hs.drop_last()) + intra_render(conf, a, b, hs.last())
    }
}

/// The atom-level script between two lines.
pub open spec fn line_script(conf: Conf, a: Seq<u8>, b: Seq<u8>) -> Seq<DiffRecord> {
    lcs_of(tokens_of(conf.context_tokenization, a), tokens_of(conf.context_tokenization, b))
}

/// How a line that is common under the selector but differs in its atoms is
/// shown: its atom-level script grouped with unbounded context, each group rendered.
pub open spec fn changed_line(conf: Conf, a: Seq<u8>, b: Seq<u8>) -> Seq<u8> {
    intra_render_all(conf, a, b, hunks_of(usize::MAX as nat, backfill(line_script(conf, a, b))))
}

/// The line does not end in a newline.
pub open spec fn lacks_newline(line: Seq<u8>) -> bool {
    line.len() == 0 || line.last() != 10u8
}

/// The marker that follows a last line without a newline.
pub open spec fn no_newline_marker() -> Seq<u8> {
    seq![10u8, 92u8, 32u8, 78u8, 111u8, 32u8, 110u8, 101u8, 119u8, 108u8, 105u8, 110u8, 101u8, 32u8, 97u8, 116u8, 32u8, 101u8, 110u8, 100u8, 32u8, 111u8, 102u8, 32u8, 102u8, 105u8, 108u8, 101u8, 10u8]
}

/// The marker where line `i` is the last of `lines` and lacks its newline; nothing otherwise.
pub open spec fn eof_marker(i: nat, lines: Seq<Seq<u8>>) -> Seq<u8> {
    if i + 1 == lines.len() && lacks_newline(lines[i as int]) { no_newline_marker() } else { Seq::empty() }
}

/// One record as a unified-diff line.
pub open spec fn render_item(conf: Conf, l: Seq<Seq<u8>>, n: Seq<Seq<u8>>, e: Edit) -> Seq<u8> {
    match e.kind {
        EditKind::Common => context_line(conf, l[e.old_index as int], n[e.new_index as int]),
        EditKind::Removed => seq![45u8] + l[e.old_index as int] + eof_marker(e.old_index as nat, l),
        EditKind::Added => seq![43u8] + n[e.new_index as int] + eof_marker(e.new_index as nat, n),
    }
}

/// The records' unified-diff lines, one after the other.
pub open spec fn render_items(conf: Conf, l: Seq<Seq<u8>>, n: Seq<Seq<u8>>, items: Seq<Edit>) -> Seq<u8>
    decreases items.len(),
{
    if items.len() == 0 {
        Seq::empty()
    } else {
        render_items(conf, l, n, items.drop_last()) + render_item(conf, l, n, items.last())
    }
}

/// A range in a hunk header: `off,0` for an empty one, the first line
/// number alone for one line, `first,len` otherwise.
pub open spec fn off_len(off: nat, len: nat) -> Seq<u8> {
    if len == 0 {
        dec(off) + seq![44u8, 48u8]
    } else if len == 1 {
        dec(off + 1)
    } else {
        dec(off + 1) + seq![44u8] + dec(len)
    }
}

/// `@@ -A[,B] +C[,D] @@` and a newline.
pub open spec fn hunk_header(items: Seq<Edit>) -> Seq<u8> {
    seq![64u8, 64u8, 32u8, 45u8] + off_len(min_old(items), old_count(items)) + seq![32u8, 43u8]
        + off_len(min_new(items), new_count(items)) + seq![32u8, 64u8, 64u8, 10u8]
}

/// A hunk of lines: its header, then its records.
pub open spec fn render_hunk(conf: Conf, l: Seq<Seq<u8>>, n: Seq<Seq<u8>>, items: Seq<Edit>) -> Seq<u8> {
    hunk_header(items) + render_items(conf, l, n, items)
}

/// The hunks' renderings, one after the other.
pub open spec fn render_hunks(conf: Conf, l: Seq<Seq<u8>>, n: Seq<Seq<u8>>, hs: Seq<Seq<Edit>>) -> Seq<u8>
    decreases hs.len(),
{
    if hs.len() == 0 {
        Seq::empty()
    } else {
        render_hunks(conf, l, n, hs.drop_last()) + render_hunk(conf, l, n, hs.last())
    }
}

/// The unified-diff hunks for a script between two sequences of lines.
pub open spec fn diff_output(conf: Conf, l: Seq<Seq<u8>>, n: Seq<Seq<u8>>, script: Seq<DiffRecord>) -> Seq<u8> {
    render_hunks(conf, l, n, hunks_of(conf.context as nat, backfill(script)))
}

proof fn lemma_min_old_le(items: Seq<Edit>, i: int)
    requires
        0 <= i < items.len(),
    ensures
        min_old(items) <= items[i].old_index,
        min_new(items) <= items[i].new_index,
    decreases items.len(),
{
    if items.len() > 1 && i < items.len() - 1 {
        lemma_min_old_le(items.drop_last(), i);
    }
}

proof fn lemma_count_witness(items: Seq<Edit>)
    ensures
        old_count(items) > 0 ==> exists|i: int| 0 <= i < items.len() && advances_old(#[trigger] items[i].kind),
        new_count(items) > 0 ==> exists|i: int| 0 <= i < items.len() && advances_new(#[trigger] items[i].kind),
    decreases items.len(),
{
    if items.len() > 0 {
        lemma_count_witness(items.drop_last());
        if old_count(items.drop_last()) > 0 {
            let i = choose|i: int| 0 <= i < items.drop_last().len() && advances_old(#[trigger] items.drop_last()[i].kind);
            assert(advances_old(items[i].kind));
        }
        if new_count(items.drop_last()) > 0 {
            let i = choose|i: int| 0 <= i < items.drop_last().len() && advances_new(#[trigger] items.drop_last()[i].kind);
            assert(advances_new(items[i].kind));
        }
        if advances_old(items.last().kind) {
            assert(advances_old(items[items.len() - 1].kind));
        }
        if advances_new(items.last().kind) {
            assert(advances_new(items[items.len() - 1].kind));
        }
    }
}

fn write_off_len(out: &mut Vec<u8>, off: usize, len: usize)
    requires
        len > 0 ==> off < usize::MAX,
    ensures
        final(out)@ == old(out)@ + off_len(off as nat, len as nat),
{
    let ghost start = out@;
    if len == 0 {
        write_decimal(out, off);
        out.push(44u8);
        out.push(48u8);
    } else {
        write_decimal(out, off + 1);
        if len > 1 {
            out.push(44u8);
            write_decimal(out, len);
        }
    }
    assert(out@ =~= start + off_len(off as nat, len as nat));
}

fn write_hunk_header(out: &mut Vec<u8>, hunk: &Hunk, old_len: usize, new_len: usize)
    requires
        hunk.wf(),
        hunk.items@.len() > 0,
        within(hunk.items@, old_len as nat, new_len as nat),
    ensures
        final(out)@ == old(out)@ + hunk_header(hunk.items@),
{
    let ghost items = hunk.items@;
    proof {
        lemma_count_witness(items);
        if old_count(items) > 0 {
            let i = choose|i: int| 0 <= i < items.len() && advances_old(#[trigger] items[i].kind);
            lemma_min_old_le(items, i);
            assert(line_ok(items[i], old_len as nat, new_len as nat));
        }
        if new_count(items) > 0 {
            let i = choose|i: int| 0 <= i < items.len() && advances_new(#[trigger] items[i].kind);
            lemma_min_old_le(items, i);
            assert(line_ok(items[i], old_len as nat, new_len as nat));
        }
    }
    let ghost start = out@;
    write_bytes(out, &[64u8, 64u8, 32u8, 45u8]);
    write_off_len(out, hunk.old_start, hunk.old_len);
    write_bytes(out, &[32u8, 43u8]);
    write_off_len(out, hunk.new_start, hunk.new_len);
    write_bytes(out, &[32u8, 64u8, 64u8, 10u8]);
    assert(out@ =~= start + hunk_header(items));
}

fn write_eof_marker(out: &mut Vec<u8>, i: usize, lines: &Vec<Vec<u8>>)
    requires
        i < lines@.len(),
    ensures
        final(out)@ == old(out)@ + eof_marker(i as nat, seqs_view(lines@)),
{
    let line = &lines[i];
    if i == lines.len() - 1 && (line.len() == 0 || line[line.len() - 1] != 10u8) {
        write_bytes(out, &[10u8, 92u8, 32u8, 78u8, 111u8, 32u8, 110u8, 101u8, 119u8, 108u8, 105u8, 110u8, 101u8, 32u8, 97u8, 116u8, 32u8, 101u8, 110u8, 100u8, 32u8, 111u8, 102u8, 32u8, 102u8, 105u8, 108u8, 101u8, 10u8]);
        assert(out@ =~= old(out)@ + eof_marker(i as nat, seqs_view(lines@)));
    } else {
        assert(out@ =~= old(out)@ + eof_marker(i as nat, seqs_view(lines@)));
    }
}

/// The atoms of a line under the chosen tokenization.
pub fn line_tokens(t: ContextLineTokenization, line: &Vec<u8>) -> (r: Vec<Vec<u8>>)
    ensures
        seqs_view(r@) == tokens_of(t, line@),
{
    match t {
        ContextLineTokenization::Char => char_atoms(line.as_slice()),
        ContextLineTokenization::Word => tokenize(line.as_slice()),
    }
}

/// Renders an atom-level script between two lines: grouped with unbounded
/// context, each group in the configured context format.
pub fn write_changed_line(
    out: &mut Vec<u8>,
    conf: &Conf,
    a: &Vec<u8>,
    b: &Vec<u8>,
    ta: &Vec<Vec<u8>>,
    tb: &Vec<Vec<u8>>,
    diff: &Vec<DiffRecord>,
)
    requires
        seqs_view(ta@) == tokens_of(conf.context_tokenization, a@),
        seqs_view(tb@) == tokens_of(conf.context_tokenization, b@),
        is_script(diff@, ta@.len() as nat, tb@.len() as nat),
    ensures
        final(out)@ == old(out)@ + intra_render_all(*conf, a@, b@, hunks_of(usize::MAX as nat, backfill(diff@))),
{
    let edits = backfill_indices(diff, ta.len(), tb.len());
    let hunks = group_hunks(usize::MAX, &edits);
    let ghost hs = hunks_of(usize::MAX as nat, edits@);
    proof {
        lemma_backfill_within(diff@, ta@.len() as nat, tb@.len() as nat);
        lemma_hunks_within(usize::MAX as nat, edits@, ta@.len() as nat, tb@.len() as nat);
    }
    let mut i: usize = 0;
    assert(hs.take(0) =~= Seq::<Seq<Edit>>::empty());
    while i < hunks.len()
        invariant
            0 <= i <= hunks@.len(),
            hunk_views(hunks@) == hs,
            hs == hunks_of(usize::MAX as nat, backfill(diff@)),
            all_within(hs, ta@.len() as nat, tb@.len() as nat),
            seqs_view(ta@) == tokens_of(conf.context_tokenization, a@),
            seqs_view(tb@) == tokens_of(conf.context_tokenization, b@),
            out@ == old(out)@ + intra_render_all(*conf, a@, b@, hs.take(i as int)),
        decreases hunks@.len() - i,
    {
        let h = &hunks[i];
        assert(hs[i as int] == h.items@);
        assert(within(hs[i as int], ta@.len() as nat, tb@.len() as nat));
        assert(atoms_ok(h.items@, ta@.len() as nat, tb@.len() as nat)) by {
            assert forall|k: int| 0 <= k < h.items@.len() implies #[trigger] atom_ok(h.items@[k], ta@.len() as nat, tb@.len() as nat) by {
                assert(line_ok(hs[i as int][k], ta@.len() as nat, tb@.len() as nat));
            }
        }
        match conf.context_format {
            ContextLineFormat::CC(e) => intra_line_write_cc(h, e, conf, ta, tb, out),
            ContextLineFormat::Wdiff => intra_line_write_wdiff(h, conf, ta, tb, out),
            ContextLineFormat::Old => write_bytes(out, a.as_slice()),
            ContextLineFormat::New => write_bytes(out, b.as_slice()),
        }
        assert(hs.take(i as int + 1).drop_last() =~= hs.take(i as int));
        i = i + 1;
    }
    assert(hs.take(i as int) =~= hs);
}

/// A context line: a space and the old line where its atoms show no change,
/// else `!` (when changed context is marked) or a space, then the intra-line rendering.
pub open spec fn context_line(conf: Conf, a: Seq<u8>, b: Seq<u8>) -> Seq<u8> {
    if !has_change(line_script(conf, a, b)) {
        seq![32u8] + a
    } else {
        (if conf.mark_changed_context { seq![33u8] } else { seq![32u8] }) + changed_line(conf, a, b)
    }
}

/// Writes a line that the selector found common, comparing its atoms with those of the new line.
pub fn write_context_line(out: &mut Vec<u8>, conf: &Conf, a: &Vec<u8>, b: &Vec<u8>)
    ensures
        final(out)@ == old(out)@ + context_line(*conf, a@, b@),
{
    let ghost start = out@;
    let ta = line_tokens(conf.context_tokenization, a);
    let tb = line_tokens(conf.context_tokenization, b);
    let diff = lcs(ta.as_slice(), tb.as_slice());
    if !exist_differences(&diff) {
        out.push(32u8);
        write_bytes(out, a.as_slice());
    } else {
        if conf.mark_changed_context {
            out.push(33u8);
        } else {
            out.push(32u8);
        }
        write_changed_line(out, conf, a, b, &ta, &tb, &diff);
    }
    assert(out@ =~= start + context_line(*conf, a@, b@));
}

impl Hunk {
    /// Writes the hunk of lines: its header, then each record as a
    /// unified-diff line, with changed context lines rendered within the line.
    pub fn do_write(&self, conf: &Conf, old_lines: &Vec<Vec<u8>>, new_lines: &Vec<Vec<u8>>, out: &mut Vec<u8>)
        requires
            self.wf(),
            self.items@.len() > 0,
            within(self.items@, old_lines@.len() as nat, new_lines@.len() as nat),
        ensures
            final(out)@ == old(out)@ + render_hunk(*conf, seqs_view(old_lines@), seqs_view(new_lines@), self.items@),
    {
        let ghost l = seqs_view(old_lines@);
        let ghost n = seqs_view(new_lines@);
        let ghost items = self.items@;
        write_hunk_header(out, self, old_lines.len(), new_lines.len());
        let ghost after_header = out@;
        let mut i: usize = 0;
        assert(items.take(0) =~= Seq::<Edit>::empty());
        while i < self.items.len()
            invariant
                0 <= i <= items.len(),
                items == self.items@,
                l == seqs_view(old_lines@),
                n == seqs_view(new_lines@),
                within(items, old_lines@.len() as nat, new_lines@.len() as nat),
                after_header == old(out)@ + hunk_header(items),
                out@ == after_header + render_items(*conf, l, n, items.take(i as int)),
            decreases items.len() - i,
        {
            let d = self.items[i];
            assert(line_ok(items[i as int], old_lines@.len() as nat, new_lines@.len() as nat));
            let ghost before = out@;
            match d.kind {
                EditKind::Common => {
                    let o = &old_lines[d.old_index];
                    let nl = &new_lines[d.new_index];
                    write_context_line(out, conf, o, nl);
                },
                EditKind::Removed => {
                    out.push(45u8);
                    write_bytes(out, old_lines[d.old_index].as_slice());
                    write_eof_marker(out, d.old_index, old_lines);
                },
                EditKind::Added => {
                    out.push(43u8);
                    write_bytes(out, new_lines[d.new_index].as_slice());
                    write_eof_marker(out, d.new_index, new_lines);
                },
            }
            assert(out@ =~= before + render_item(*conf, l, n, d));
            assert(items.take(i as int + 1).drop_last() =~= items.take(i as int));
            i = i + 1;
        }
        assert(items.take(i as int) =~= items);
    }
}

/// Writes the unified-diff hunks for a script between two sequences of lines;
/// returns the exit status for "differences found".
pub fn display_diff_hunked(
    out: &mut Vec<u8>,
    conf: &Conf,
    old_lines: &Vec<Vec<u8>>,
    new_lines: &Vec<Vec<u8>>,
    diff: Vec<DiffRecord>,
) -> (r: i32)
    requires
        is_script(diff@, old_lines@.len() as nat, new_lines@.len() as nat),
        has_change(diff@),
    ensures
        r == 1,
        final(out)@ == old(out)@ + diff_output(*conf, seqs_view(old_lines@), seqs_view(new_lines@), diff@),
{
    let ghost l = seqs_view(old_lines@);
    let ghost n = seqs_view(new_lines@);
    let edits = backfill_indices(&diff, old_lines.len(), new_lines.len());
    let hunks = group_hunks(conf.context, &edits);
    let ghost hs = hunks_of(conf.context as nat, edits@);
    proof {
        lemma_backfill_within(diff@, old_lines@.len() as nat, new_lines@.len() as nat);
        lemma_hunks_within(conf.context as nat, edits@, old_lines@.len() as nat, new_lines@.len() as nat);
    }
    let mut i: usize = 0;
    assert(hs.take(0) =~= Seq::<Seq<Edit>>::empty());
    while i < hunks.len()
        invariant
            0 <= i <= hunks@.len(),
            hunk_views(hunks@) == hs,
            forall|j: int| 0 <= j < hunks@.len() ==> (#[trigger] hunks@[j]).wf(),
            hs == hunks_of(conf.context as nat, backfill(diff@)),
            edits@ == backfill(diff@),
            all_within(hs, old_lines@.len() as nat, new_lines@.len() as nat),
            l == seqs_view(old_lines@),
            n == seqs_view(new_lines@),
            out@ == old(out)@ + render_hunks(*conf, l, n, hs.take(i as int)),
        decreases hunks@.len() - i,
    {
        let h = &hunks[i];
        assert(hunk_views(hunks@).len() == hunks@.len());
        assert(hs[i as int] == h.items@);
        assert(within(hs[i as int], old_lines@.len() as nat, new_lines@.len() as nat));
        assert(h.items@.len() > 0) by {
            lemma_hunks_nonempty(conf.context as nat, edits@, i as int);
        }
        h.do_write(conf, old_lines, new_lines, out);
        assert(hs.take(i as int + 1).drop_last() =~= hs.take(i as int));
        i = i + 1;
    }
    assert(hs.take(i as int) =~= hs);
    1
}

proof fn lemma_run_nonempty(ctx: nat, edits: Seq<Edit>)
    ensures
        forall|j: int| 0 <= j < run(ctx, edits).1.len() ==> (#[trigger] run(ctx, edits).1[j]).len() > 0,
    decreases edits.len(),
{
    if edits.len() > 0 {
        lemma_run_nonempty(ctx, edits.drop_last());
        let (st, hs) = run(ctx, edits.drop_last());
        let done = step(ctx, st, edits.last()).1;
        if done.len() > 0 {
            assert forall|j: int| 0 <= j < hs.push(done).len() implies (#[trigger] hs.push(done)[j]).len() > 0 by {
                if j < hs.len() {
                    assert(hs[j].len() > 0);
                }
            }
        }
    }
}

/// No hunk is empty.
proof fn lemma_hunks_nonempty(ctx: nat, edits: Seq<Edit>, j: int)
    requires
        0 <= j < hunks_of(ctx, edits).len(),
    ensures
        hunks_of(ctx, edits)[j].len() > 0,
{
    lemma_run_nonempty(ctx, edits);
    let (st, hs) = run(ctx, edits);
    if j < hs.len() {
        assert(hs[j].len() > 0);
    }
}

/// The no-newline marker follows a removed or added line exactly when that
/// line is the last of its file and lacks its newline, whatever the other
/// side holds: so it shows where one side's last line lacks the newline, and
/// on both lines of a remove/add pair where both sides' last lines lack it.
pub proof fn lemma_marker_placement(conf: Conf, l: Seq<Seq<u8>>, n: Seq<Seq<u8>>, e: Edit)
    requires
        e.kind != EditKind::Common,
    ensures
        e.kind == EditKind::Removed ==> render_item(conf, l, n, e) == seq![45u8] + l[e.old_index as int]
            + eof_marker(e.old_index as nat, l),
        e.kind == EditKind::Added ==> render_item(conf, l, n, e) == seq![43u8] + n[e.new_index as int]
            + eof_marker(e.new_index as nat, n),
        e.kind == EditKind::Removed ==> (eof_marker(e.old_index as nat, l) == no_newline_marker() <==> (
            e.old_index + 1 == l.len() && lacks_newline(l[e.old_index as int]))),
        e.kind == EditKind::Added ==> (eof_marker(e.new_index as nat, n) == no_newline_marker() <==> (
            e.new_index + 1 == n.len() && lacks_newline(n[e.new_index as int]))),
        e.kind == EditKind::Removed && !(e.old_index + 1 == l.len() && lacks_newline(l[e.old_index as int]))
            ==> eof_marker(e.old_index as nat, l).len() == 0,
        e.kind == EditKind::Added && !(e.new_index + 1 == n.len() && lacks_newline(n[e.new_index as int]))
            ==> eof_marker(e.new_index as nat, n).len() == 0,
{
    assert(no_newline_marker().len() > 0);
    assert(Seq::<u8>::empty() != no_newline_marker()) by {
        assert(Seq::<u8>::empty().len() != no_newline_marker().len());
    }
}

/// Every record has the property.
pub open spec fn all_sat(s: Seq<Edit>, p: spec_fn(Edit) -> bool) -> bool {
    forall|i: int| 0 <= i < s.len() ==> #[trigger] p(s[i])
}

proof fn lemma_sat_concat(x: Seq<Edit>, y: Seq<Edit>, p: spec_fn(Edit) -> bool)
    requires
        all_sat(x, p),
        all_sat(y, p),
    ensures
        all_sat(x + y, p),
{
    assert forall|i: int| 0 <= i < (x + y).len() implies #[trigger] p((x + y)[i]) by {
        if i < x.len() {
            assert(p(x[i]));
        } else {
            assert(p(y[i - x.len()]));
        }
    }
}

proof fn lemma_run_keeps(ctx: nat, edits: Seq<Edit>, p: spec_fn(Edit) -> bool)
    requires
        all_sat(edits, p),
    ensures
        all_sat(run(ctx, edits).0.hunk, p),
        all_sat(run(ctx, edits).0.held, p),
        forall|j: int| 0 <= j < run(ctx, edits).1.len() ==> all_sat(#[trigger] run(ctx, edits).1[j], p),
    decreases edits.len(),
{
    if edits.len() > 0 {
        let pre = edits.drop_last();
        assert(all_sat(pre, p)) by {
            assert forall|i: int| 0 <= i < pre.len() implies #[trigger] p(pre[i]) by {
                assert(p(edits[i]));
            }
        }
        lemma_run_keeps(ctx, pre, p);
        let (st, hs) = run(ctx, pre);
        let d = edits.last();
        assert(p(edits[edits.len() - 1]));
        assert(all_sat(seq![d], p)) by {
            assert(seq![d][0] == d);
        }
        lemma_sat_concat(st.hunk, st.held, p);
        lemma_sat_concat(st.hunk, seq![d], p);
        lemma_sat_concat(st.held, seq![d], p);
        lemma_sat_concat(st.hunk + st.held, seq![d], p);
        lemma_sat_concat(Seq::<Edit>::empty(), st.held, p);
        lemma_sat_concat(Seq::<Edit>::empty() + st.held, seq![d], p);
        assert(st.hunk.push(d) =~= st.hunk + seq![d]);
        assert(st.held.push(d) =~= st.held + seq![d]);
        assert((st.hunk + st.held).push(d) =~= (st.hunk + st.held) + seq![d]);
        assert((Seq::<Edit>::empty() + st.held).push(d) =~= (Seq::<Edit>::empty() + st.held) + seq![d]);
        let q = st.held + seq![d];
        assert(all_sat(q.drop_first(), p)) by {
            assert forall|i: int| 0 <= i < q.drop_first().len() implies #[trigger] p(q.drop_first()[i]) by {
                assert(p(q[i + 1]));
            }
        }
        let (st2, done) = step(ctx, st, d);
        assert(all_sat(done, p));
        if done.len() > 0 {
            assert forall|j: int| 0 <= j < hs.push(done).len() implies all_sat(#[trigger] hs.push(done)[j], p) by {
                if j < hs.len() {
                    assert(all_sat(hs[j], p));
                }
            }
        }
    }
}

/// A property of every record holds of every record of every hunk.
pub proof fn lemma_hunks_keep(ctx: nat, edits: Seq<Edit>, p: spec_fn(Edit) -> bool)
    requires
        all_sat(edits, p),
    ensures
        forall|j: int| 0 <= j < hunks_of(ctx, edits).len() ==> all_sat(#[trigger] hunks_of(ctx, edits)[j], p),
{
    lemma_run_keeps(ctx, edits, p);
    let (st, hs) = run(ctx, edits);
    lemma_sat_concat(st.hunk, st.held, p);
    let h = finish(st);
    if h.len() > 0 {
        assert forall|j: int| 0 <= j < hs.push(h).len() implies all_sat(#[trigger] hs.push(h)[j], p) by {
            if j < hs.len() {
                assert(all_sat(hs[j], p));
            }
        }
    }
}

/// A byte that may begin a line of unified-diff output.
pub open spec fn line_marker(c: u8) -> bool {
    c == 32u8 || c == 43u8 || c == 45u8 || c == 33u8 || c == 64u8 || c == 92u8
}

/// Every line of the text begins with a line marker.
pub open spec fn lines_marked(s: Seq<u8>) -> bool {
    forall|p: int| 0 <= p < s.len() && (p == 0 || s[p - 1] == 10u8) ==> #[trigger] line_marker(s[p])
}

/// No byte is a newline.
pub open spec fn no_newline_in(s: Seq<u8>) -> bool {
    forall|i: int| 0 <= i < s.len() ==> #[trigger] s[i] != 10u8
}

/// Lines as a file reader gives them: not empty, each ending in its only
/// newline, except that the last may hold no newline at all.
pub open spec fn well_shaped(lines: Seq<Seq<u8>>) -> bool {
    forall|i: int|
        0 <= i < lines.len() ==> (#[trigger] lines[i]).len() > 0 && no_newline_in(lines[i].drop_last())
            && (lines[i].last() == 10u8 || i == lines.len() - 1)
}

/// A context record whose lines show no change within.
pub open spec fn plain_context(conf: Conf, l: Seq<Seq<u8>>, n: Seq<Seq<u8>>, e: Edit) -> bool {
    e.kind == EditKind::Common ==> !has_change(line_script(conf, l[e.old_index as int], n[e.new_index as int]))
}

/// Text whose lines all begin with a marker stays so when joined: the
/// first byte of the second part begins a line only after a newline.
proof fn lemma_marked_concat(x: Seq<u8>, y: Seq<u8>)
    requires
        lines_marked(x),
        lines_marked(y),
    ensures
        lines_marked(x + y),
{
    assert forall|p: int| 0 <= p < (x + y).len() && (p == 0 || (x + y)[p - 1] == 10u8) implies #[trigger] line_marker((x + y)[p]) by {
        if p < x.len() {
            assert(line_marker(x[p]));
        } else {
            let q = p - x.len();
            if q > 0 {
                assert(y[q - 1] == (x + y)[p - 1]);
            }
            assert(line_marker(y[q]));
        }
    }
}

/// A marker byte, then bytes with no newline but maybe a last one, make marked lines.
proof fn lemma_one_line(c: u8, s: Seq<u8>)
    requires
        line_marker(c),
        s.len() > 0,
        no_newline_in(s.drop_last()),
    ensures
        lines_marked(seq![c] + s),
        (seq![c] + s).last() == s.last(),
{
    let t = seq![c] + s;
    assert forall|p: int| 0 <= p < t.len() && (p == 0 || t[p - 1] == 10u8) implies #[trigger] line_marker(t[p]) by {
        if p > 0 {
            assert(t[p - 1] == s[p - 2] || p == 1);
            if p >= 2 {
                assert(s.drop_last()[p - 2] == s[p - 2]);
            }
        }
    }
}

proof fn lemma_dec_digits(n: nat)
    ensures
        no_newline_in(dec(n)),
        dec(n).len() > 0,
    decreases n,
{
    if n >= 10 {
        lemma_dec_digits(n / 10);
        let d = dec(n / 10).push((48 + n % 10) as u8);
        assert forall|i: int| 0 <= i < d.len() implies #[trigger] d[i] != 10u8 by {
            if i < d.len() - 1 {
                assert(d[i] == dec(n / 10)[i]);
            }
        }
    } else {
        assert(dec(n)[0] == (48 + n) as u8);
    }
}

proof fn lemma_no_newline_concat(x: Seq<u8>, y: Seq<u8>)
    requires
        no_newline_in(x),
        no_newline_in(y),
    ensures
        no_newline_in(x + y),
{
    assert forall|i: int| 0 <= i < (x + y).len() implies #[trigger] (x + y)[i] != 10u8 by {
        if i < x.len() {
            assert(x[i] != 10u8);
        } else {
            assert(y[i - x.len()] != 10u8);
        }
    }
}

proof fn lemma_header_marked(items: Seq<Edit>)
    ensures
        lines_marked(hunk_header(items)),
        hunk_header(items).last() == 10u8,
{
    let a = min_old(items);
    let b = old_count(items);
    let c = min_new(items);
    let d = new_count(items);
    lemma_dec_digits(a);
    lemma_dec_digits(a + 1);
    lemma_dec_digits(b);
    lemma_dec_digits(c);
    lemma_dec_digits(c + 1);
    lemma_dec_digits(d);
    assert(no_newline_in(seq![44u8, 48u8]));
    assert(no_newline_in(seq![44u8]));
    lemma_no_newline_concat(dec(a), seq![44u8, 48u8]);
    lemma_no_newline_concat(dec(a + 1), seq![44u8]);
    lemma_no_newline_concat(dec(a + 1) + seq![44u8], dec(b));
    lemma_no_newline_concat(dec(c), seq![44u8, 48u8]);
    lemma_no_newline_concat(dec(c + 1), seq![44u8]);
    lemma_no_newline_concat(dec(c + 1) + seq![44u8], dec(d));
    let o1 = off_len(a, b);
    let o2 = off_len(c, d);
    assert(no_newline_in(o1));
    assert(no_newline_in(o2));
    let rest = seq![64u8, 32u8, 45u8] + o1 + seq![32u8, 43u8] + o2 + seq![32u8, 64u8, 64u8, 10u8];
    assert(no_newline_in(seq![64u8, 32u8, 45u8]));
    assert(no_newline_in(seq![32u8, 43u8]));
    lemma_no_newline_concat(seq![64u8, 32u8, 45u8], o1);
    lemma_no_newline_concat(seq![64u8, 32u8, 45u8] + o1, seq![32u8, 43u8]);
    lemma_no_newline_concat(seq![64u8, 32u8, 45u8] + o1 + seq![32u8, 43u8], o2);
    let body = seq![64u8, 32u8, 45u8] + o1 + seq![32u8, 43u8] + o2;
    assert(no_newline_in(seq![32u8, 64u8, 64u8]));
    lemma_no_newline_concat(body, seq![32u8, 64u8, 64u8]);
    assert(rest.drop_last() =~= body + seq![32u8, 64u8, 64u8]);
    assert(hunk_header(items) =~= seq![64u8] + rest);
    lemma_one_line(64u8, rest);
}

proof fn lemma_marker_bytes()
    ensures
        no_newline_marker()[0] == 10u8,
        no_newline_marker().last() == 10u8,
        no_newline_marker()[1] == 92u8,
        no_newline_in(no_newline_marker().drop_first().drop_last()),
{
    let m = no_newline_marker();
    assert(m.len() == 29);
    assert forall|i: int| 0 <= i < m.drop_first().drop_last().len() implies #[trigger] m.drop_first().drop_last()[i] != 10u8 by {
        assert(m.drop_first().drop_last()[i] == m[i + 1]);
    }
}

proof fn lemma_item_marked(conf: Conf, l: Seq<Seq<u8>>, n: Seq<Seq<u8>>, e: Edit)
    requires
        well_shaped(l),
        well_shaped(n),
        line_ok(e, l.len(), n.len()),
        plain_context(conf, l, n, e),
    ensures
        lines_marked(render_item(conf, l, n, e)),
{
    let r = render_item(conf, l, n, e);
    if e.kind == EditKind::Common {
        let a = l[e.old_index as int];
        assert(a.len() > 0 && no_newline_in(a.drop_last()));
        lemma_one_line(32u8, a);
    } else {
        let (c, lines, i) = if e.kind == EditKind::Removed {
            (45u8, l, e.old_index as int)
        } else {
            (43u8, n, e.new_index as int)
        };
        let line = lines[i];
        assert(line.len() > 0 && no_newline_in(line.drop_last()));
        lemma_one_line(c, line);
        if line.last() == 10u8 {
            assert(eof_marker(i as nat, lines) =~= Seq::<u8>::empty());
            assert(r =~= seq![c] + line);
        } else {
            let m = no_newline_marker();
            lemma_marker_bytes();
            assert(eof_marker(i as nat, lines) == m);
            assert(r =~= seq![c] + line + m);
            let t = seq![c] + line + m;
            assert(no_newline_in(line)) by {
                assert forall|k: int| 0 <= k < line.len() implies #[trigger] line[k] != 10u8 by {
                    if k < line.len() - 1 {
                        assert(line.drop_last()[k] == line[k]);
                    }
                }
            }
            assert forall|p: int| 0 <= p < t.len() && (p == 0 || t[p - 1] == 10u8) implies #[trigger] line_marker(t[p]) by {
                if p == 0 {
                } else if p <= line.len() {
                    assert(t[p - 1] == c || t[p - 1] == line[p - 2]);
                } else if p == line.len() + 1 {
                    assert(t[p - 1] == line[line.len() - 1]);
                } else if p == line.len() + 2 {
                    assert(t[p] == m[1]);
                } else {
                    let k = p - line.len() - 1;
                    assert(t[p - 1] == m[k - 1]);
                    assert(m.drop_first().drop_last()[k - 2] == m[k - 1]);
                }
            }
        }
    }
}

proof fn lemma_items_marked(conf: Conf, l: Seq<Seq<u8>>, n: Seq<Seq<u8>>, items: Seq<Edit>)
    requires
        well_shaped(l),
        well_shaped(n),
        within(items, l.len(), n.len()),
        forall|i: int| 0 <= i < items.len() ==> plain_context(conf, l, n, #[trigger] items[i]),
    ensures
        lines_marked(render_items(conf, l, n, items)),
    decreases items.len(),
{
    if items.len() > 0 {
        let pre = items.drop_last();
        assert(within(pre, l.len(), n.len())) by {
            assert forall|i: int| 0 <= i < pre.len() implies #[trigger] line_ok(pre[i], l.len(), n.len()) by {
                assert(line_ok(items[i], l.len(), n.len()));
            }
        }
        assert forall|i: int| 0 <= i < pre.len() implies plain_context(conf, l, n, #[trigger] pre[i]) by {
            assert(plain_context(conf, l, n, items[i]));
        }
        lemma_items_marked(conf, l, n, pre);
        assert(line_ok(items[items.len() - 1], l.len(), n.len()));
        assert(plain_context(conf, l, n, items[items.len() - 1]));
        lemma_item_marked(conf, l, n, items.last());
        lemma_marked_concat(render_items(conf, l, n, pre), render_item(conf, l, n, items.last()));
    }
}

proof fn lemma_hunks_marked(conf: Conf, l: Seq<Seq<u8>>, n: Seq<Seq<u8>>, hs: Seq<Seq<Edit>>)
    requires
        well_shaped(l),
        well_shaped(n),
        all_within(hs, l.len(), n.len()),
        forall|j: int, i: int| 0 <= j < hs.len() && 0 <= i < hs[j].len() ==> plain_context(conf, l, n, #[trigger] hs[j][i]),
    ensures
        lines_marked(render_hunks(conf, l, n, hs)),
    decreases hs.len(),
{
    if hs.len() > 0 {
        let pre = hs.drop_last();
        assert forall|j: int| 0 <= j < pre.len() implies within(#[trigger] pre[j], l.len(), n.len()) by {
            assert(within(hs[j], l.len(), n.len()));
        }
        assert forall|j: int, i: int| 0 <= j < pre.len() && 0 <= i < pre[j].len() implies plain_context(conf, l, n, #[trigger] pre[j][i]) by {
            assert(plain_context(conf, l, n, hs[j][i]));
        }
        lemma_hunks_marked(conf, l, n, pre);
        let h = hs.last();
        assert(within(hs[hs.len() - 1], l.len(), n.len()));
        assert forall|i: int| 0 <= i < h.len() implies plain_context(conf, l, n, #[trigger] h[i]) by {
            assert(plain_context(conf, l, n, hs[hs.len() - 1][i]));
        }
        lemma_header_marked(h);
        lemma_items_marked(conf, l, n, h);
        lemma_marked_concat(hunk_header(h), render_items(conf, l, n, h));
        lemma_marked_concat(render_hunks(conf, l, n, pre), render_hunk(conf, l, n, h));
    }
}

/// Every line of the output begins with ` `, `+`, `-`, `!`, `@` or `\`,
/// for files read as lines (each ending in its only newline, the last maybe
/// without one) where every context line is an exact match.
pub proof fn lemma_output_lines_marked(conf: Conf, l: Seq<Seq<u8>>, n: Seq<Seq<u8>>, script: Seq<DiffRecord>)
    requires
        is_script(script, l.len(), n.len()),
        well_shaped(l),
        well_shaped(n),
        all_sat(backfill(script), |e: Edit| plain_context(conf, l, n, e)),
    ensures
        lines_marked(diff_output(conf, l, n, script)),
{
    let edits = backfill(script);
    lemma_backfill_within(script, l.len(), n.len());
    lemma_hunks_within(conf.context as nat, edits, l.len(), n.len());
    let p = |e: Edit| plain_context(conf, l, n, e);
    lemma_hunks_keep(conf.context as nat, edits, p);
    let hs = hunks_of(conf.context as nat, edits);
    assert forall|j: int, i: int| 0 <= j < hs.len() && 0 <= i < hs[j].len() implies plain_context(conf, l, n, #[trigger] hs[j][i]) by {
        assert(all_sat(hs[j], p));
        assert(p(hs[j][i]));
    }
    lemma_hunks_marked(conf, l, n, hs);
}

proof fn lemma_side_concat(x: Seq<Edit>, y: Seq<Edit>, a: Seq<Seq<u8>>, b: Seq<Seq<u8>>, k: bool)
    ensures
        side_of(x + y, a, b, k) == side_of(x, a, b, k) + side_of(y, a, b, k),
    decreases y.len(),
{
    if y.len() == 0 {
        assert(x + y =~= x);
        assert(side_of(x, a, b, k) + Seq::<u8>::empty() =~= side_of(x, a, b, k));
    } else {
        lemma_side_concat(x, y.drop_last(), a, b, k);
        assert((x + y).drop_last() =~= x + y.drop_last());
        assert((x + y).last() == y.last());
        let e = y.last();
        let shown = if k { e.kind != EditKind::Removed } else { e.kind != EditKind::Added };
        let piece = if shown { atom_of(e, a, b) } else { Seq::<u8>::empty() };
        assert(side_of(x, a, b, k) + side_of(y.drop_last(), a, b, k) + piece
            =~= side_of(x, a, b, k) + (side_of(y.drop_last(), a, b, k) + piece));
    }
}

/// Every record is of the kind.
pub open spec fn all_of_kind(s: Seq<Edit>, k: EditKind) -> bool {
    forall|i: int| 0 <= i < s.len() ==> (#[trigger] s[i]).kind == k
}

proof fn lemma_added_show_nothing_old(s: Seq<Edit>, a: Seq<Seq<u8>>, b: Seq<Seq<u8>>)
    requires
        all_of_kind(s, EditKind::Added),
    ensures
        side_of(s, a, b, false) == Seq::<u8>::empty(),
    decreases s.len(),
{
    if s.len() > 0 {
        assert(all_of_kind(s.drop_last(), EditKind::Added)) by {
            assert forall|i: int| 0 <= i < s.drop_last().len() implies (#[trigger] s.drop_last()[i]).kind == EditKind::Added by {
                assert(s[i].kind == EditKind::Added);
            }
        }
        lemma_added_show_nothing_old(s.drop_last(), a, b);
        assert(s[s.len() - 1].kind == EditKind::Added);
        assert(Seq::<u8>::empty() + Seq::<u8>::empty() =~= Seq::<u8>::empty());
    }
}

/// The state that unbounded context keeps: no hunk is completed, every
/// record so far is held in the hunk or beside it, each side in its order,
/// and only commons were seen while the machine still waits for a change.
pub open spec fn keeps_all(st: FsmState, done: Seq<Seq<Edit>>, prefix: Seq<Edit>, a: Seq<Seq<u8>>, b: Seq<Seq<u8>>) -> bool {
    &&& done.len() == 0
    &&& load(st) == prefix.len()
    &&& match st.phase {
        Phase::CollectingCommonsTail(seen) => st.hunk.len() == 0 && st.held == prefix
            && all_of_kind(prefix, EditKind::Common) && seen == prefix.len(),
        Phase::CollectingAdds => all_of_kind(st.held, EditKind::Added),
        Phase::SequentialRemoves => all_of_kind(st.held, EditKind::Added),
        Phase::CollectingCommonsCorked => true,
    }
    &&& !(st.phase is CollectingCommonsTail) ==> side_of(st.hunk + st.held, a, b, false) == side_of(prefix, a, b, false)
        && side_of(st.hunk + st.held, a, b, true) == side_of(prefix, a, b, true)
}

proof fn lemma_run_unbounded(edits: Seq<Edit>, a: Seq<Seq<u8>>, b: Seq<Seq<u8>>)
    requires
        edits.len() < usize::MAX,
    ensures
        keeps_all(run(usize::MAX as nat, edits).0, run(usize::MAX as nat, edits).1, edits, a, b),
    decreases edits.len(),
{
    let ctx = usize::MAX as nat;
    if edits.len() == 0 {
        assert(all_of_kind(edits, EditKind::Common));
        assert(edits =~= Seq::<Edit>::empty());
        assert(initial(ctx).held =~= edits);
    } else {
        let pre = edits.drop_last();
        let d = edits.last();
        lemma_run_unbounded(pre, a, b);
        let (st, hs) = run(ctx, pre);
        let (st2, done) = step(ctx, st, d);
        assert(edits =~= pre.push(d));
        assert(done.len() == 0);
        assert(push_hunk(hs, done) == hs);
        let one = seq![d];
        assert(one[0] == d);
        assert(one.drop_last() =~= Seq::<Edit>::empty());
        assert(pre.push(d) =~= pre + one);
        lemma_side_concat(pre, one, a, b, false);
        lemma_side_concat(pre, one, a, b, true);
        let kept = st.hunk + st.held;
        let kept2 = st2.hunk + st2.held;
        lemma_side_concat(kept, one, a, b, false);
        lemma_side_concat(kept, one, a, b, true);
        match st.phase {
            Phase::CollectingCommonsTail(seen) => {
                assert(kept =~= pre);
                if d.kind == EditKind::Common {
                    assert(all_of_kind(pre.push(d), EditKind::Common)) by {
                        assert forall|i: int| 0 <= i < pre.push(d).len() implies (#[trigger] pre.push(d)[i]).kind == EditKind::Common by {
                            if i < pre.len() {
                                assert(pre[i].kind == EditKind::Common);
                            }
                        }
                    }
                    assert(st2.held =~= pre.push(d));
                } else if d.kind == EditKind::Added {
                    assert(kept2 =~= pre + one);
                    assert(all_of_kind(st2.held, EditKind::Added));
                } else {
                    assert(kept2 =~= pre + one);
                    assert(all_of_kind(st2.held, EditKind::Added));
                }
            },
            Phase::CollectingCommonsCorked => {
                assert(kept2 =~= kept + one);
                if d.kind != EditKind::Common {
                    assert(all_of_kind(st2.held, EditKind::Added));
                }
            },
            _ => {
                if d.kind == EditKind::Removed {
                    assert(kept2 =~= st.hunk.push(d) + st.held);
                    assert(st.hunk.push(d) =~= st.hunk + one);
                    lemma_side_concat(st.hunk.push(d), st.held, a, b, false);
                    lemma_side_concat(st.hunk.push(d), st.held, a, b, true);
                    lemma_side_concat(st.hunk, one, a, b, false);
                    lemma_side_concat(st.hunk, one, a, b, true);
                    lemma_side_concat(st.hunk, st.held, a, b, false);
                    lemma_side_concat(st.hunk, st.held, a, b, true);
                    lemma_added_show_nothing_old(st.held, a, b);
                    assert(side_of(one, a, b, true) =~= Seq::<u8>::empty());
                    assert(side_of(st.hunk, a, b, false) + side_of(one, a, b, false) + Seq::<u8>::empty()
                        =~= side_of(st.hunk, a, b, false) + Seq::<u8>::empty() + side_of(one, a, b, false));
                    assert(side_of(st.hunk, a, b, true) + Seq::<u8>::empty() + side_of(st.held, a, b, true)
                        =~= side_of(st.hunk, a, b, true) + side_of(st.held, a, b, true) + Seq::<u8>::empty());
                } else if d.kind == EditKind::Added && st.phase is CollectingAdds {
                    assert(kept2 =~= kept + one);
                    assert(all_of_kind(st2.held, EditKind::Added)) by {
                        assert forall|i: int| 0 <= i < st2.held.len() implies (#[trigger] st2.held[i]).kind == EditKind::Added by {
                            if i < st.held.len() {
                                assert(st.held[i].kind == EditKind::Added);
                            }
                        }
                    }
                } else {
                    assert(kept2 =~= kept + one);
                    if d.kind == EditKind::Added {
                        assert(all_of_kind(st2.held, EditKind::Added));
                    }
                }
            },
        }
    }
}

/// With unbounded context, a script that holds a change gives one hunk that
/// shows each side's records in their order.
pub proof fn lemma_unbounded_single_hunk(edits: Seq<Edit>, a: Seq<Seq<u8>>, b: Seq<Seq<u8>>)
    requires
        edits.len() < usize::MAX,
        exists|i: int| 0 <= i < edits.len() && (#[trigger] edits[i]).kind != EditKind::Common,
    ensures
        hunks_of(usize::MAX as nat, edits).len() == 1,
        side_of(hunks_of(usize::MAX as nat, edits)[0], a, b, false) == side_of(edits, a, b, false),
        side_of(hunks_of(usize::MAX as nat, edits)[0], a, b, true) == side_of(edits, a, b, true),
{
    lemma_run_unbounded(edits, a, b);
    let (st, hs) = run(usize::MAX as nat, edits);
    let i = choose|i: int| 0 <= i < edits.len() && (#[trigger] edits[i]).kind != EditKind::Common;
    if st.phase is CollectingCommonsTail {
        assert(edits[i].kind == EditKind::Common);
    }
    assert(finish(st) == st.hunk + st.held);
    assert(hunks_of(usize::MAX as nat, edits) =~= seq![st.hunk + st.held]);
}

proof fn lemma_rec_counts_bounded(r: Seq<DiffRecord>)
    ensures
        rec_old_count(r) <= r.len(),
        rec_new_count(r) <= r.len(),
    decreases r.len(),
{
    if r.len() > 0 {
        lemma_rec_counts_bounded(r.drop_last());
    }
}

/// The records of a script show, on each side, that side's items in order.
proof fn lemma_backfill_sides(r: Seq<DiffRecord>, a: Seq<Seq<u8>>, b: Seq<Seq<u8>>, i: int)
    requires
        r.len() < usize::MAX,
        is_script(r, a.len(), b.len()),
        commons_pair_equal(r, a, b),
        0 <= i <= r.len(),
    ensures
        side_of(backfill(r).take(i), a, b, false) == concat(a.take(rec_old_count(r.take(i)) as int)),
        side_of(backfill(r).take(i), a, b, true) == concat(b.take(rec_new_count(r.take(i)) as int)),
    decreases i,
{
    if i == 0 {
        assert(backfill(r).take(0) =~= Seq::<Edit>::empty());
        assert(r.take(0) =~= Seq::<DiffRecord>::empty());
        assert(a.take(0) =~= Seq::<Seq<u8>>::empty());
        assert(b.take(0) =~= Seq::<Seq<u8>>::empty());
    } else {
        lemma_backfill_sides(r, a, b, i - 1);
        lemma_counts_prefix(r, i);
        lemma_counts_prefix(r, i - 1);
        lemma_rec_counts_bounded(r);
        assert(r.take(i).drop_last() =~= r.take(i - 1));
        assert(backfill(r).take(i).drop_last() =~= backfill(r).take(i - 1));
        let e = backfill(r)[i - 1];
        assert(backfill(r).take(i).last() == e);
        let o = rec_old_count(r.take(i - 1));
        let n = rec_new_count(r.take(i - 1));
        assert(placed_at(r[i - 1], o, n));
        assert(e.old_index == o && e.new_index == n);
        if advances_old(e.kind) {
            assert(a.take(o as int + 1).drop_last() =~= a.take(o as int));
        }
        if advances_new(e.kind) {
            assert(b.take(n as int + 1).drop_last() =~= b.take(n as int));
        }
        if e.kind == EditKind::Common {
            assert(a[o as int] == b[n as int]);
        }
    }
}

/// The byte atoms of a line, laid end to end, give back the line.
pub proof fn lemma_char_tokens_concat(line: Seq<u8>)
    ensures
        concat(tokens_of(ContextLineTokenization::Char, line)) == line,
{
    lemma_char_prefix(line, line.len() as int);
    assert(line.take(line.len() as int) =~= line);
    assert(tokens_of(ContextLineTokenization::Char, line) =~= Seq::new(line.len(), |i: int| seq![line[i]]));
}

proof fn lemma_char_prefix(line: Seq<u8>, k: int)
    requires
        0 <= k <= line.len(),
    ensures
        concat(Seq::new(k as nat, |i: int| seq![line[i]])) == line.take(k),
    decreases k,
{
    let t = Seq::new(k as nat, |i: int| seq![line[i]]);
    if k == 0 {
        assert(line.take(0) =~= Seq::<u8>::empty());
    } else {
        lemma_char_prefix(line, k - 1);
        assert(t.drop_last() =~= Seq::new((k - 1) as nat, |i: int| seq![line[i]]));
        assert(line.take(k) =~= line.take(k - 1) + seq![line[k - 1]]);
    }
}

/// Word-diff undoes itself on whole lines: the rendering of two lines that
/// differ is one hunk's blocks of same-kind atoms, neighbouring blocks differ
/// in kind, and dropping every `{+…}` block while unwrapping every `{-…}`
/// block gives back the old line; the dual gives back the new one. This
/// holds for any script of the lines' atoms that holds a change, where each
/// line's atoms laid end to end give the line.
pub proof fn lemma_wdiff_line_inverse(conf: Conf, a: Seq<u8>, b: Seq<u8>, script: Seq<DiffRecord>)
    requires
        conf.context_format == ContextLineFormat::Wdiff,
        is_script(script, tokens_of(conf.context_tokenization, a).len(), tokens_of(conf.context_tokenization, b).len()),
        commons_pair_equal(script, tokens_of(conf.context_tokenization, a), tokens_of(conf.context_tokenization, b)),
        has_change(script),
        script.len() < usize::MAX,
        concat(tokens_of(conf.context_tokenization, a)) == a,
        concat(tokens_of(conf.context_tokenization, b)) == b,
    ensures
        ({
            let ta = tokens_of(conf.context_tokenization, a);
            let tb = tokens_of(conf.context_tokenization, b);
            let hs = hunks_of(usize::MAX as nat, backfill(script));
            let gs = wdiff_groups(hs[0], ta, tb);
            &&& hs.len() == 1
            &&& intra_render_all(conf, a, b, hs) == render_groups(gs)
            &&& kinds_alternate(gs)
            &&& group_side(gs, false) == a
            &&& group_side(gs, true) == b
        }),
{
    let ta = tokens_of(conf.context_tokenization, a);
    let tb = tokens_of(conf.context_tokenization, b);
    let edits = backfill(script);
    let i = choose|i: int| 0 <= i < script.len() && script[i].kind != EditKind::Common;
    assert(edits[i].kind != EditKind::Common);
    lemma_unbounded_single_hunk(edits, ta, tb);
    let hs = hunks_of(usize::MAX as nat, edits);
    let h = hs[0];
    assert(hs.drop_last() =~= Seq::<Seq<Edit>>::empty());
    assert(hs.last() == h);
    assert(intra_render_all(conf, a, b, hs.drop_last()) == Seq::<u8>::empty());
    assert(intra_render_all(conf, a, b, hs) =~= intra_render(conf, a, b, h));
    lemma_backfill_sides(script, ta, tb, script.len() as int);
    assert(edits.take(script.len() as int) =~= edits);
    assert(script.take(script.len() as int) =~= script);
    assert(ta.take(ta.len() as int) =~= ta);
    assert(tb.take(tb.len() as int) =~= tb);
    lemma_wdiff_groups(h, ta, tb);
}

proof fn lemma_rec_old_count_monotonic(r: Seq<DiffRecord>, i: int, j: int)
    requires
        0 <= i <= j <= r.len(),
    ensures
        rec_old_count(r.take(i)) <= rec_old_count(r.take(j)),
        rec_new_count(r.take(i)) <= rec_new_count(r.take(j)),
    decreases j - i,
{
    if i < j {
        lemma_rec_old_count_monotonic(r, i, j - 1);
        assert(r.take(j).drop_last() =~= r.take(j - 1));
    }
}

/// Two records of a script that both advance the old side have different old
/// indices, and likewise for the new side.
proof fn lemma_backfill_distinct(r: Seq<DiffRecord>, i: int, j: int)
    requires
        0 <= i < j < r.len(),
    ensures
        advances_old(r[i].kind) ==> rec_old_count(r.take(i)) < rec_old_count(r.take(j)),
        advances_new(r[i].kind) ==> rec_new_count(r.take(i)) < rec_new_count(r.take(j)),
{
    assert(r.take(i + 1).drop_last() =~= r.take(i));
    lemma_rec_old_count_monotonic(r, i + 1, j);
}

/// Comparing lines as they are (no selector), the no-newline marker follows
/// the record of the old file's last line exactly when that line lacks its
/// newline and either the new file's last line has one, or both lack it and
/// the two last lines are written as a removal and an addition; the same
/// holds with the sides swapped.
pub proof fn lemma_marker_two_sided(l: Seq<Seq<u8>>, n: Seq<Seq<u8>>, script: Seq<DiffRecord>, i: int, j: int)
    requires
        is_script(script, l.len(), n.len()),
        commons_pair_equal(script, l, n),
        well_shaped(l),
        well_shaped(n),
        l.len() <= usize::MAX,
        n.len() <= usize::MAX,
        0 <= i < script.len(),
        0 <= j < script.len(),
        advances_old(script[i].kind) && backfill(script)[i].old_index == l.len() - 1,
        advances_new(script[j].kind) && backfill(script)[j].new_index == n.len() - 1,
    ensures
        ({
            let ei = backfill(script)[i];
            let ej = backfill(script)[j];
            let lo = lacks_newline(l.last());
            let ln = lacks_newline(n.last());
            &&& (ei.kind == EditKind::Removed && lo) <==> ((lo && !ln) || (lo && ln && ei.kind
                == EditKind::Removed && ej.kind == EditKind::Added))
            &&& (ej.kind == EditKind::Added && ln) <==> ((ln && !lo) || (lo && ln && ei.kind
                == EditKind::Removed && ej.kind == EditKind::Added))
        }),
{
    let e = backfill(script);
    let ei = e[i];
    let ej = e[j];
    lemma_counts_prefix(script, i);
    lemma_counts_prefix(script, j);
    lemma_rec_counts_bounded(script);
    assert(placed_at(script[i], rec_old_count(script.take(i)), rec_new_count(script.take(i))));
    assert(placed_at(script[j], rec_old_count(script.take(j)), rec_new_count(script.take(j))));
    // A common record pairs equal lines; a line without a newline is its file's last.
    if ei.kind == EditKind::Common {
        let m = ei.new_index as int;
        assert(l[l.len() - 1] == n[m]);
        lemma_backfill_within(script, l.len(), n.len());
        assert(line_ok(e[i], l.len(), n.len()));
        if lacks_newline(l.last()) && m != n.len() - 1 {
            assert(n[m].len() > 0 && n[m].last() == 10u8);
        }
        if lacks_newline(l.last()) {
            assert(m == n.len() - 1);
            if i != j {
                if i < j {
                    lemma_backfill_distinct(script, i, j);
                } else {
                    lemma_backfill_distinct(script, j, i);
                }
            }
        }
    }
    if ej.kind == EditKind::Common {
        let m = ej.old_index as int;
        assert(n[n.len() - 1] == l[m]);
        lemma_backfill_within(script, l.len(), n.len());
        assert(line_ok(e[j], l.len(), n.len()));
        if lacks_newline(n.last()) && m != l.len() - 1 {
            assert(l[m].len() > 0 && l[m].last() == 10u8);
        }
        if lacks_newline(n.last()) {
            assert(m == l.len() - 1);
            if i != j {
                if i < j {
                    lemma_backfill_distinct(script, i, j);
                } else {
                    lemma_backfill_distinct(script, j, i);
                }
            }
        }
    }
}

} // verus!
