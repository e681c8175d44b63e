//! The concurrency scheduler: which candidate may start next, given a cap on
//! the searches that run at the same time.
//!
//! The scheduler runs nothing itself. Its caller asks for the next action,
//! starts the search it is handed, and reports each search that ends; the
//! scheduler decides admission and keeps the outcomes in the order in which
//! they were reported.

use crate::error::GrepError;
use crate::permutation::{lemma_map_of_permutation, lemma_same_members_same_multiset};
use crate::positions::positions;
use vstd::prelude::*;

verus! {

/// One finished search: the ticket under which it ran, and what it returned.
pub struct Completion<R> {
    pub ticket: int,
    pub outcome: R,
}

/// The state of a run, as the contracts see it.
pub struct Run<T, R> {
    /// The most searches that may be in flight at once.
    pub cap: nat,
    /// The candidates in the order given. Ticket `i` stands for `candidates[i]`.
    pub candidates: Seq<T>,
    /// How many candidates were handed out: the tickets below this number.
    pub dispatched: nat,
    /// The tickets handed out and not yet reported back.
    pub in_flight: Seq<int>,
    /// The searches reported back, in the order of the reports.
    pub completed: Seq<Completion<R>>,
}

/// What the caller of a scheduler does next.
#[derive(Debug, PartialEq, Eq)]
pub enum Action<T> {
    /// Start the search of `candidate`, and report its end under `ticket`.
    Dispatch { ticket: usize, candidate: T },
    /// Every slot is taken, or nothing is left to start: wait for a search
    /// that is in flight and report it.
    Wait,
    /// Every candidate was searched and reported.
    Finished,
}

/// What may happen to a run.
pub enum Event<R> {
    /// The caller asks for the next action.
    Ask,
    /// The caller reports the end of the search that ran under `ticket`.
    Report { ticket: int, outcome: R },
}

impl<T, R> Run<T, R> {
    /// A run before anything was handed out.
    pub open spec fn start(candidates: Seq<T>, cap: nat) -> Self {
        Run { cap, candidates, dispatched: 0, in_flight: Seq::empty(), completed: Seq::empty() }
    }

    /// The tickets of the completed searches, in the order of the reports.
    pub open spec fn completed_tickets(self) -> Seq<int> {
        self.completed.map_values(|done: Completion<R>| done.ticket)
    }

    /// The outcomes of the completed searches, in the order of the reports.
    pub open spec fn outcomes(self) -> Seq<R> {
        self.completed.map_values(|done: Completion<R>| done.outcome)
    }

    /// What holds of every run: the cap is positive and never exceeded, and
    /// each ticket handed out is either in flight or completed, never both and
    /// never twice.
    pub open spec fn well_formed(self) -> bool {
        &&& self.cap >= 1
        &&& self.in_flight.len() <= self.cap
        &&& self.dispatched <= self.candidates.len()
        &&& self.in_flight.len() + self.completed.len() == self.dispatched
        &&& (self.in_flight + self.completed_tickets()).no_duplicates()
        &&& forall|ticket: int|
            0 <= ticket < self.dispatched <==> #[trigger] (self.in_flight
                + self.completed_tickets()).contains(ticket)
    }

    /// A slot is free and a candidate is left to start.
    pub open spec fn can_dispatch(self) -> bool {
        self.in_flight.len() < self.cap && self.dispatched < self.candidates.len()
    }

    /// The run after the next candidate was handed out.
    pub open spec fn dispatch(self) -> Self {
        Run {
            dispatched: self.dispatched + 1,
            in_flight: self.in_flight.push(self.dispatched as int),
            ..self
        }
    }

    /// The run after the search under `ticket` was reported with `outcome`.
    pub open spec fn complete(self, ticket: int, outcome: R) -> Self {
        Run {
            in_flight: self.in_flight.remove(self.in_flight.index_of(ticket)),
            completed: self.completed.push(Completion { ticket, outcome }),
            ..self
        }
    }

    /// What the search under `ticket` returned; meaningful once it was
    /// reported.
    pub open spec fn outcome_under(self, ticket: int) -> R {
        self.completed[self.completed_tickets().index_of(ticket)].outcome
    }

    /// The outcomes in candidate order: that of the first candidate first.
    /// Meaningful in a finished run.
    pub open spec fn outcomes_by_candidate(self) -> Seq<R> {
        Seq::new(self.candidates.len(), |ticket: int| self.outcome_under(ticket))
    }

    /// Every candidate was handed out and reported back.
    pub open spec fn is_finished(self) -> bool {
        self.dispatched == self.candidates.len() && self.in_flight.len() == 0
    }

    /// The run after one event. A candidate is handed out only into a free
    /// slot, and a report counts only for a ticket that is in flight.
    pub open spec fn after(self, event: Event<R>) -> Self {
        match event {
            Event::Ask => if self.can_dispatch() {
                self.dispatch()
            } else {
                self
            },
            Event::Report { ticket, outcome } => if self.in_flight.contains(ticket) {
                self.complete(ticket, outcome)
            } else {
                self
            },
        }
    }

    /// The run after a sequence of events.
    pub open spec fn after_all(self, events: Seq<Event<R>>) -> Self
        decreases events.len(),
    {
        if events.len() == 0 {
            self
        } else {
            self.after_all(events.drop_last()).after(events.last())
        }
    }
}

/// The concurrency cap of a run, from the number of threads asked for. Zero is
/// refused: a run needs at least one slot.
pub fn concurrency_cap(threads: u32) -> (cap: Result<usize, GrepError>)
    ensures
        threads == 0 <==> cap is Err,
        cap matches Err(error) ==> error == GrepError::Configuration,
        cap matches Ok(slots) ==> slots == threads,
{
    if threads == 0 {
        Err(GrepError::Configuration)
    } else {
        Ok(threads as usize)
    }
}

/// A run under a cap: the candidates still to start, the tickets in flight,
/// and the outcomes reported so far.
pub struct Scheduler<T, R> {
    cap: usize,
    /// The candidates not yet handed out, the next one last.
    pending: Vec<T>,
    all: Ghost<Seq<T>>,
    dispatched: usize,
    in_flight: Vec<usize>,
    finished: Vec<usize>,
    outcomes: Vec<R>,
}

/// The tickets of a list, as numbers.
pub open spec fn as_tickets(list: Seq<usize>) -> Seq<int> {
    list.map_values(|ticket: usize| ticket as int)
}

impl<T, R> View for Scheduler<T, R> {
    type V = Run<T, R>;

    closed spec fn view(&self) -> Run<T, R> {
        Run {
            cap: self.cap as nat,
            candidates: self.all@,
            dispatched: self.dispatched as nat,
            in_flight: as_tickets(self.in_flight@),
            completed: Seq::new(
                self.outcomes@.len(),
                |k: int| Completion { ticket: self.finished@[k] as int, outcome: self.outcomes@[k] },
            ),
        }
    }
}

impl<T, R> Scheduler<T, R> {
    /// The candidates kept are those not yet handed out, every outcome kept
    /// has its ticket, and the run is well formed.
    pub closed spec fn well_formed(&self) -> bool {
        &&& self.finished@.len() == self.outcomes@.len()
        &&& self.dispatched <= self.all@.len() <= usize::MAX
        &&& self.pending@ == self.all@.subrange(
            self.dispatched as int,
            self.all@.len() as int,
        ).reverse()
        &&& self@.well_formed()
    }

    /// In a well-formed scheduler no more searches are in flight than the cap
    /// allows, and the cap is at least one.
    pub proof fn lemma_cap_respected(&self)
        requires
            self.well_formed(),
        ensures
            self@.well_formed(),
            1 <= self@.cap,
            self@.in_flight.len() <= self@.cap,
    {
    }

    /// A scheduler for `candidates` under `cap`. A cap of zero is refused
    /// before anything is handed out.
    pub fn new(candidates: Vec<T>, cap: usize) -> (made: Result<Self, GrepError>)
        ensures
            cap == 0 <==> made is Err,
            made matches Err(error) ==> error == GrepError::Configuration,
            made matches Ok(scheduler) ==> scheduler.well_formed() && scheduler@ == Run::<T, R>::start(
                candidates@,
                cap as nat,
            ),
    {
        if cap == 0 {
            return Err(GrepError::Configuration);
        }
        let ghost all = candidates@;
        let total: usize = candidates.len();
        let mut rest = candidates;
        let mut pending: Vec<T> = Vec::new();
        while rest.len() > 0
            invariant
                rest@ == all.take(rest@.len() as int),
                rest@.len() <= all.len(),
                pending@ == all.subrange(rest@.len() as int, all.len() as int).reverse(),
            decreases rest@.len(),
        {
            let next = rest.pop().unwrap();
            pending.push(next);
            assert(pending@ =~= all.subrange(rest@.len() as int, all.len() as int).reverse());
        }
        let scheduler = Scheduler {
            cap,
            pending,
            all: Ghost(all),
            dispatched: 0,
            in_flight: Vec::new(),
            finished: Vec::new(),
            outcomes: Vec::new(),
        };
        proof {
            let run = scheduler@;
            assert(run.in_flight =~= Seq::<int>::empty());
            assert(run.completed =~= Seq::<Completion<R>>::empty());
            assert(run.completed_tickets() =~= Seq::<int>::empty());
            assert(run.in_flight + run.completed_tickets() =~= Seq::<int>::empty());
            assert(all.subrange(0, all.len() as int) =~= all);
            assert(all.len() == total);
            assert(run == Run::<T, R>::start(all, cap as nat));
        }
        Ok(scheduler)
    }

    /// The cap this scheduler was made with.
    pub fn cap(&self) -> (cap: usize)
        ensures
            cap == self@.cap,
    {
        self.cap
    }

    /// How many searches are in flight.
    pub fn in_flight(&self) -> (count: usize)
        ensures
            count == self@.in_flight.len(),
    {
        self.in_flight.len()
    }

    /// Whether every candidate was searched and reported.
    pub fn is_finished(&self) -> (finished: bool)
        requires
            self.well_formed(),
        ensures
            finished == self@.is_finished(),
    {
        self.pending.len() == 0 && self.in_flight.len() == 0
    }

    /// What the caller does next. While a slot is free and a candidate is
    /// left, the next candidate is handed out, in the order given, and counts
    /// as in flight from then on. Otherwise the caller waits for a search in
    /// flight, or is done when there is none.
    pub fn next_action(&mut self) -> (action: Action<T>)
        requires
            old(self).well_formed(),
        ensures
            final(self).well_formed(),
            final(self)@ == old(self)@.after(Event::Ask),
            match action {
                Action::Dispatch { ticket, candidate } => {
                    &&& old(self)@.can_dispatch()
                    &&& ticket == old(self)@.dispatched
                    &&& candidate == old(self)@.candidates[ticket as int]
                },
                Action::Wait => !old(self)@.can_dispatch() && old(self)@.in_flight.len() > 0,
                Action::Finished => old(self)@.is_finished(),
            },
    {
        if self.in_flight.len() < self.cap && self.pending.len() > 0 {
            let ghost before = self@;
            let ticket = self.dispatched;
            let candidate = self.pending.pop().unwrap();
            self.in_flight.push(ticket);
            self.dispatched = ticket + 1;
            proof {
                let after = self@;
                assert(after.in_flight =~= before.in_flight.push(ticket as int));
                assert(after.completed =~= before.completed);
                assert(after == before.dispatch());
                assert(self.pending@ =~= self.all@.subrange(
                    self.dispatched as int,
                    self.all@.len() as int,
                ).reverse());
                lemma_dispatch_keeps_well_formed(before);
            }
            Action::Dispatch { ticket, candidate }
        } else if self.in_flight.len() > 0 {
            Action::Wait
        } else {
            Action::Finished
        }
    }

    /// Reports the end of the search that ran under `ticket`. The report is
    /// accepted if that ticket is in flight: its slot is then free again and
    /// the outcome is kept behind those reported before. Any other report is
    /// refused and changes nothing.
    pub fn complete(&mut self, ticket: usize, outcome: R) -> (accepted: bool)
        requires
            old(self).well_formed(),
        ensures
            final(self).well_formed(),
            accepted == old(self)@.in_flight.contains(ticket as int),
            final(self)@ == old(self)@.after(Event::Report { ticket: ticket as int, outcome }),
    {
        let ghost before = self@;
        let mut slot: usize = 0;
        while slot < self.in_flight.len() && self.in_flight[slot] != ticket
            invariant
                slot <= self.in_flight@.len(),
                *self == *old(self),
                forall|k: int| 0 <= k < slot ==> self.in_flight@[k] != ticket,
            decreases self.in_flight@.len() - slot,
        {
            slot += 1;
        }
        if slot < self.in_flight.len() {
            proof {
                assert(before.in_flight[slot as int] == ticket as int);
                assert(before.in_flight.no_duplicates()) by {
                    lemma_parts_have_no_duplicates(before.in_flight, before.completed_tickets());
                }
                assert(before.in_flight.index_of(ticket as int) == slot);
            }
            self.in_flight.remove(slot);
            self.finished.push(ticket);
            self.outcomes.push(outcome);
            proof {
                let after = self@;
                assert(after.in_flight =~= before.in_flight.remove(slot as int));
                assert(after.completed =~= before.completed.push(
                    Completion { ticket: ticket as int, outcome },
                ));
                assert(after == before.complete(ticket as int, outcome));
                lemma_complete_keeps_well_formed(before, ticket as int, outcome);
            }
            true
        } else {
            proof {
                assert(!before.in_flight.contains(ticket as int));
            }
            false
        }
    }

    /// The outcomes of a finished run in candidate order, whatever the order
    /// in which the searches ended; `None` while the run is not finished.
    pub fn into_outcomes_by_candidate(self) -> (ordered: Option<Vec<R>>)
        requires
            self.well_formed(),
        ensures
            ordered is Some <==> self@.is_finished(),
            ordered matches Some(outcomes) ==> outcomes@ == self@.outcomes_by_candidate(),
    {
        if self.pending.len() > 0 || self.in_flight.len() > 0 {
            return None;
        }
        let ghost run = self@;
        let ghost tickets = run.completed_tickets();
        let count: usize = self.outcomes.len();
        let mut finished = self.finished;
        let mut outcomes = self.outcomes;
        proof {
            assert(run.in_flight + tickets =~= tickets);
            assert(tickets =~= as_tickets(finished@));
            assert forall|k: int| 0 <= k < count implies 0 <= #[trigger] tickets[k] < count by {
                assert(tickets.contains(tickets[k]));
            }
        }
        let mut slots: Vec<Option<R>> = Vec::new();
        while slots.len() < count
            invariant
                slots@.len() <= count,
                forall|t: int| 0 <= t < slots@.len() ==> slots@[t] is None,
            decreases count - slots@.len(),
        {
            slots.push(None);
        }
        while outcomes.len() > 0
            invariant
                slots@.len() == count,
                finished@.len() == outcomes@.len(),
                outcomes@.len() <= count,
                run.completed.len() == count,
                tickets == run.completed_tickets(),
                tickets.no_duplicates(),
                forall|k: int| 0 <= k < count ==> 0 <= #[trigger] tickets[k] < count,
                forall|k: int|
                    0 <= k < outcomes@.len() ==> #[trigger] finished@[k] as int == tickets[k]
                        && outcomes@[k] == run.completed[k].outcome,
                forall|k: int|
                    outcomes@.len() <= k < count ==> slots@[#[trigger] tickets[k]] == Some(
                        run.completed[k].outcome,
                    ),
            decreases outcomes@.len(),
        {
            let ghost last = outcomes@.len() - 1;
            let outcome = outcomes.pop().unwrap();
            let ticket = finished.pop().unwrap();
            assert(ticket as int == tickets[last]);
            let ghost before = slots@;
            slots.set(ticket, Some(outcome));
            assert forall|k: int| outcomes@.len() <= k < count implies slots@[#[trigger] tickets[k]]
                == Some(run.completed[k].outcome) by {
                if k != last {
                    assert(tickets[k] != tickets[last]);
                    assert(before[tickets[k]] == Some(run.completed[k].outcome));
                }
            }
        }
        proof {
            assert forall|t: int| 0 <= t < count implies #[trigger] slots@[t] == Some(
                run.outcome_under(t),
            ) by {
                assert(tickets.contains(t));
                let k = tickets.index_of(t);
                assert(0 <= k < count && tickets[k] == t);
                assert(slots@[tickets[k]] == Some(run.completed[k].outcome));
            }
        }
        let ghost filled = slots@;
        let mut ordered: Vec<R> = Vec::new();
        for slot in it: slots
            invariant
                it.seq() == filled,
                filled.len() == count,
                count == run.candidates.len(),
                forall|t: int| 0 <= t < count ==> #[trigger] filled[t] == Some(run.outcome_under(t)),
                ordered@.len() == it.index(),
                forall|t: int| 0 <= t < ordered@.len() ==> ordered@[t] == run.outcome_under(t),
        {
            assert(slot == filled[it.index()]);
            ordered.push(slot.unwrap());
        }
        assert(ordered@ =~= run.outcomes_by_candidate());
        Some(ordered)
    }

    /// The outcomes reported so far, in the order of the reports.
    pub fn into_outcomes(self) -> (outcomes: Vec<R>)
        requires
            self.well_formed(),
        ensures
            outcomes@ == self@.outcomes(),
    {
        assert(self.outcomes@ =~= self@.outcomes());
        self.outcomes
    }
}

/// Two lists that hold no ticket twice between them hold none twice each.
proof fn lemma_parts_have_no_duplicates(front: Seq<int>, back: Seq<int>)
    requires
        (front + back).no_duplicates(),
    ensures
        front.no_duplicates(),
        back.no_duplicates(),
        forall|j: int, k: int|
            0 <= j < front.len() && 0 <= k < back.len() ==> front[j] != back[k],
{
    let both = front + back;
    assert forall|j: int, k: int| 0 <= j < front.len() && 0 <= k < front.len() && j != k implies front[j]
        != front[k] by {
        assert(both[j] == front[j] && both[k] == front[k]);
    }
    assert forall|j: int, k: int| 0 <= j < back.len() && 0 <= k < back.len() && j != k implies back[j]
        != back[k] by {
        assert(both[front.len() + j] == back[j] && both[front.len() + k] == back[k]);
    }
    assert forall|j: int, k: int| 0 <= j < front.len() && 0 <= k < back.len() implies front[j]
        != back[k] by {
        assert(both[j] == front[j] && both[front.len() + k] == back[k]);
    }
}

/// Handing out a candidate into a free slot keeps the run well formed.
pub proof fn lemma_dispatch_keeps_well_formed<T, R>(run: Run<T, R>)
    requires
        run.well_formed(),
        run.can_dispatch(),
    ensures
        run.dispatch().well_formed(),
{
    let next = run.dispatch();
    let ticket = run.dispatched as int;
    let old_all = run.in_flight + run.completed_tickets();
    let new_all = next.in_flight + next.completed_tickets();
    assert(next.completed_tickets() == run.completed_tickets());
    assert(!old_all.contains(ticket));
    assert(new_all.len() == old_all.len() + 1);
    assert forall|k: int| 0 <= k < new_all.len() implies #[trigger] new_all[k] == (if k
        < run.in_flight.len() {
        old_all[k]
    } else if k == run.in_flight.len() {
        ticket
    } else {
        old_all[k - 1]
    }) by {}
    assert forall|j: int, k: int| 0 <= j < new_all.len() && 0 <= k < new_all.len() && j
        != k implies new_all[j] != new_all[k] by {
        let from = |k: int| if k < run.in_flight.len() { k } else { k - 1 };
        if j == run.in_flight.len() {
            assert(old_all[from(k)] == new_all[k]);
        } else if k == run.in_flight.len() {
            assert(old_all[from(j)] == new_all[j]);
        } else {
            assert(old_all[from(j)] == new_all[j] && old_all[from(k)] == new_all[k]);
        }
    }
    assert forall|t: int| 0 <= t < next.dispatched <==> #[trigger] new_all.contains(t) by {
        if 0 <= t < run.dispatched {
            assert(old_all.contains(t));
            let k = choose|k: int| 0 <= k < old_all.len() && old_all[k] == t;
            let to = if k < run.in_flight.len() { k } else { k + 1 };
            assert(new_all[to] == t);
        } else if t == ticket {
            assert(new_all[run.in_flight.len() as int] == t);
        }
        if new_all.contains(t) {
            let k = choose|k: int| 0 <= k < new_all.len() && new_all[k] == t;
            if k != run.in_flight.len() {
                let from = if k < run.in_flight.len() { k } else { k - 1 };
                assert(old_all[from] == t);
                assert(old_all.contains(t));
            }
        }
    }
}

/// Reporting a search that is in flight keeps the run well formed.
pub proof fn lemma_complete_keeps_well_formed<T, R>(run: Run<T, R>, ticket: int, outcome: R)
    requires
        run.well_formed(),
        run.in_flight.contains(ticket),
    ensures
        run.complete(ticket, outcome).well_formed(),
{
    let next = run.complete(ticket, outcome);
    let slot = run.in_flight.index_of(ticket);
    let old_all = run.in_flight + run.completed_tickets();
    let new_all = next.in_flight + next.completed_tickets();
    assert(0 <= slot < run.in_flight.len() && run.in_flight[slot] == ticket);
    assert(next.completed_tickets() =~= run.completed_tickets().push(ticket));
    assert(new_all.len() == old_all.len());
    // The new list is the old one with `ticket` moved from `slot` to the end.
    let from = |k: int| if k < slot { k } else if k < new_all.len() - 1 { k + 1 } else { slot };
    assert forall|k: int| 0 <= k < new_all.len() implies #[trigger] new_all[k] == old_all[from(k)]
        && 0 <= from(k) < old_all.len() by {}
    assert forall|j: int, k: int| 0 <= j < new_all.len() && 0 <= k < new_all.len() && j
        != k implies new_all[j] != new_all[k] by {
        assert(new_all[j] == old_all[from(j)] && new_all[k] == old_all[from(k)]);
        assert(from(j) != from(k));
    }
    assert forall|t: int| 0 <= t < next.dispatched <==> #[trigger] new_all.contains(t) by {
        if 0 <= t < run.dispatched {
            assert(old_all.contains(t));
            let k = choose|k: int| 0 <= k < old_all.len() && old_all[k] == t;
            let to = if k < slot { k } else if k == slot { new_all.len() - 1 } else { k - 1 };
            assert(new_all[to] == old_all[from(to)]);
            assert(new_all[to] == t);
        }
        if new_all.contains(t) {
            let k = choose|k: int| 0 <= k < new_all.len() && new_all[k] == t;
            assert(new_all[k] == old_all[from(k)]);
            assert(old_all.contains(t));
        }
    }
}

/// One event keeps a run well formed, whatever the event.
pub proof fn lemma_event_keeps_well_formed<T, R>(run: Run<T, R>, event: Event<R>)
    requires
        run.well_formed(),
    ensures
        run.after(event).well_formed(),
        run.after(event).cap == run.cap,
        run.after(event).candidates == run.candidates,
{
    match event {
        Event::Ask => {
            if run.can_dispatch() {
                lemma_dispatch_keeps_well_formed(run);
            }
        },
        Event::Report { ticket, outcome } => {
            if run.in_flight.contains(ticket) {
                lemma_complete_keeps_well_formed(run, ticket, outcome);
            }
        },
    }
}

/// The cap holds at every point of every run: whatever is asked and reported,
/// in whatever order, a run that started under a cap of at least one never
/// has more searches in flight than the cap allows.
pub proof fn lemma_cap_never_exceeded<T, R>(candidates: Seq<T>, cap: nat, events: Seq<Event<R>>)
    requires
        cap >= 1,
    ensures
        forall|point: int|
            0 <= point <= events.len() ==> (#[trigger] Run::<T, R>::start(candidates, cap).after_all(
                events.take(point),
            )).in_flight.len() <= cap,
        Run::<T, R>::start(candidates, cap).after_all(events).well_formed(),
        Run::<T, R>::start(candidates, cap).after_all(events).cap == cap,
        Run::<T, R>::start(candidates, cap).after_all(events).candidates == candidates,
    decreases events.len(),
{
    let start = Run::<T, R>::start(candidates, cap);
    if events.len() == 0 {
        assert(start.in_flight + start.completed_tickets() =~= Seq::<int>::empty());
        assert(start.well_formed());
    } else {
        lemma_cap_never_exceeded::<T, R>(candidates, cap, events.drop_last());
        lemma_event_keeps_well_formed(start.after_all(events.drop_last()), events.last());
    }
    assert forall|point: int| 0 <= point <= events.len() implies (#[trigger] start.after_all(
        events.take(point),
    )).in_flight.len() <= cap by {
        if point == events.len() {
            assert(events.take(point) =~= events);
        } else {
            assert(events.take(point) =~= events.drop_last().take(point));
        }
    }
}

impl<T, R> Run<T, R> {
    /// Each search returned what `job` says of its candidate, as far as `seen`
    /// shows the outcome.
    pub open spec fn faithful<V>(self, job: spec_fn(T) -> V, seen: spec_fn(R) -> V) -> bool {
        forall|k: int|
            0 <= k < self.completed.len() ==> seen((#[trigger] self.completed[k]).outcome) == job(
                self.candidates[self.completed[k].ticket],
            )
    }
}

/// A finished run has searched every candidate exactly once: its outcomes are
/// those of the candidates taken one after another, in the order in which the
/// searches were reported.
pub proof fn lemma_finished_run_covers_candidates<T, R, V>(
    run: Run<T, R>,
    job: spec_fn(T) -> V,
    seen: spec_fn(R) -> V,
)
    requires
        run.well_formed(),
        run.is_finished(),
        run.faithful(job, seen),
    ensures
        run.completed_tickets().to_multiset() == positions(run.candidates.len()).to_multiset(),
        run.outcomes().map_values(seen).to_multiset() == run.candidates.map_values(
            job,
        ).to_multiset(),
        run.outcomes_by_candidate().map_values(seen) == run.candidates.map_values(job),
{
    assert(run.outcomes_by_candidate().map_values(seen) =~= run.candidates.map_values(job)) by {
        let tickets = run.completed_tickets();
        assert(run.in_flight + tickets =~= tickets);
        assert forall|t: int| 0 <= t < run.candidates.len() implies seen(run.outcome_under(t))
            == job(run.candidates[t]) by {
            assert(tickets.contains(t));
            let k = tickets.index_of(t);
            assert(0 <= k < tickets.len() && tickets[k] == t);
            assert(seen(run.completed[k].outcome) == job(run.candidates[run.completed[k].ticket]));
        }
    }
    let tickets = run.completed_tickets();
    let count = run.candidates.len();
    let all = positions(count);
    assert(run.in_flight + tickets =~= tickets);
    assert(all.no_duplicates());
    assert forall|ticket: int| tickets.contains(ticket) <==> all.contains(ticket) by {
        if 0 <= ticket < count {
            assert(all[ticket] == ticket);
        }
    }
    lemma_same_members_same_multiset(tickets, all);
    let of_ticket = |ticket: int| job(run.candidates[ticket]);
    lemma_map_of_permutation(tickets, all, of_ticket);
    assert(tickets.map_values(of_ticket) =~= run.outcomes().map_values(seen));
    assert(all.map_values(of_ticket) =~= run.candidates.map_values(job));
}

} // verus!
