//! What an operation asks of the world outside, and what it makes of the answers.
//!
//! A `Program` is the meaning of an operation: what it asks next, and, for every answer to that,
//! how it goes on. The contract of an operation says that its exchange with the host followed
//! its program up to the end, and that its result is the one that the program ends with.
use vstd::prelude::*;

use crate::error::Trouble;
use crate::host::{Answer, Request};

verus! {

/// A request and the answer to it.
pub struct Event {
    pub request: Request,
    pub answer: Answer,
}

/// How an operation goes on.
pub enum Program<R> {
    /// It ends with a result.
    Done(R),
    /// It asks, and goes on depending on the answer.
    Ask(Request, spec_fn(Answer) -> Program<R>),
    /// What happened is not what was asked for.
    Stuck,
}

impl<R> Program<R> {
    /// This program, then the one that its result selects.
    pub open spec fn bind<S>(self, next: spec_fn(R) -> Program<S>) -> Program<S>
        decreases self,
    {
        match self {
            Program::Done(r) => next(r),
            Program::Ask(request, f) => Program::Ask(request, |x: Answer| f(x).bind(next)),
            Program::Stuck => Program::Stuck,
        }
    }

    /// What is left of this program after the events.
    pub open spec fn after(self, events: Seq<Event>) -> Program<R>
        decreases events.len(),
    {
        if events.len() == 0 {
            self
        } else {
            match self.after(events.drop_last()) {
                Program::Ask(request, f) => if request == events.last().request {
                    f(events.last().answer)
                } else {
                    Program::Stuck
                },
                _ => Program::Stuck,
            }
        }
    }

    /// What is left of this program, begun when the history was `start`, at the history `end`.
    pub closed spec fn now(self, start: Seq<Event>, end: Seq<Event>) -> Program<R> {
        self.after(end.skip(start.len() as int))
    }

    /// Whether this program, begun when the history was `start`, came to its end with result
    /// `r` when the history was `end`.
    pub open spec fn ran(self, start: Seq<Event>, end: Seq<Event>, r: R) -> bool {
        &&& extends(start, end)
        &&& self.now(start, end) == Program::Done(r)
    }
}

impl<R> Program<Result<R, Trouble>> {
    /// This program, then the one that its value selects; a failure ends it.
    pub open spec fn and_then<S>(
        self,
        next: spec_fn(R) -> Program<Result<S, Trouble>>,
    ) -> Program<Result<S, Trouble>> {
        self.bind(
            |r: Result<R, Trouble>|
                match r {
                    Ok(value) => next(value),
                    Err(e) => Program::Done(Err(e)),
                },
        )
    }
}

/// The program that asks nothing and ends with a value.
pub open spec fn give<R>(value: R) -> Program<Result<R, Trouble>> {
    Program::Done(Ok(value))
}

/// The program that asks nothing and fails.
pub open spec fn fail<R>(e: Trouble) -> Program<Result<R, Trouble>> {
    Program::Done(Err(e))
}

/// Whether the history `end` continues the history `start`.
pub closed spec fn extends(start: Seq<Event>, end: Seq<Event>) -> bool {
    start.len() <= end.len() && end.take(start.len() as int) == start
}

/// A history that continues another one begins with it.
pub proof fn law_extends(start: Seq<Event>, end: Seq<Event>)
    ensures
        extends(start, end) <==> start.len() <= end.len() && end.take(start.len() as int) == start,
{
}

proof fn lemma_after_append<R>(p: Program<R>, d: Seq<Event>, e: Seq<Event>)
    ensures
        p.after(d + e) == p.after(d).after(e),
    decreases e.len(),
{
    if e.len() == 0 {
        assert(d + e =~= d);
    } else {
        lemma_after_append(p, d, e.drop_last());
        assert((d + e).drop_last() =~= d + e.drop_last());
    }
}

proof fn lemma_after_bind<R, S>(p: Program<R>, next: spec_fn(R) -> Program<S>, d: Seq<Event>)
    requires
        p.after(d) is Done || p.after(d) is Ask,
    ensures
        p.bind(next).after(d) == p.after(d).bind(next),
    decreases d.len(),
{
    if d.len() > 0 {
        lemma_after_bind(p, next, d.drop_last());
    }
}

/// Where a program had come to run another one to its end, and that one did, the program goes
/// on with its result.
pub broadcast proof fn lemma_call<R, S>(
    whole: Program<S>,
    start: Seq<Event>,
    before: Seq<Event>,
    end: Seq<Event>,
    part: Program<R>,
    next: spec_fn(R) -> Program<S>,
    r: R,
)
    requires
        extends(start, before),
        #[trigger] whole.now(start, before) == #[trigger] part.bind(next),
        #[trigger] part.ran(before, end, r),
    ensures
        extends(start, end),
        whole.now(start, end) == next(r),
{
    let d = before.skip(start.len() as int);
    let e = end.skip(before.len() as int);
    assert(end.take(before.len() as int) == before);
    assert(end.skip(start.len() as int) =~= d + e);
    assert(end.take(before.len() as int).take(start.len() as int) =~= end.take(start.len() as int));
    lemma_after_append(whole, d, e);
    lemma_after_bind(part, next, e);
}

/// Where another program was left of a program, and that one came to its end, so did the whole.
pub broadcast proof fn lemma_tail<R>(
    whole: Program<R>,
    start: Seq<Event>,
    before: Seq<Event>,
    end: Seq<Event>,
    part: Program<R>,
    r: R,
)
    requires
        extends(start, before),
        #[trigger] whole.now(start, before) == part,
        #[trigger] part.ran(before, end, r),
    ensures
        whole.ran(start, end, r),
{
    let d = before.skip(start.len() as int);
    let e = end.skip(before.len() as int);
    assert(end.take(before.len() as int) == before);
    assert(end.skip(start.len() as int) =~= d + e);
    assert(end.take(before.len() as int).take(start.len() as int) =~= end.take(start.len() as int));
    lemma_after_append(whole, d, e);
}

/// At its beginning all of a program is left.
pub broadcast proof fn lemma_start<R>(p: Program<R>, start: Seq<Event>, end: Seq<Event>)
    ensures
        #![trigger p.now(start, end)]
        extends(start, start),
        p.now(start, start) == p,
{
    assert(start.skip(start.len() as int) =~= Seq::<Event>::empty());
    assert(start.take(start.len() as int) =~= start);
}

/// One event takes a program one step on.
pub proof fn lemma_ask<R>(request: Request, f: spec_fn(Answer) -> Program<R>, start: Seq<Event>, x: Answer)
    ensures
        extends(start, start.push(Event { request, answer: x })),
        Program::Ask(request, f).now(start, start.push(Event { request, answer: x })) == f(x),
{
    let end = start.push(Event { request, answer: x });
    let d = end.skip(start.len() as int);
    assert(d =~= seq![Event { request, answer: x }]);
    assert(d.drop_last() =~= Seq::<Event>::empty());
    assert(end.take(start.len() as int) =~= start);
    let p = Program::Ask(request, f);
    assert(p.after(d.drop_last()) == p);
}

/// A program that came to its end is done with the events in between.
pub proof fn lemma_ran_after<R>(p: Program<R>, start: Seq<Event>, end: Seq<Event>, r: R)
    requires
        p.ran(start, end, r),
    ensures
        p.after(end.skip(start.len() as int)) == Program::Done(r),
{
}

pub broadcast group group_program {
    lemma_call,
    lemma_tail,
    lemma_start,
}

} // verus!
