//! Reasoning about programs: what holds whatever a world answers.
use vstd::prelude::*;

use crate::command::ManifestModel;
use crate::error::Trouble;
use crate::host::{Answer, Metadata, Output, Request};
use crate::program;
use crate::program::{Event, Program};
use crate::session;
use crate::state::{ActivationModel, Transaction};

verus! {

/// A world that programs ask.
pub trait World: Sized {
    /// Whether the request may be answered so, with this world after it.
    spec fn leads(self, request: Request, answer: Answer, next: Self) -> bool;
}

impl<R> Program<R> {
    /// Whether, whatever the world answers, this program ends only where `post` holds of the
    /// world and the result.
    pub open spec fn meets<W: World>(self, w: W, post: spec_fn(W, R) -> bool) -> bool
        decreases self,
    {
        match self {
            Program::Done(r) => post(w, r),
            Program::Ask(request, f) => forall|x: Answer, next: W| #[trigger]
                w.leads(request, x, next) ==> f(x).meets(next, post),
            Program::Stuck => true,
        }
    }
}

impl<R> Program<R> {
    /// Whether, whatever the world answers, `inv` holds of it all the time, and this program
    /// ends only where `post` holds of the world and the result.
    pub open spec fn upholds<W: World>(
        self,
        w: W,
        inv: spec_fn(W) -> bool,
        post: spec_fn(W, R) -> bool,
    ) -> bool
        decreases self,
    {
        inv(w) && match self {
            Program::Done(r) => post(w, r),
            Program::Ask(request, f) => forall|x: Answer, next: W| #[trigger]
                w.leads(request, x, next) ==> f(x).upholds(next, inv, post),
            Program::Stuck => true,
        }
    }
}

impl<R> Program<R> {
    /// Whether the world may answer so that this program ends with `r`, and leaves `v`.
    pub open spec fn may<W: World>(self, w: W, v: W, r: R) -> bool
        decreases self,
    {
        match self {
            Program::Done(x) => x == r && v == w,
            Program::Ask(request, f) => exists|x: Answer, next: W| #[trigger]
                w.leads(request, x, next) && f(x).may(next, v, r),
            Program::Stuck => false,
        }
    }
}

/// A program ends only as it may.
pub proof fn law_may<R, W: World>(p: Program<R>, w: W)
    ensures
        p.meets(w, |v: W, r: R| p.may(w, v, r)),
    decreases p,
{
    let post = |v: W, r: R| p.may(w, v, r);
    match p {
        Program::Ask(request, f) => {
            assert forall|x: Answer, next: W| #[trigger] w.leads(request, x, next) implies f(
                x,
            ).meets(next, post) by {
                law_may(f(x), next);
                let later = |v: W, r: R| f(x).may(next, v, r);
                assert forall|v: W, r: R| #[trigger] later(v, r) implies post(v, r) by {}
                lemma_weaken(f(x), next, later, post);
            }
        },
        _ => {},
    }
}

/// Whether a world answers the events one after the other, passing through the states.
pub open spec fn answers<W: World>(states: Seq<W>, events: Seq<Event>) -> bool {
    &&& states.len() == events.len() + 1
    &&& forall|i: int|
        #![trigger events[i]]
        0 <= i < events.len() ==> states[i].leads(
            events[i].request,
            events[i].answer,
            states[i + 1],
        )
}

proof fn lemma_after<R, W: World>(
    p: Program<R>,
    post: spec_fn(W, R) -> bool,
    states: Seq<W>,
    events: Seq<Event>,
)
    requires
        p.meets(states[0], post),
        answers(states, events),
    ensures
        p.after(events).meets(states.last(), post),
    decreases events.len(),
{
    if events.len() > 0 {
        let before = events.drop_last();
        assert forall|i: int|
            #![trigger before[i]]
            0 <= i < before.len() implies states.drop_last()[i].leads(
            before[i].request,
            before[i].answer,
            states.drop_last()[i + 1],
        ) by {
            assert(before[i] == events[i]);
        }
        lemma_after(p, post, states.drop_last(), before);
        assert(events[events.len() - 1] == events.last());
    }
}

/// What a program meets holds where it came to its end, if the world answered what was asked in
/// between.
pub proof fn law_meets_ran<R, W: World>(
    p: Program<R>,
    post: spec_fn(W, R) -> bool,
    states: Seq<W>,
    start: Seq<Event>,
    end: Seq<Event>,
    r: R,
)
    requires
        p.meets(states[0], post),
        p.ran(start, end, r),
        answers(states, end.skip(start.len() as int)),
    ensures
        post(states.last(), r),
{
    lemma_after(p, post, states, end.skip(start.len() as int));
    program::lemma_ran_after(p, start, end, r);
}

/// A program and then another.
pub broadcast proof fn lemma_bind<R, S, W: World>(
    p: Program<R>,
    next: spec_fn(R) -> Program<S>,
    w: W,
    post: spec_fn(W, S) -> bool,
)
    requires
        p.meets(w, |v: W, r: R| next(r).meets(v, post)),
    ensures
        #[trigger] p.bind(next).meets(w, post),
    decreases p,
{
    match p {
        Program::Done(r) => {},
        Program::Ask(request, f) => {
            assert forall|x: Answer, v: W| #[trigger] w.leads(request, x, v) implies f(x).bind(
                next,
            ).meets(v, post) by {
                lemma_bind(f(x), next, v, post);
            }
        },
        Program::Stuck => {},
    }
}

/// A program that meets something meets what follows from it.
pub broadcast proof fn lemma_weaken<R, W: World>(
    p: Program<R>,
    w: W,
    post: spec_fn(W, R) -> bool,
    weaker: spec_fn(W, R) -> bool,
)
    requires
        #[trigger] p.meets(w, post),
        forall|v: W, r: R| #[trigger] post(v, r) ==> weaker(v, r),
    ensures
        #[trigger] p.meets(w, weaker),
    decreases p,
{
    match p {
        Program::Done(r) => {},
        Program::Ask(request, f) => {
            assert forall|x: Answer, v: W| #[trigger] w.leads(request, x, v) implies f(x).meets(
                v,
                weaker,
            ) by {
                lemma_weaken(f(x), v, post, weaker);
            }
        },
        Program::Stuck => {},
    }
}

/// What a program meets it meets together.
pub proof fn lemma_both<R, W: World>(
    p: Program<R>,
    w: W,
    a: spec_fn(W, R) -> bool,
    b: spec_fn(W, R) -> bool,
)
    requires
        p.meets(w, a),
        p.meets(w, b),
    ensures
        p.meets(w, |v: W, r: R| a(v, r) && b(v, r)),
    decreases p,
{
    let c = |v: W, r: R| a(v, r) && b(v, r);
    match p {
        Program::Done(r) => {},
        Program::Ask(request, f) => {
            assert forall|x: Answer, v: W| #[trigger] w.leads(request, x, v) implies f(x).meets(
                v,
                c,
            ) by {
                lemma_both(f(x), v, a, b);
            }
        },
        Program::Stuck => {},
    }
}

pub broadcast proof fn lemma_act<W: World>(
    request: Request,
    w: W,
    post: spec_fn(W, Result<(), Trouble>) -> bool,
)
    requires
        forall|x: Answer, v: W| #[trigger] w.leads(request, x, v) ==> post(v, x.done()),
    ensures
        #[trigger] session::act(request).meets(w, post),
{
    let f = |x: Answer| Program::Done(x.done());
    assert forall|x: Answer, v: W| #[trigger] w.leads(request, x, v) implies f(x).meets(
        v,
        post,
    ) by {}
}

pub broadcast proof fn lemma_stat<W: World>(
    p: Seq<u8>,
    w: W,
    post: spec_fn(W, Result<Metadata, Trouble>) -> bool,
)
    requires
        forall|x: Answer, v: W| #[trigger] w.leads(Request::Stat(p), x, v) ==> post(v, x.stats()),
    ensures
        #[trigger] session::stat(p).meets(w, post),
{
    let f = |x: Answer| Program::Done(x.stats());
    assert forall|x: Answer, v: W| #[trigger] w.leads(Request::Stat(p), x, v) implies f(x).meets(
        v,
        post,
    ) by {}
}

pub broadcast proof fn lemma_data<W: World>(
    request: Request,
    w: W,
    post: spec_fn(W, Result<Seq<u8>, Trouble>) -> bool,
)
    requires
        forall|x: Answer, v: W| #[trigger] w.leads(request, x, v) ==> post(v, x.data()),
    ensures
        #[trigger] session::data(request).meets(w, post),
{
    let f = |x: Answer| Program::Done(x.data());
    assert forall|x: Answer, v: W| #[trigger] w.leads(request, x, v) implies f(x).meets(
        v,
        post,
    ) by {}
}

pub broadcast proof fn lemma_names<W: World>(
    p: Seq<u8>,
    w: W,
    post: spec_fn(W, Result<Seq<Seq<u8>>, Trouble>) -> bool,
)
    requires
        forall|x: Answer, v: W| #[trigger] w.leads(Request::ReadDir(p), x, v) ==> post(v, x.names()),
    ensures
        #[trigger] session::names(p).meets(w, post),
{
    let f = |x: Answer| Program::Done(x.names());
    assert forall|x: Answer, v: W| #[trigger] w.leads(Request::ReadDir(p), x, v) implies f(x).meets(
        v,
        post,
    ) by {}
}

pub broadcast proof fn lemma_exists_at<W: World>(
    p: Seq<u8>,
    w: W,
    post: spec_fn(W, Result<bool, Trouble>) -> bool,
)
    requires
        forall|x: Answer, v: W| #[trigger] w.leads(Request::Exists(p), x, v) ==> post(v, x.flag()),
    ensures
        #[trigger] session::exists_at(p).meets(w, post),
{
    let f = |x: Answer| Program::Done(x.flag());
    assert forall|x: Answer, v: W| #[trigger] w.leads(Request::Exists(p), x, v) implies f(x).meets(
        v,
        post,
    ) by {}
}

pub broadcast proof fn lemma_variable<W: World>(
    name: Seq<u8>,
    w: W,
    post: spec_fn(W, Result<Option<Seq<u8>>, Trouble>) -> bool,
)
    requires
        forall|x: Answer, v: W| #[trigger] w.leads(Request::Variable(name), x, v) ==> post(v, x.value()),
    ensures
        #[trigger] session::variable(name).meets(w, post),
{
    let f = |x: Answer| Program::Done(x.value());
    assert forall|x: Answer, v: W| #[trigger] w.leads(Request::Variable(name), x, v) implies f(x).meets(
        v,
        post,
    ) by {}
}

pub broadcast proof fn lemma_execute<W: World>(
    words: Seq<Seq<u8>>,
    w: W,
    post: spec_fn(W, Result<Output<Seq<u8>>, Trouble>) -> bool,
)
    requires
        forall|x: Answer, v: W| #[trigger] w.leads(Request::Execute(words), x, v) ==> post(v, x.output()),
    ensures
        #[trigger] session::execute(words).meets(w, post),
{
    let f = |x: Answer| Program::Done(x.output());
    assert forall|x: Answer, v: W| #[trigger] w.leads(Request::Execute(words), x, v) implies f(x).meets(
        v,
        post,
    ) by {}
}

pub broadcast proof fn lemma_decode_activation<W: World>(
    form: Seq<u8>,
    w: W,
    post: spec_fn(W, Result<ActivationModel, Trouble>) -> bool,
)
    requires
        forall|x: Answer, v: W| #[trigger] w.leads(Request::DecodeActivation(form), x, v) ==> post(v, x.activation()),
    ensures
        #[trigger] session::decode_activation(form).meets(w, post),
{
    let f = |x: Answer| Program::Done(x.activation());
    assert forall|x: Answer, v: W| #[trigger] w.leads(Request::DecodeActivation(form), x, v) implies f(x).meets(
        v,
        post,
    ) by {}
}

pub broadcast proof fn lemma_decode_transaction<W: World>(
    form: Seq<u8>,
    w: W,
    post: spec_fn(W, Result<Transaction<Seq<u8>>, Trouble>) -> bool,
)
    requires
        forall|x: Answer, v: W| #[trigger] w.leads(Request::DecodeTransaction(form), x, v) ==> post(v, x.transaction()),
    ensures
        #[trigger] session::decode_transaction(form).meets(w, post),
{
    let f = |x: Answer| Program::Done(x.transaction());
    assert forall|x: Answer, v: W| #[trigger] w.leads(Request::DecodeTransaction(form), x, v) implies f(x).meets(
        v,
        post,
    ) by {}
}

pub broadcast proof fn lemma_decode_manifest<W: World>(
    form: Seq<u8>,
    w: W,
    post: spec_fn(W, Result<ManifestModel, Trouble>) -> bool,
)
    requires
        forall|x: Answer, v: W| #[trigger]
            w.leads(Request::DecodeManifest(form), x, v) ==> post(v, x.manifest()),
    ensures
        #[trigger] session::decode_manifest(form).meets(w, post),
{
    let f = |x: Answer| Program::Done(x.manifest());
    assert forall|x: Answer, v: W| #[trigger]
        w.leads(Request::DecodeManifest(form), x, v) implies f(x).meets(v, post) by {}
}

pub broadcast proof fn lemma_tell<W: World>(
    request: Request,
    w: W,
    post: spec_fn(W, ()) -> bool,
)
    requires
        forall|x: Answer, v: W| #[trigger] w.leads(request, x, v) ==> post(v, ()),
    ensures
        #[trigger] session::tell(request).meets(w, post),
{
    let f = |x: Answer| Program::Done(());
    assert forall|x: Answer, v: W| #[trigger] w.leads(request, x, v) implies f(x).meets(
        v,
        post,
    ) by {}
}

pub broadcast group group_reason {
    lemma_bind,
    lemma_weaken,
    lemma_act,
    lemma_stat,
    lemma_data,
    lemma_names,
    lemma_exists_at,
    lemma_variable,
    lemma_execute,
    lemma_decode_activation,
    lemma_decode_transaction,
    lemma_decode_manifest,
    lemma_tell,
}

proof fn lemma_after_upholds<R, W: World>(
    p: Program<R>,
    inv: spec_fn(W) -> bool,
    post: spec_fn(W, R) -> bool,
    states: Seq<W>,
    events: Seq<Event>,
)
    requires
        p.upholds(states[0], inv, post),
        answers(states, events),
        !(p.after(events) is Stuck),
    ensures
        p.after(events).upholds(states.last(), inv, post),
    decreases events.len(),
{
    if events.len() > 0 {
        let before = events.drop_last();
        assert forall|i: int|
            #![trigger before[i]]
            0 <= i < before.len() implies states.drop_last()[i].leads(
            before[i].request,
            before[i].answer,
            states.drop_last()[i + 1],
        ) by {
            assert(before[i] == events[i]);
        }
        lemma_after_upholds(p, inv, post, states.drop_last(), before);
        assert(events[events.len() - 1] == events.last());
    }
}

/// What a program upholds holds wherever it was interrupted, if the world answered what was
/// asked before.
pub proof fn law_upholds_interrupted<R, W: World>(
    p: Program<R>,
    inv: spec_fn(W) -> bool,
    post: spec_fn(W, R) -> bool,
    states: Seq<W>,
    events: Seq<Event>,
)
    requires
        p.upholds(states[0], inv, post),
        answers(states, events),
        !(p.after(events) is Stuck),
    ensures
        inv(states.last()),
{
    lemma_after_upholds(p, inv, post, states, events);
}

/// What a program upholds it ends with.
pub proof fn lemma_upholds_meets<R, W: World>(
    p: Program<R>,
    w: W,
    inv: spec_fn(W) -> bool,
    post: spec_fn(W, R) -> bool,
)
    requires
        p.upholds(w, inv, post),
    ensures
        p.meets(w, |v: W, r: R| inv(v) && post(v, r)),
    decreases p,
{
    let end = |v: W, r: R| inv(v) && post(v, r);
    match p {
        Program::Done(r) => {},
        Program::Ask(request, f) => {
            assert forall|x: Answer, v: W| #[trigger] w.leads(request, x, v) implies f(x).meets(
                v,
                end,
            ) by {
                lemma_upholds_meets(f(x), v, inv, post);
            }
        },
        Program::Stuck => {},
    }
}

/// What a program upholds and what it meets it upholds together.
pub proof fn lemma_upholds_both<R, W: World>(
    p: Program<R>,
    w: W,
    inv: spec_fn(W) -> bool,
    a: spec_fn(W, R) -> bool,
    b: spec_fn(W, R) -> bool,
)
    requires
        p.upholds(w, inv, a),
        p.meets(w, b),
    ensures
        p.upholds(w, inv, |v: W, r: R| a(v, r) && b(v, r)),
    decreases p,
{
    let c = |v: W, r: R| a(v, r) && b(v, r);
    match p {
        Program::Done(r) => {},
        Program::Ask(request, f) => {
            assert forall|x: Answer, v: W| #[trigger] w.leads(request, x, v) implies f(x).upholds(
                v,
                inv,
                c,
            ) by {
                lemma_upholds_both(f(x), v, inv, a, b);
            }
        },
        Program::Stuck => {},
    }
}

/// A program and then another.
pub broadcast proof fn lemma_upholds_bind<R, S, W: World>(
    p: Program<R>,
    next: spec_fn(R) -> Program<S>,
    w: W,
    inv: spec_fn(W) -> bool,
    post: spec_fn(W, S) -> bool,
)
    requires
        p.upholds(w, inv, |v: W, r: R| inv(v) ==> next(r).upholds(v, inv, post)),
    ensures
        #[trigger] p.bind(next).upholds(w, inv, post),
    decreases p,
{
    match p {
        Program::Done(r) => {},
        Program::Ask(request, f) => {
            assert forall|x: Answer, v: W| #[trigger] w.leads(request, x, v) implies f(x).bind(
                next,
            ).upholds(v, inv, post) by {
                lemma_upholds_bind(f(x), next, v, inv, post);
            }
        },
        Program::Stuck => {},
    }
}

/// A program that upholds something upholds what follows from it.
pub broadcast proof fn lemma_upholds_weaken<R, W: World>(
    p: Program<R>,
    w: W,
    inv: spec_fn(W) -> bool,
    post: spec_fn(W, R) -> bool,
    wider: spec_fn(W) -> bool,
    weaker: spec_fn(W, R) -> bool,
)
    requires
        #[trigger] p.upholds(w, inv, post),
        forall|v: W| #[trigger] inv(v) ==> wider(v),
        forall|v: W, r: R| #[trigger] post(v, r) && inv(v) ==> weaker(v, r),
    ensures
        #[trigger] p.upholds(w, wider, weaker),
    decreases p,
{
    match p {
        Program::Done(r) => {},
        Program::Ask(request, f) => {
            assert forall|x: Answer, v: W| #[trigger] w.leads(request, x, v) implies f(x).upholds(
                v,
                wider,
                weaker,
            ) by {
                lemma_upholds_weaken(f(x), v, inv, post, wider, weaker);
            }
        },
        Program::Stuck => {},
    }
}

pub broadcast proof fn lemma_upholds_act<W: World>(
    request: Request,
    w: W,
    inv: spec_fn(W) -> bool,
    post: spec_fn(W, Result<(), Trouble>) -> bool,
)
    requires
        inv(w),
        forall|x: Answer, v: W| #[trigger] w.leads(request, x, v) ==> inv(v) && post(v, x.done()),
    ensures
        #[trigger] session::act(request).upholds(w, inv, post),
{
    let f = |x: Answer| Program::Done(x.done());
    assert forall|x: Answer, v: W| #[trigger] w.leads(request, x, v) implies f(x).upholds(
        v,
        inv,
        post,
    ) by {}
}

pub broadcast proof fn lemma_upholds_stat<W: World>(
    p: Seq<u8>,
    w: W,
    inv: spec_fn(W) -> bool,
    post: spec_fn(W, Result<Metadata, Trouble>) -> bool,
)
    requires
        inv(w),
        forall|x: Answer, v: W| #[trigger] w.leads(Request::Stat(p), x, v) ==> inv(v) && post(v, x.stats()),
    ensures
        #[trigger] session::stat(p).upholds(w, inv, post),
{
    let f = |x: Answer| Program::Done(x.stats());
    assert forall|x: Answer, v: W| #[trigger] w.leads(Request::Stat(p), x, v) implies f(x).upholds(
        v,
        inv,
        post,
    ) by {}
}

pub broadcast proof fn lemma_upholds_data<W: World>(
    request: Request,
    w: W,
    inv: spec_fn(W) -> bool,
    post: spec_fn(W, Result<Seq<u8>, Trouble>) -> bool,
)
    requires
        inv(w),
        forall|x: Answer, v: W| #[trigger] w.leads(request, x, v) ==> inv(v) && post(v, x.data()),
    ensures
        #[trigger] session::data(request).upholds(w, inv, post),
{
    let f = |x: Answer| Program::Done(x.data());
    assert forall|x: Answer, v: W| #[trigger] w.leads(request, x, v) implies f(x).upholds(
        v,
        inv,
        post,
    ) by {}
}

pub broadcast proof fn lemma_upholds_names<W: World>(
    p: Seq<u8>,
    w: W,
    inv: spec_fn(W) -> bool,
    post: spec_fn(W, Result<Seq<Seq<u8>>, Trouble>) -> bool,
)
    requires
        inv(w),
        forall|x: Answer, v: W| #[trigger] w.leads(Request::ReadDir(p), x, v) ==> inv(v) && post(v, x.names()),
    ensures
        #[trigger] session::names(p).upholds(w, inv, post),
{
    let f = |x: Answer| Program::Done(x.names());
    assert forall|x: Answer, v: W| #[trigger] w.leads(Request::ReadDir(p), x, v) implies f(x).upholds(
        v,
        inv,
        post,
    ) by {}
}

pub broadcast proof fn lemma_upholds_exists_at<W: World>(
    p: Seq<u8>,
    w: W,
    inv: spec_fn(W) -> bool,
    post: spec_fn(W, Result<bool, Trouble>) -> bool,
)
    requires
        inv(w),
        forall|x: Answer, v: W| #[trigger] w.leads(Request::Exists(p), x, v) ==> inv(v) && post(v, x.flag()),
    ensures
        #[trigger] session::exists_at(p).upholds(w, inv, post),
{
    let f = |x: Answer| Program::Done(x.flag());
    assert forall|x: Answer, v: W| #[trigger] w.leads(Request::Exists(p), x, v) implies f(x).upholds(
        v,
        inv,
        post,
    ) by {}
}

pub broadcast proof fn lemma_upholds_execute<W: World>(
    words: Seq<Seq<u8>>,
    w: W,
    inv: spec_fn(W) -> bool,
    post: spec_fn(W, Result<Output<Seq<u8>>, Trouble>) -> bool,
)
    requires
        inv(w),
        forall|x: Answer, v: W| #[trigger] w.leads(Request::Execute(words), x, v) ==> inv(v) && post(v, x.output()),
    ensures
        #[trigger] session::execute(words).upholds(w, inv, post),
{
    let f = |x: Answer| Program::Done(x.output());
    assert forall|x: Answer, v: W| #[trigger] w.leads(Request::Execute(words), x, v) implies f(x).upholds(
        v,
        inv,
        post,
    ) by {}
}

pub broadcast proof fn lemma_upholds_decode_activation<W: World>(
    form: Seq<u8>,
    w: W,
    inv: spec_fn(W) -> bool,
    post: spec_fn(W, Result<ActivationModel, Trouble>) -> bool,
)
    requires
        inv(w),
        forall|x: Answer, v: W| #[trigger] w.leads(Request::DecodeActivation(form), x, v) ==> inv(v) && post(v, x.activation()),
    ensures
        #[trigger] session::decode_activation(form).upholds(w, inv, post),
{
    let f = |x: Answer| Program::Done(x.activation());
    assert forall|x: Answer, v: W| #[trigger] w.leads(Request::DecodeActivation(form), x, v) implies f(x).upholds(
        v,
        inv,
        post,
    ) by {}
}

pub broadcast proof fn lemma_upholds_decode_transaction<W: World>(
    form: Seq<u8>,
    w: W,
    inv: spec_fn(W) -> bool,
    post: spec_fn(W, Result<Transaction<Seq<u8>>, Trouble>) -> bool,
)
    requires
        inv(w),
        forall|x: Answer, v: W| #[trigger] w.leads(Request::DecodeTransaction(form), x, v) ==> inv(v) && post(v, x.transaction()),
    ensures
        #[trigger] session::decode_transaction(form).upholds(w, inv, post),
{
    let f = |x: Answer| Program::Done(x.transaction());
    assert forall|x: Answer, v: W| #[trigger] w.leads(Request::DecodeTransaction(form), x, v) implies f(x).upholds(
        v,
        inv,
        post,
    ) by {}
}

pub broadcast proof fn lemma_upholds_tell<W: World>(
    request: Request,
    w: W,
    inv: spec_fn(W) -> bool,
    post: spec_fn(W, ()) -> bool,
)
    requires
        inv(w),
        forall|x: Answer, v: W| #[trigger] w.leads(request, x, v) ==> inv(v) && post(v, ()),
    ensures
        #[trigger] session::tell(request).upholds(w, inv, post),
{
    let f = |x: Answer| Program::Done(());
    assert forall|x: Answer, v: W| #[trigger] w.leads(request, x, v) implies f(x).upholds(
        v,
        inv,
        post,
    ) by {}
}

pub broadcast proof fn lemma_upholds_decode_manifest<W: World>(
    form: Seq<u8>,
    w: W,
    inv: spec_fn(W) -> bool,
    post: spec_fn(W, Result<ManifestModel, Trouble>) -> bool,
)
    requires
        inv(w),
        forall|x: Answer, v: W| #[trigger]
            w.leads(Request::DecodeManifest(form), x, v) ==> inv(v) && post(v, x.manifest()),
    ensures
        #[trigger] session::decode_manifest(form).upholds(w, inv, post),
{
    let f = |x: Answer| Program::Done(x.manifest());
    assert forall|x: Answer, v: W| #[trigger]
        w.leads(Request::DecodeManifest(form), x, v) implies f(x).upholds(v, inv, post) by {}
}

pub broadcast proof fn lemma_upholds_variable<W: World>(
    name: Seq<u8>,
    w: W,
    inv: spec_fn(W) -> bool,
    post: spec_fn(W, Result<Option<Seq<u8>>, Trouble>) -> bool,
)
    requires
        inv(w),
        forall|x: Answer, v: W| #[trigger]
            w.leads(Request::Variable(name), x, v) ==> inv(v) && post(v, x.value()),
    ensures
        #[trigger] session::variable(name).upholds(w, inv, post),
{
    let f = |x: Answer| Program::Done(x.value());
    assert forall|x: Answer, v: W| #[trigger]
        w.leads(Request::Variable(name), x, v) implies f(x).upholds(v, inv, post) by {}
}

/// Two worlds of which each sees all that is asked and answered.
pub struct Both<A, B> {
    pub one: A,
    pub other: B,
}

impl<A: World, B: World> World for Both<A, B> {
    open spec fn leads(self, request: Request, x: Answer, next: Both<A, B>) -> bool {
        self.one.leads(request, x, next.one) && self.other.leads(request, x, next.other)
    }
}

/// What holds of the one world and of the other.
pub open spec fn of_both<A, B, R>(
    a: spec_fn(A, R) -> bool,
    b: spec_fn(B, R) -> bool,
) -> spec_fn(Both<A, B>, R) -> bool {
    |v: Both<A, B>, r: R| a(v.one, r) && b(v.other, r)
}

/// What a program meets in each of two worlds it meets in both.
pub proof fn lemma_of_both<R, A: World, B: World>(
    p: Program<R>,
    w: Both<A, B>,
    a: spec_fn(A, R) -> bool,
    b: spec_fn(B, R) -> bool,
)
    requires
        p.meets(w.one, a),
        p.meets(w.other, b),
    ensures
        p.meets(w, of_both(a, b)),
    decreases p,
{
    match p {
        Program::Ask(request, f) => {
            assert forall|x: Answer, next: Both<A, B>| #[trigger]
                w.leads(request, x, next) implies f(x).meets(next, of_both(a, b)) by {
                assert(w.one.leads(request, x, next.one));
                assert(w.other.leads(request, x, next.other));
                lemma_of_both(f(x), next, a, b);
            }
        },
        _ => {},
    }
}

/// A program and then another, whatever they are.
pub proof fn lemma_and_then<R, S, W: World>(
    p: Program<Result<R, Trouble>>,
    next: spec_fn(R) -> Program<Result<S, Trouble>>,
    w: W,
    mid: spec_fn(W, Result<R, Trouble>) -> bool,
    post: spec_fn(W, Result<S, Trouble>) -> bool,
)
    requires
        p.meets(w, mid),
        forall|v: W, r: Result<R, Trouble>| #[trigger]
            mid(v, r) ==> match r {
                Ok(found) => next(found).meets(v, post),
                Err(e) => post(v, Err(e)),
            },
    ensures
        p.and_then(next).meets(w, post),
{
    let on = |r: Result<R, Trouble>|
        match r {
            Ok(value) => next(value),
            Err(e) => Program::Done(Err(e)),
        };
    let mid2 = |v: W, r: Result<R, Trouble>| on(r).meets(v, post);
    assert forall|v: W, r: Result<R, Trouble>| #[trigger] mid(v, r) implies mid2(v, r) by {}
    lemma_weaken(p, w, mid, mid2);
    lemma_bind(p, on, w, post);
    assert(p.and_then(next) == p.bind(on));
}

/// A program and then another, whatever they are, all the while.
pub proof fn lemma_upholds_and_then<R, S, W: World>(
    p: Program<Result<R, Trouble>>,
    next: spec_fn(R) -> Program<Result<S, Trouble>>,
    w: W,
    inv: spec_fn(W) -> bool,
    mid: spec_fn(W, Result<R, Trouble>) -> bool,
    post: spec_fn(W, Result<S, Trouble>) -> bool,
)
    requires
        p.upholds(w, inv, mid),
        forall|v: W, r: Result<R, Trouble>| #[trigger]
            mid(v, r) && inv(v) ==> match r {
                Ok(found) => next(found).upholds(v, inv, post),
                Err(e) => post(v, Err(e)),
            },
    ensures
        p.and_then(next).upholds(w, inv, post),
{
    let on = |r: Result<R, Trouble>|
        match r {
            Ok(value) => next(value),
            Err(e) => Program::Done(Err(e)),
        };
    let mid2 = |v: W, r: Result<R, Trouble>| inv(v) ==> on(r).upholds(v, inv, post);
    assert forall|v: W, r: Result<R, Trouble>| #[trigger] mid(v, r) && inv(v) implies mid2(v, r) by {}
    lemma_upholds_weaken(p, w, inv, mid, inv, mid2);
    lemma_upholds_bind(p, on, w, inv, post);
    assert(p.and_then(next) == p.bind(on));
}

/// Every program meets what always holds.
pub proof fn lemma_anything<R, W: World>(p: Program<R>, w: W)
    ensures
        p.meets(w, |v: W, r: R| true),
    decreases p,
{
    match p {
        Program::Ask(request, f) => {
            assert forall|x: Answer, next: W| #[trigger] w.leads(request, x, next) implies f(
                x,
            ).meets(next, |v: W, r: R| true) by {
                lemma_anything(f(x), next);
            }
        },
        _ => {},
    }
}

pub broadcast group group_upholds {
    lemma_upholds_bind,
    lemma_upholds_weaken,
    lemma_upholds_act,
    lemma_upholds_stat,
    lemma_upholds_data,
    lemma_upholds_names,
    lemma_upholds_exists_at,
    lemma_upholds_execute,
    lemma_upholds_decode_activation,
    lemma_upholds_decode_transaction,
    lemma_upholds_decode_manifest,
    lemma_upholds_variable,
    lemma_upholds_tell,
}

} // verus!
