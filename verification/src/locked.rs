//! That nothing is done without the lock.
use vstd::prelude::*;

use crate::bytes;
use crate::command;
use crate::command::{ArgumentsModel, CommandModel, ManifestModel};
use crate::error::Trouble;
use crate::host::{Answer, Request};
use crate::path;
use crate::program::Program;
use crate::reason;
use crate::reason::World;
use crate::session;
use crate::state;

verus! {

broadcast use crate::reason::group_upholds;

/// A world that answers anything, and notes which lock was taken first, and whether anything was asked
/// for without one that needs it.
pub struct Guard {
    pub held: Option<Seq<u8>>,
    pub loose: bool,
}

/// Whether this may be asked for without the lock: to read the manifest and the environment, and to
/// create the directory that the lock is in.
pub open spec fn needs_no_lock(request: Request) -> bool {
    match request {
        Request::ReadFile(_)
        | Request::DecodeManifest(_)
        | Request::Variable(_)
        | Request::CreateDirs(_)
        | Request::Lock(_) => true,
        _ => false,
    }
}

impl World for Guard {
    open spec fn leads(self, request: Request, x: Answer, next: Guard) -> bool {
        &&& next.held == (match (self.held, request, x) {
            (None, Request::Lock(p), Answer::Done) => Some(p),
            _ => self.held,
        })
        &&& next.loose == (self.loose || (self.held is None && !needs_no_lock(request)))
    }
}

/// Whether nothing was asked for without the lock that needs it.
pub open spec fn tight() -> spec_fn(Guard) -> bool {
    |v: Guard| !v.loose
}

/// Whether a lock is held, and nothing was asked for without.
pub open spec fn holds(p: Seq<u8>) -> spec_fn(Guard) -> bool {
    |v: Guard| !v.loose && v.held == Some(p)
}

/// With the lock anything may be asked for.
proof fn lemma_held<R>(p: Program<R>, w: Guard, lock: Seq<u8>)
    requires
        holds(lock)(w),
    ensures
        p.upholds(w, tight(), |v: Guard, r: R| holds(lock)(v)),
    decreases p,
{
    match p {
        Program::Ask(request, f) => {
            assert forall|x: Answer, v: Guard| #[trigger] w.leads(request, x, v) implies f(
                x,
            ).upholds(v, tight(), |u: Guard, r: R| holds(lock)(u)) by {
                lemma_held(f(x), v, lock);
            }
        },
        _ => {},
    }
}

/// That, if the operation succeeded, the lock in the directory of the states is held.
pub open spec fn locks(state_root: Seq<u8>) -> spec_fn(Guard, Result<(), Trouble>) -> bool {
    |v: Guard, r: Result<(), Trouble>|
        r is Ok ==> v.held == Some(path::join(state_root, bytes::text("lock"@)))
}

/// A command is run with the lock in the directory of the states.
pub proof fn law_locked_first(
    w: Guard,
    state_root: Seq<u8>,
    manifest: ManifestModel,
    command: CommandModel,
)
    requires
        w.held is None,
        !w.loose,
    ensures
        command::locked_program(state_root, manifest, command).upholds(w, tight(), locks(state_root)),
{
    lemma_then(
        state::recover_all_program(state_root).and_then(
            |u: ()| command::dispatch_program(state_root, manifest, command),
        ),
        w,
        state_root,
    );
}

/// The lock is taken before anything else is done.
proof fn lemma_then(rest: Program<Result<(), Trouble>>, w: Guard, state_root: Seq<u8>)
    requires
        w.held is None,
        !w.loose,
    ensures
        session::act(Request::CreateDirs(state_root)).and_then(
            |u: ()|
                session::act(Request::Lock(path::join(state_root, bytes::text("lock"@)))).and_then(
                    |u: ()| rest,
                ),
        ).upholds(w, tight(), locks(state_root)),
{
    let lock = path::join(state_root, bytes::text("lock"@));
    let post = locks(state_root);
    assert forall|v: Guard| #[trigger] holds(lock)(v) implies rest.upholds(v, tight(), post) by {
        lemma_held(rest, v, lock);
        let end = |u: Guard, r: Result<(), Trouble>| holds(lock)(u);
        assert forall|u: Guard, r: Result<(), Trouble>| #[trigger] end(u, r) implies post(u, r) by {}
        reason::lemma_upholds_weaken(rest, v, tight(), end, tight(), post);
    }
    assert forall|x: Answer, v: Guard, y: Answer, u: Guard|
        #![trigger w.leads(Request::CreateDirs(state_root), x, v), v.leads(Request::Lock(lock), y, u)]
        w.leads(Request::CreateDirs(state_root), x, v) && v.leads(Request::Lock(lock), y, u)
            && y is Done implies holds(lock)(u) by {}
}

/// That, if the operation succeeded, the lock in the directory of the states is held, which is the given
/// one where one is.
pub open spec fn run_locks(arguments: ArgumentsModel) -> spec_fn(Guard, Result<(), Trouble>) -> bool {
    |v: Guard, r: Result<(), Trouble>|
        r is Ok ==> exists|state_root: Seq<u8>|
            {
                &&& v.held == Some(#[trigger] path::join(state_root, bytes::text("lock"@)))
                &&& arguments.state is Some ==> arguments.state == Some(state_root)
            }
}

/// Whatever command is run, nothing is looked at or changed without the lock but what tells where the lock
/// is and what is declared.
pub proof fn law_run_locked(w: Guard, arguments: ArgumentsModel)
    requires
        w.held is None,
        !w.loose,
    ensures
        command::run_program(arguments).upholds(w, tight(), run_locks(arguments)),
{
    let post = run_locks(arguments);
    if command::command_named(arguments.command) is Ok && arguments.manifest is Some {
        let read = command::manifest_program(arguments.manifest->Some_0);
        let find = command::state_root_program(arguments.state);
        let free = without::<ManifestModel>();
        lemma_read(w, arguments.manifest->Some_0);
        assert forall|v: Guard, r: Result<ManifestModel, Trouble>| #[trigger]
            free(v, r) && r is Ok implies find.and_then(
            |state_root: Seq<u8>|
                command::locked_program(state_root, r->Ok_0, arguments.command),
        ).upholds(v, tight(), post) by {
            lemma_find_locks(v, arguments, r->Ok_0);
        }
        reason::lemma_upholds_and_then(
            read,
            |manifest: ManifestModel|
                find.and_then(
                    |state_root: Seq<u8>|
                        command::locked_program(state_root, manifest, arguments.command),
                ),
            w,
            tight(),
            free,
            post,
        );
    }
}

/// That no lock is held, and none was needed.
spec fn without<R>() -> spec_fn(Guard, Result<R, Trouble>) -> bool {
    |v: Guard, r: Result<R, Trouble>| !v.loose && v.held is None
}

/// Reading the manifest needs no lock.
proof fn lemma_read(w: Guard, p: Seq<u8>)
    requires
        w.held is None,
        !w.loose,
    ensures
        command::manifest_program(p).upholds(w, tight(), without()),
{
}

proof fn lemma_locks(
    p: Program<Result<(), Trouble>>,
    v: Guard,
    arguments: ArgumentsModel,
    state_root: Seq<u8>,
)
    requires
        p.upholds(v, tight(), locks(state_root)),
        arguments.state is Some ==> arguments.state == Some(state_root),
    ensures
        p.upholds(v, tight(), run_locks(arguments)),
{
    let (some, post) = (locks(state_root), run_locks(arguments));
    assert forall|u: Guard, r: Result<(), Trouble>| #[trigger] some(u, r) implies post(u, r) by {
        if r is Ok {
            assert(u.held == Some(path::join(state_root, bytes::text("lock"@))));
        }
    }
    reason::lemma_upholds_weaken(p, v, tight(), some, tight(), post);
}

proof fn lemma_find_locks(v: Guard, arguments: ArgumentsModel, manifest: ManifestModel)
    requires
        v.held is None,
        !v.loose,
    ensures
        command::state_root_program(arguments.state).and_then(
            |state_root: Seq<u8>|
                command::locked_program(state_root, manifest, arguments.command),
        ).upholds(v, tight(), run_locks(arguments)),
{
    let post = run_locks(arguments);
    let found = |u: Guard, r: Result<Seq<u8>, Trouble>|
        u.held is None && !u.loose && (r is Ok && arguments.state is Some ==> arguments.state
            == Some(r->Ok_0));
    let find = command::state_root_program(arguments.state);
    assert(find.upholds(v, tight(), found));
    assert forall|u: Guard, r: Result<Seq<u8>, Trouble>| #[trigger]
        found(u, r) && r is Ok implies command::locked_program(
        r->Ok_0,
        manifest,
        arguments.command,
    ).upholds(u, tight(), post) by {
        let p = command::locked_program(r->Ok_0, manifest, arguments.command);
        law_locked_first(u, r->Ok_0, manifest, arguments.command);
        lemma_locks(p, u, arguments, r->Ok_0);
    }
}

} // verus!
