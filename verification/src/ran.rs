//! What holds of a whole run.
use vstd::prelude::*;

use crate::bytes;
use crate::command;
use crate::command::{ArgumentsModel, CommandModel, ManifestModel};
use crate::disk;
use crate::disk::{Disk, Spot};
use crate::error::Trouble;
use crate::host::{Answer, Request};
use crate::mounted;
use crate::path;
use crate::path::Component;
use crate::placed;
use crate::program::Program;
use crate::quiet;
use crate::reason;
use crate::reason::{Both, World};
use crate::session;
use crate::several;
use crate::several::{all_on_track, all_over, all_separate, has_state, Phase};
use crate::sought;
use crate::sought::Setting;
use crate::state;

verus! {

/// A disk and an environment.
pub type Machine = Both<Disk, Setting>;

/// Whether the images that have a state are each in a phase of a mount, a refresh or an unmount, or past
/// it, or none is under way for them; they are out of each other's way; and where there is a state, there
/// is the file that is locked for a run.
#[verifier::opaque]
pub open spec fn on_course(d: Disk, state_root: Seq<u8>, phases: spec_fn(Seq<u8>) -> Phase) -> bool {
    &&& d.sound()
    &&& disk::apart(path::components(state::images_of(state_root)), disk::vault())
    &&& all_separate(d, state_root, phases)
    &&& all_on_track(d, state_root, phases)(d)
    &&& forall|name: Seq<u8>| #[trigger]
        has_state(d, state_root, name) ==> d.at(
            path::join(state_root, bytes::text("lock"@)),
        ) is Some
}

/// Whether what was under way for the images of `w` came to its end on `u`: nothing is written down as
/// under way, and nothing is left of what was being prepared; what was being mounted is mounted, and what
/// was being unmounted is not.
#[verifier::opaque]
pub open spec fn recovered(
    w: Disk,
    u: Disk,
    state_root: Seq<u8>,
    phases: spec_fn(Seq<u8>) -> Phase,
) -> bool {
    u.sound() && forall|name: Seq<u8>| #[trigger]
        has_state(w, state_root, name) ==> {
            let paths = state::places(state_root, name);
            &&& u.at(paths.journal) is None
            &&& u.at(paths.preparing) is None
            &&& several::ended(u, paths, phases(name))
        }
}

/// Where all came to its end, nothing is under way.
proof fn lemma_recovered(w: Disk, u: Disk, state_root: Seq<u8>, phases: spec_fn(Seq<u8>) -> Phase)
    requires
        u.sound(),
        all_over(w, state_root, phases)(u, Ok(())),
    ensures
        recovered(w, u, state_root, phases),
{
    reveal(several::over);
    reveal(recovered);
    assert forall|name: Seq<u8>| #[trigger] has_state(w, state_root, name) implies several::over(
        u,
        state_root,
        phases,
        name,
    ) by {}
}

/// What was under way came to its end, whichever disk tells of the states.
proof fn lemma_recovered_same(
    w: Disk,
    x: Disk,
    u: Disk,
    state_root: Seq<u8>,
    phases: spec_fn(Seq<u8>) -> Phase,
)
    requires
        recovered(x, u, state_root, phases),
        forall|name: Seq<u8>| #[trigger]
            has_state(x, state_root, name) == has_state(w, state_root, name),
    ensures
        recovered(w, u, state_root, phases),
{
    reveal(recovered);
    assert forall|name: Seq<u8>| #[trigger] has_state(w, state_root, name) implies has_state(
        x,
        state_root,
        name,
    ) by {
        assert(has_state(x, state_root, name) == has_state(w, state_root, name));
    }
}

/// Images are on track where nothing changed.
proof fn lemma_unmoved(w: Disk, v: Disk, state_root: Seq<u8>, phases: spec_fn(Seq<u8>) -> Phase)
    requires
        on_course(w, state_root, phases),
        v.sound(),
        v.records == w.records,
        v.journals == w.journals,
        forall|name: Seq<u8>| #[trigger]
            has_state(w, state_root, name) ==> forall|j: Spot| #[trigger] v.get(j) == w.get(j),
        forall|name: Seq<u8>| #[trigger]
            has_state(v, state_root, name) ==> has_state(w, state_root, name),
    ensures
        on_course(v, state_root, phases),
        forall|name: Seq<u8>| #[trigger]
            has_state(v, state_root, name) == has_state(w, state_root, name),
{
    reveal(on_course);
    assert forall|name: Seq<u8>| #[trigger] has_state(w, state_root, name) implies has_state(
        v,
        state_root,
        name,
    ) && several::on_track(v, state_root, phases, name) by {
        let paths = state::places(state_root, name);
        reveal(several::on_track);
        several::lemma_places(state_root, name);
        assert(several::on_track(w, state_root, phases, name));
        assert(mounted::preserved(w, v));
        match phases(name) {
            Phase::Idle => {},
            Phase::Mounting(p, a) | Phase::Leaving(p, a) => {
                several::lemma_kept(w, v, paths, p, a, path::components(paths.directory));
            },
        }
    }
}

/// Directories are created on the way to the states, and the lock is taken, without moving anything that
/// is under way.
proof fn lemma_opened(
    w: Disk,
    w1: Disk,
    w2: Disk,
    state_root: Seq<u8>,
    phases: spec_fn(Seq<u8>) -> Phase,
)
    requires
        on_course(w, state_root, phases),
        w1.sound(),
        w1.records == w.records,
        w1.journals == w.journals,
        disk::paves(w, state_root, w1),
        w2.sound(),
        w2.records == w1.records,
        w2.journals == w1.journals,
        disk::opens(w1, path::join(state_root, bytes::text("lock"@)), w2),
    ensures
        on_course(w2, state_root, phases),
        forall|name: Seq<u8>| #[trigger]
            has_state(w2, state_root, name) == has_state(w, state_root, name),
{
    let root = path::components(state_root);
    let images = path::components(state::images_of(state_root));
    let lock = path::components(path::join(state_root, bytes::text("lock"@)));
    reveal(on_course);
    lemma_lock_name();
    mounted::lemma_state_names();
    path::lemma_entry(state_root, bytes::text("lock"@));
    path::lemma_entry(state_root, bytes::text("images"@));
    placed::lemma_below_push(root, Component::Normal(bytes::text("images"@)));
    assert forall|name: Seq<u8>| #[trigger] has_state(w2, state_root, name) implies has_state(
        w,
        state_root,
        name,
    ) by {
        let k = images.push(Component::Normal(name));
        assert(k.len() == root.len() + 2 && lock.len() == root.len() + 1);
        assert(w2.get(k) == w1.get(k));
        if w1.get(k) != w.get(k) {
            assert(disk::below(k, root));
        }
    }
    assert forall|name: Seq<u8>| #[trigger] has_state(w, state_root, name) implies forall|j: Spot|
     #[trigger] w2.get(j) == w.get(j) by {
        let k = images.push(Component::Normal(name));
        placed::lemma_below_push(images, Component::Normal(name));
        placed::lemma_below_trans(root, images, k);
        assert(w.get(lock) is Some);
        assert forall|j: Spot| #[trigger] w2.get(j) == w.get(j) by {
            if w1.get(j) != w.get(j) {
                assert(disk::below(j, root));
                placed::lemma_below_trans(j, root, k);
                if j.len() == 0 {
                    assert(j =~= Seq::empty());
                }
                assert(j.len() <= root.len());
            }
            if w2.get(j) != w1.get(j) {
                assert(j == lock);
            }
        }
    }
    lemma_unmoved(w, w2, state_root, phases);
}

/// The name of the lock is the name of an entry.
proof fn lemma_lock_name()
    ensures
        path::is_plain(bytes::text("lock"@)),
{
    reveal_strlit("lock");
    vstd::utf8::is_ascii_chars_encode_utf8("lock"@);
    let b = bytes::text("lock"@);
    assert(b.len() == 4);
    assert(b[0] == 'l' as u8 && b[1] == 'o' as u8 && b[2] == 'c' as u8 && b[3] == 'k' as u8);
    assert(!b.contains(bytes::SLASH));
}

/// That, if the operation succeeded, what was under way came to its end first, and what came of a
/// program is what may come of it from there.
pub open spec fn followed(
    w: Machine,
    state_root: Seq<u8>,
    phases: spec_fn(Seq<u8>) -> Phase,
    p: Program<Result<(), Trouble>>,
) -> spec_fn(Machine, Result<(), Trouble>) -> bool {
    |v: Machine, r: Result<(), Trouble>|
        r is Ok ==> exists|u: Machine|
            {
                &&& #[trigger] recovered(w.one, u.one, state_root, phases)
                &&& u.other.variables == w.other.variables
                &&& p.may(u, v, r)
            }
}

/// That, if the operation succeeded, what was under way came to its end.
pub open spec fn recovers(
    w: Machine,
    state_root: Seq<u8>,
    phases: spec_fn(Seq<u8>) -> Phase,
) -> spec_fn(Machine, Result<(), Trouble>) -> bool {
    |u: Machine, r: Result<(), Trouble>|
        {
            &&& u.other.variables == w.other.variables
            &&& r is Ok ==> recovered(w.one, u.one, state_root, phases)
        }
}

/// A program that is run after recovery.
proof fn lemma_after(
    first: Program<Result<(), Trouble>>,
    p: Program<Result<(), Trouble>>,
    w: Machine,
    x: Machine,
    state_root: Seq<u8>,
    phases: spec_fn(Seq<u8>) -> Phase,
)
    requires
        first.meets(x, recovers(w, state_root, phases)),
    ensures
        first.and_then(|u: ()| p).meets(x, followed(w, state_root, phases, p)),
{
    let mid = recovers(w, state_root, phases);
    let post = followed(w, state_root, phases, p);
    assert forall|u: Machine, r: Result<(), Trouble>| #[trigger]
        mid(u, r) && r is Ok implies p.meets(u, post) by {
        let may = |v: Machine, q: Result<(), Trouble>| p.may(u, v, q);
        reason::law_may(p, u);
        assert forall|v: Machine, q: Result<(), Trouble>| #[trigger] may(v, q) implies post(v, q) by {
            if q is Ok {
                assert(recovered(w.one, u.one, state_root, phases));
            }
        }
        reason::lemma_weaken(p, u, may, post);
    }
    reason::lemma_and_then(first, |u: ()| p, x, mid, post);
}

/// A program that brings all to its end.
proof fn lemma_ends(
    p: Program<Result<(), Trouble>>,
    w: Machine,
    x: Machine,
    state_root: Seq<u8>,
    phases: spec_fn(Seq<u8>) -> Phase,
)
    requires
        p.upholds(
            x.one,
            all_on_track(x.one, state_root, phases),
            all_over(x.one, state_root, phases),
        ),
        x.other.variables == w.other.variables,
        forall|name: Seq<u8>| #[trigger]
            has_state(x.one, state_root, name) == has_state(w.one, state_root, name),
    ensures
        p.meets(x, recovers(w, state_root, phases)),
{
    let inv = all_on_track(x.one, state_root, phases);
    let end = all_over(x.one, state_root, phases);
    let kept = |v: Disk, r: Result<(), Trouble>| inv(v) && end(v, r);
    let set = |v: Setting, r: Result<(), Trouble>| v.variables == x.other.variables;
    let mid = reason::of_both(kept, set);
    let post = recovers(w, state_root, phases);
    reason::lemma_upholds_meets(p, x.one, inv, end);
    lemma_set(p, x.other);
    reason::lemma_of_both(p, x, kept, set);
    assert forall|u: Machine, r: Result<(), Trouble>| #[trigger] mid(u, r) implies post(u, r) by {
        if r is Ok {
            lemma_recovered(x.one, u.one, state_root, phases);
            lemma_recovered_same(w.one, x.one, u.one, state_root, phases);
        }
    }
    reason::lemma_weaken(p, x, mid, post);
}

/// No program sets a variable.
proof fn lemma_set<R>(p: Program<R>, w: Setting)
    ensures
        p.meets(w, |v: Setting, r: R| v.variables == w.variables),
    decreases p,
{
    match p {
        Program::Ask(request, f) => {
            assert forall|x: Answer, v: Setting| #[trigger] w.leads(request, x, v) implies f(
                x,
            ).meets(v, |u: Setting, r: R| u.variables == w.variables) by {
                lemma_set(f(x), v);
            }
        },
        _ => {},
    }
}

/// After the lock is taken all images are recovered, and then the command is done.
proof fn lemma_recovers(
    w: Machine,
    x: Machine,
    state_root: Seq<u8>,
    manifest: ManifestModel,
    command: CommandModel,
    phases: spec_fn(Seq<u8>) -> Phase,
)
    requires
        on_course(x.one, state_root, phases),
        x.other.variables == w.other.variables,
        forall|name: Seq<u8>| #[trigger]
            has_state(x.one, state_root, name) == has_state(w.one, state_root, name),
    ensures
        state::recover_all_program(state_root).and_then(
            |u: ()| command::dispatch_program(state_root, manifest, command),
        ).meets(x, followed(
                w,
                state_root,
                phases,
                command::dispatch_program(state_root, manifest, command),
            )),
{
    let recover = state::recover_all_program(state_root);
    reveal(on_course);
    several::law_recover_all(x.one, state_root, phases);
    lemma_ends(recover, w, x, state_root, phases);
    lemma_after(
        recover,
        command::dispatch_program(state_root, manifest, command),
        w,
        x,
        state_root,
        phases,
    );
}

/// A command that is run first takes the lock, then brings all that was under way to its end, and only
/// then does what it says.
pub proof fn law_locked(
    w: Machine,
    state_root: Seq<u8>,
    manifest: ManifestModel,
    command: CommandModel,
    phases: spec_fn(Seq<u8>) -> Phase,
)
    requires
        on_course(w.one, state_root, phases),
    ensures
        command::locked_program(state_root, manifest, command).meets(
            w,
            followed(
                w,
                state_root,
                phases,
                command::dispatch_program(state_root, manifest, command),
            ),
        ),
{
    let post = followed(
                w,
                state_root,
                phases,
                command::dispatch_program(state_root, manifest, command),
            );
    let make = Request::CreateDirs(state_root);
    let lock = Request::Lock(path::join(state_root, bytes::text("lock"@)));
    let rest = state::recover_all_program(state_root).and_then(
        |u: ()| command::dispatch_program(state_root, manifest, command),
    );
    let made = |w1: Machine, r: Result<(), Trouble>|
        exists|x: Answer| #[trigger] w.leads(make, x, w1) && r == x.done();
    reason::lemma_act(make, w, made);
    assert forall|w1: Machine, r: Result<(), Trouble>| #[trigger]
        made(w1, r) && r is Ok implies session::act(lock).and_then(|u: ()| rest).meets(
        w1,
        post,
    ) by {
        let x = choose|x: Answer| #[trigger] w.leads(make, x, w1) && r == x.done();
        let held = |w2: Machine, q: Result<(), Trouble>|
            exists|y: Answer| #[trigger] w1.leads(lock, y, w2) && q == y.done();
        reason::lemma_act(lock, w1, held);
        assert forall|w2: Machine, q: Result<(), Trouble>| #[trigger]
            held(w2, q) && q is Ok implies rest.meets(w2, post) by {
            let y = choose|y: Answer| #[trigger] w1.leads(lock, y, w2) && q == y.done();
            lemma_opened(w.one, w1.one, w2.one, state_root, phases);
            lemma_recovers(w, w2, state_root, manifest, command, phases);
        }
        reason::lemma_and_then(session::act(lock), |u: ()| rest, w1, held, post);
    }
    reason::lemma_and_then(
        session::act(make),
        |u: ()| session::act(lock).and_then(|u: ()| rest),
        w,
        made,
        post,
    );
}

/// Whether the names of a manifest are names of entries.
#[verifier::opaque]
pub open spec fn names_fine(m: ManifestModel) -> bool {
    forall|i: int| 0 <= i < m.images.len() ==> path::is_plain((#[trigger] m.images[i]).0)
}

/// That, if the operation succeeded, the manifest is the one written at the given path, the states are
/// kept where they should be, what was under way for any image came to its end first, and what came of
/// the command is what may come of it from there.
pub open spec fn runs(
    w: Machine,
    arguments: ArgumentsModel,
    phases: spec_fn(Seq<u8>) -> Phase,
) -> spec_fn(Machine, Result<(), Trouble>) -> bool {
    |v: Machine, r: Result<(), Trouble>|
        r is Ok ==> exists|u: Machine, state_root: Seq<u8>, manifest: ManifestModel|
            {
                &&& sought::keeps_states(w.other, arguments.state) == Some(state_root)
                &&& names_fine(manifest)
                &&& #[trigger] recovered(w.one, u.one, state_root, phases)
                &&& u.other.variables == w.other.variables
                &&& #[trigger] command::dispatch_program(
                    state_root,
                    manifest,
                    arguments.command,
                ).may(u, v, r)
            }
}

/// Whatever command is run, what was under way for any image is brought to its end before the command
/// does anything.
pub proof fn law_run(
    w: Machine,
    arguments: ArgumentsModel,
    phases: spec_fn(Seq<u8>) -> Phase,
)
    requires
        sought::keeps_states(w.other, arguments.state) matches Some(state_root) ==> on_course(
            w.one,
            state_root,
            phases,
        ),
    ensures
        command::run_program(arguments).meets(w, runs(w, arguments, phases)),
{
    let post = runs(w, arguments, phases);
    if command::command_named(arguments.command) is Ok && arguments.manifest is Some {
        let p = arguments.manifest->Some_0;
        let read = command::manifest_program(p);
        let find = command::state_root_program(arguments.state);
        lemma_manifest(w, p);
        assert forall|x: Machine, r: Result<ManifestModel, Trouble>| #[trigger]
            manifest_read(w)(x, r) && r is Ok implies find.and_then(
            |state_root: Seq<u8>|
                command::locked_program(state_root, r->Ok_0, arguments.command),
        ).meets(x, post) by {
            lemma_found(w, x, arguments, r->Ok_0, phases);
        }
        reason::lemma_and_then(
            read,
            |manifest: ManifestModel|
                find.and_then(
                    |state_root: Seq<u8>|
                        command::locked_program(state_root, manifest, arguments.command),
                ),
            w,
            manifest_read(w),
            post,
        );
    }
}

/// That the disk did not change and no variable was set, and the states, if it was found where they are
/// kept, are kept there.
pub open spec fn places_found(w: Machine, arguments: ArgumentsModel) -> spec_fn(
    Machine,
    Result<Seq<u8>, Trouble>,
) -> bool {
    |y: Machine, r: Result<Seq<u8>, Trouble>|
        {
            &&& y.one == w.one
            &&& y.other.variables == w.other.variables
            &&& r matches Ok(p) ==> sought::keeps_states(w.other, arguments.state) == Some(p)
        }
}

proof fn lemma_places_found(w: Machine, x: Machine, arguments: ArgumentsModel)
    requires
        x.one == w.one,
        x.other.variables == w.other.variables,
    ensures
        command::state_root_program(arguments.state).meets(x, places_found(w, arguments)),
{
    let find = command::state_root_program(arguments.state);
    let mid = reason::of_both(quiet::still(x.one), root_found(x.other, arguments.state));
    lemma_state_root(x, arguments.state);
    reason::lemma_of_both(find, x, quiet::still(x.one), root_found(x.other, arguments.state));
    assert forall|y: Machine, r: Result<Seq<u8>, Trouble>| #[trigger] mid(y, r) implies places_found(
        w,
        arguments,
    )(y, r) by {}
    reason::lemma_weaken(find, x, mid, places_found(w, arguments));
}

/// After the manifest was read, it is found where the states are kept, and there the command is run.
proof fn lemma_found(
    w: Machine,
    x: Machine,
    arguments: ArgumentsModel,
    manifest: ManifestModel,
    phases: spec_fn(Seq<u8>) -> Phase,
)
    requires
        manifest_read(w)(x, Ok(manifest)),
        sought::keeps_states(w.other, arguments.state) matches Some(state_root) ==> on_course(
            w.one,
            state_root,
            phases,
        ),
    ensures
        command::state_root_program(arguments.state).and_then(
            |state_root: Seq<u8>|
                command::locked_program(state_root, manifest, arguments.command),
        ).meets(x, runs(w, arguments, phases)),
{
    let post = runs(w, arguments, phases);
    let mid = places_found(w, arguments);
    lemma_places_found(w, x, arguments);
    assert forall|y: Machine, r: Result<Seq<u8>, Trouble>| #[trigger]
        mid(y, r) && r is Ok implies command::locked_program(
        r->Ok_0,
        manifest,
        arguments.command,
    ).meets(y, post) by {
        lemma_locked_runs(w, y, arguments, r->Ok_0, manifest, phases);
    }
    reason::lemma_and_then(
        command::state_root_program(arguments.state),
        |state_root: Seq<u8>| command::locked_program(state_root, manifest, arguments.command),
        x,
        mid,
        post,
    );
}

/// That nothing changed but what is noted, and the names of the manifest that was read, if one was, are
/// names of entries.
pub open spec fn manifest_read(w: Machine) -> spec_fn(Machine, Result<ManifestModel, Trouble>) -> bool {
    |v: Machine, r: Result<ManifestModel, Trouble>|
        {
            &&& v.one == w.one
            &&& v.other.variables == w.other.variables
            &&& r matches Ok(m) ==> names_fine(m)
        }
}

proof fn lemma_manifest(w: Machine, p: Seq<u8>)
    ensures
        command::manifest_program(p).meets(w, manifest_read(w)),
{
    broadcast use crate::reason::group_reason;

    let read = command::manifest_program(p);
    let still = |v: Disk, r: Result<ManifestModel, Trouble>| v == w.one;
    let named = |v: Setting, r: Result<ManifestModel, Trouble>|
        {
            &&& v.variables == w.other.variables
            &&& r matches Ok(m) ==> names_fine(m)
        };
    assert(read.meets(w.one, still));
    assert(read.meets(w.other, named)) by {
        assert forall|m: ManifestModel|
            #![trigger command::all_named(m.images)]
            command::all_named(m.images) is Ok implies names_fine(m) by {
            reveal(names_fine);
            sought::law_all_named(m.images);
        }
    }
    reason::lemma_of_both(read, w, still, named);
    assert forall|v: Machine, r: Result<ManifestModel, Trouble>| #[trigger]
        reason::of_both(still, named)(v, r) implies manifest_read(w)(v, r) by {}
    reason::lemma_weaken(read, w, reason::of_both(still, named), manifest_read(w));
}

/// That no variable was set, and the states, if it was found where they are kept, are kept there.
pub open spec fn root_found(w: Setting, given: Option<Seq<u8>>) -> spec_fn(
    Setting,
    Result<Seq<u8>, Trouble>,
) -> bool {
    |v: Setting, r: Result<Seq<u8>, Trouble>|
        v.variables == w.variables && (r matches Ok(p) ==> sought::keeps_states(w, given) == Some(
            p,
        ))
}

/// It is found where the states are kept, and nothing changes.
proof fn lemma_state_root(x: Machine, given: Option<Seq<u8>>)
    ensures
        command::state_root_program(given).meets(x.one, quiet::still(x.one)),
        command::state_root_program(given).meets(x.other, root_found(x.other, given)),
{
    broadcast use crate::reason::group_reason;

}

/// What is run with the lock where the states are kept is what the arguments say.
proof fn lemma_locked_runs(
    w: Machine,
    y: Machine,
    arguments: ArgumentsModel,
    state_root: Seq<u8>,
    manifest: ManifestModel,
    phases: spec_fn(Seq<u8>) -> Phase,
)
    requires
        y.one == w.one,
        y.other.variables == w.other.variables,
        on_course(w.one, state_root, phases),
        sought::keeps_states(w.other, arguments.state) == Some(state_root),
        names_fine(manifest),
    ensures
        command::locked_program(state_root, manifest, arguments.command).meets(
            y,
            runs(w, arguments, phases),
        ),
{
    law_locked(y, state_root, manifest, arguments.command, phases);
    lemma_locked_weaker(
        command::locked_program(state_root, manifest, arguments.command),
        command::dispatch_program(state_root, manifest, arguments.command),
        w,
        y,
        arguments,
        state_root,
        manifest,
        phases,
    );
}

proof fn lemma_locked_weaker(
    whole: Program<Result<(), Trouble>>,
    p: Program<Result<(), Trouble>>,
    w: Machine,
    y: Machine,
    arguments: ArgumentsModel,
    state_root: Seq<u8>,
    manifest: ManifestModel,
    phases: spec_fn(Seq<u8>) -> Phase,
)
    requires
        p == command::dispatch_program(state_root, manifest, arguments.command),
        whole.meets(y, followed(y, state_root, phases, p)),
        y.one == w.one,
        y.other.variables == w.other.variables,
        sought::keeps_states(w.other, arguments.state) == Some(state_root),
        names_fine(manifest),
    ensures
        whole.meets(y, runs(w, arguments, phases)),
{
    let done = followed(y, state_root, phases, p);
    let post = runs(w, arguments, phases);
    assert forall|v: Machine, q: Result<(), Trouble>| #[trigger] done(v, q) implies post(v, q) by {
        if q is Ok {
            let u = choose|u: Machine|
                {
                    &&& #[trigger] recovered(y.one, u.one, state_root, phases)
                    &&& u.other.variables == y.other.variables
                    &&& p.may(u, v, q)
                };
            assert(recovered(w.one, u.one, state_root, phases));
        }
    }
    reason::lemma_weaken(whole, y, done, post);
}

} // verus!
