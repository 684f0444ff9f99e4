//! What each command does.
use vstd::prelude::*;

use crate::bytes;
use crate::command;
use crate::command::{Command, ManifestModel};
use crate::commanded;
use crate::disk::Disk;
use crate::error::Trouble;
use crate::established;
use crate::host::{Answer, Kind, Metadata, Request};
use crate::interrupted;
use crate::mounted;
use crate::path;
use crate::program;
use crate::program::Program;
use crate::projection;
use crate::projection::ImageModel;
use crate::reason;
use crate::reason::{Both, World};
use crate::session;
use crate::shown;
use crate::shown::Scene;
use crate::sought;
use crate::sought::{noted, Setting};
use crate::state;
use crate::state::{ActivationModel, StatePaths};
use crate::tree::Forest;
use crate::watched;
use crate::watched::{Desk, Watch};

verus! {

broadcast use crate::reason::group_reason;

/// Whether the names of a manifest differ.
pub open spec fn distinct(manifest: ManifestModel) -> bool {
    forall|j: int, k: int|
        0 <= j < k < manifest.images.len() ==> (#[trigger] manifest.images[j]).0 != (
        #[trigger] manifest.images[k]).0
}

/// The commands to mount and to refresh an image, if they succeed, leave it mounted as the item of the
/// manifest under its name declares it.
pub proof fn law_mount_command(
    w: Disk,
    state_root: Seq<u8>,
    manifest: ManifestModel,
    i: int,
    former: Option<(Seq<u8>, ActivationModel)>,
)
    requires
        0 <= i < manifest.images.len(),
        distinct(manifest),
        interrupted::quiescent(w, state::places(state_root, manifest.images[i].0), former),
        established::layers_stored(manifest.images[i].1),
    ensures
        command::dispatch_program(
            state_root,
            manifest,
            Command::Mount { image: manifest.images[i].0 },
        ).meets(
            w,
            established::establishes(
                w,
                state::places(state_root, manifest.images[i].0),
                manifest.images[i].1,
                former,
            ),
        ),
        command::dispatch_program(
            state_root,
            manifest,
            Command::Refresh { image: manifest.images[i].0 },
        ).meets(
            w,
            established::establishes(
                w,
                state::places(state_root, manifest.images[i].0),
                manifest.images[i].1,
                former,
            ),
        ),
{
    let (image, model) = manifest.images[i];
    sought::law_declared_each(manifest.images, i);
    established::law_establish(w, state_root, image, manifest, false, model, former);
    established::law_establish(w, state_root, image, manifest, true, model, former);
}

/// The command to refresh an image that is not mounted is refused, and nothing changes.
pub proof fn law_refresh_command(
    w: Disk,
    state_root: Seq<u8>,
    manifest: ManifestModel,
    image: Seq<u8>,
)
    requires
        w.sound(),
        w.at(state::places(state_root, image).current) is None,
    ensures
        command::dispatch_program(state_root, manifest, Command::Refresh { image }).meets(
            w,
            |v: Disk, r: Result<(), Trouble>| v == w && r is Err,
        ),
{
    commanded::law_refresh_refused(w, state_root, image, manifest);
}

/// The command to unmount an image takes away what is mounted, or ends with it mounted as before.
pub proof fn law_unmount_command(
    w: Disk,
    state_root: Seq<u8>,
    manifest: ManifestModel,
    image: Seq<u8>,
    p: Seq<u8>,
    a: ActivationModel,
)
    requires
        interrupted::quiescent(w, state::places(state_root, image), Some((p, a))),
    ensures
        command::dispatch_program(state_root, manifest, Command::Unmount { image }).upholds(
            w,
            interrupted::unmount_safe(w, state::places(state_root, image), p, a),
            interrupted::unmount_end(w, state::places(state_root, image), p, a),
        ),
{
    interrupted::law_unmount_interrupted(w, state::places(state_root, image), image, p, a);
}

/// The command to unmount an image that is not mounted is refused, and nothing changes.
pub proof fn law_unmount_command_refused(
    w: Disk,
    state_root: Seq<u8>,
    manifest: ManifestModel,
    image: Seq<u8>,
)
    requires
        w.sound(),
        w.at(state::places(state_root, image).current) is None,
    ensures
        command::dispatch_program(state_root, manifest, Command::Unmount { image }).meets(
            w,
            |v: Disk, r: Result<(), Trouble>| v == w && r is Err,
        ),
{
    commanded::law_unmount_refused(w, state::places(state_root, image), image);
}

/// The command to check an image tells all its differences, and shows and repairs what it is asked to.
pub proof fn law_check_command(
    w: Desk,
    state_root: Seq<u8>,
    manifest: ManifestModel,
    image: Seq<u8>,
    fix: bool,
    diff: bool,
    diff_tool: Option<Seq<u8>>,
    p: Seq<u8>,
    a: ActivationModel,
)
    requires
        w.one.sound(),
        mounted::installed(w.one, state::places(state_root, image), p, a),
    ensures
        command::dispatch_program(
            state_root,
            manifest,
            Command::Check { image, fix, diff, diff_tool },
        ).meets(w, watched::checks(w, image, fix, diff, diff_tool, a)),
{
    watched::law_check(w, state::places(state_root, image), image, fix, diff, diff_tool, p, a);
}

/// The command to check an image that is not mounted is refused, and nothing changes.
pub proof fn law_check_command_refused(
    w: Disk,
    state_root: Seq<u8>,
    manifest: ManifestModel,
    image: Seq<u8>,
    fix: bool,
    diff: bool,
    diff_tool: Option<Seq<u8>>,
)
    requires
        w.sound(),
        w.at(state::places(state_root, image).current) is None,
    ensures
        command::dispatch_program(
            state_root,
            manifest,
            Command::Check { image, fix, diff, diff_tool },
        ).meets(w, |v: Disk, r: Result<(), Trouble>| v == w && r is Err),
{
    mounted::law_load_nothing(w, state::places(state_root, image));
}

/// The command that asks how an image stands, or all, is answered truly, and changes nothing.
pub proof fn law_status_command(
    w: Scene,
    state_root: Seq<u8>,
    manifest: ManifestModel,
    image: Seq<u8>,
)
    requires
        w.disk.sound(),
    ensures
        command::dispatch_program(state_root, manifest, Command::Status { image: Some(image) }).meets(
            w,
            shown::told_one(w, state_root, image),
        ),
        command::dispatch_program(state_root, manifest, Command::Status { image: None }).meets(
            w,
            shown::told_of(w, manifest.images, shown::describes_truly(w.disk, state_root)),
        ),
{
    shown::law_standing_true(w, state_root, image);
    shown::law_status_true(w, state_root, manifest.images);
}

/// The command to list the images is answered truly, and changes nothing.
pub proof fn law_list_command(w: Scene, state_root: Seq<u8>, manifest: ManifestModel)
    requires
        w.disk.sound(),
    ensures
        command::dispatch_program(state_root, manifest, Command::List).meets(
            w,
            shown::told_of(w, manifest.images, shown::lists_truly(w.disk, state_root)),
        ),
{
    shown::law_list_true(w, state_root, manifest.images);
}

/// The command to unmount an image, if it succeeds, says so at its end.
pub proof fn law_unmount_said(
    w: Watch,
    state_root: Seq<u8>,
    manifest: ManifestModel,
    image: Seq<u8>,
)
    ensures
        command::dispatch_program(state_root, manifest, Command::Unmount { image }).meets(
            w,
            said(w, bytes::text("unmounted "@) + image),
        ),
{
    lemma_unmount_said(w, state::places(state_root, image), image);
}

proof fn lemma_unmount_said(w: Watch, paths: StatePaths<Seq<u8>>, image: Seq<u8>)
    ensures
        state::unmount_program(paths, image).meets(
            w,
            said(w, bytes::text("unmounted "@) + image),
        ),
{
    let line = bytes::text("unmounted "@) + image;
    let post = said(w, line);
    let on = |v: Watch, r: Result<Option<(Seq<u8>, ActivationModel)>, Trouble>|
        watched::follows(w, v);
    let load = state::load_program(paths);
    watched::lemma_follows(load, w);
    assert forall|u: Watch, r: Result<Option<(Seq<u8>, ActivationModel)>, Trouble>| #[trigger]
        on(u, r) && r is Ok && r->Ok_0 is Some implies state::verify_program(
        r->Ok_0->Some_0.1,
    ).and_then(
        |x: ()|
            state::restorable_program(r->Ok_0->Some_0.1).and_then(
                |x: ()|
                    state::unmount_body(paths, r->Ok_0->Some_0.0, r->Ok_0->Some_0.1).bind(
                        |q: Result<(), Trouble>|
                            match q {
                                Ok(x) => session::tell(Request::Print(line)).bind(
                                    |x: ()| program::give(()),
                                ),
                                Err(e) => state::fall_back_program(paths, e),
                            },
                    ),
            ),
    ).meets(u, post) by {
        let (p, a) = r->Ok_0->Some_0;
        lemma_says(
            state::verify_program(a),
            state::restorable_program(a),
            state::unmount_body(paths, p, a),
            paths,
            w,
            u,
            line,
        );
    }
}

/// Recovering after a failure never succeeds.
proof fn lemma_never(
    paths: StatePaths<Seq<u8>>,
    e: Trouble,
    w: Watch,
    post: spec_fn(Watch, Result<(), Trouble>) -> bool,
)
    requires
        forall|v: Watch, f: Trouble| #[trigger] post(v, Err(f)),
    ensures
        state::fall_back_program(paths, e).meets(w, post),
{
    let recover = state::recover_program(paths);
    reason::lemma_anything(recover, w);
}

/// A line that is said at the end is the last.
proof fn lemma_says(
    first: Program<Result<(), Trouble>>,
    second: Program<Result<(), Trouble>>,
    third: Program<Result<(), Trouble>>,
    paths: StatePaths<Seq<u8>>,
    w: Watch,
    u: Watch,
    line: Seq<u8>,
)
    requires
        watched::follows(w, u),
    ensures
        first.and_then(
            |x: ()|
                second.and_then(
                    |x: ()|
                        third.bind(
                            |q: Result<(), Trouble>|
                                match q {
                                    Ok(x) => session::tell(Request::Print(line)).bind(
                                        |x: ()| program::give(()),
                                    ),
                                    Err(e) => state::fall_back_program(paths, e),
                                },
                        ),
                ),
        ).meets(u, said(w, line)),
{
    let post = said(w, line);
    let on = |v: Watch, r: Result<(), Trouble>| watched::follows(w, v);
    assert forall|e: Trouble, v: Watch|
        #![trigger state::fall_back_program(paths, e).meets(v, post)]
        state::fall_back_program(paths, e).meets(v, post) by {
        lemma_never(paths, e, v, post);
    }
    assert forall|v: Watch| #[trigger] watched::follows(w, v) implies first.meets(v, on)
        && second.meets(v, on) && third.meets(v, on) && session::tell(Request::Print(line)).bind(
        |x: ()| program::give(()),
    ).meets(v, post) by {
        lemma_goes_on(first, w, v);
        lemma_goes_on(second, w, v);
        lemma_goes_on(third, w, v);
        assert(v.lines.push(line).take(w.lines.len() as int) =~= v.lines.take(
            w.lines.len() as int,
        ));
    }
}

/// That, if the operation succeeded, a line was said at its end.
pub open spec fn said(w: Watch, line: Seq<u8>) -> spec_fn(Watch, Result<(), Trouble>) -> bool {
    |v: Watch, r: Result<(), Trouble>|
        r is Ok ==> v.lines.len() > w.lines.len() && v.lines.take(w.lines.len() as int) == w.lines
            && v.lines.last() == line
}

/// What was printed stays printed.
proof fn lemma_goes_on(p: Program<Result<(), Trouble>>, w: Watch, u: Watch)
    requires
        watched::follows(w, u),
    ensures
        p.meets(u, |v: Watch, r: Result<(), Trouble>| watched::follows(w, v)),
{
    let more = |v: Watch, r: Result<(), Trouble>| watched::follows(u, v);
    let on = |v: Watch, r: Result<(), Trouble>| watched::follows(w, v);
    watched::lemma_follows(p, u);
    assert forall|v: Watch, r: Result<(), Trouble>| #[trigger] more(v, r) implies on(v, r) by {
        watched::lemma_follows_again(w, u, v);
    }
    reason::lemma_weaken(p, u, more, on);
}

/// A terminal and an environment.
pub type Front = Both<Watch, Setting>;

/// Whether the terminal goes on from `w`, and some path was found to be `root` without symbolic links.
pub open spec fn rooted(w: Front, root: Seq<u8>, v: Front) -> bool {
    watched::follows(w.one, v.one) && exists|p: Seq<u8>| #[trigger]
        noted(v.other, Request::Canonicalize(p), Answer::Data(root))
}

/// What was noted stays noted.
proof fn lemma_rooted<R>(p: Program<R>, w: Front, root: Seq<u8>, u: Front)
    requires
        rooted(w, root, u),
    ensures
        p.meets(u, |v: Front, r: R| rooted(w, root, v)),
    decreases p,
{
    match p {
        Program::Ask(request, f) => {
            assert forall|x: Answer, v: Front| #[trigger] u.leads(request, x, v) implies f(x).meets(
                v,
                |y: Front, r: R| rooted(w, root, y),
            ) by {
                let q = choose|q: Seq<u8>| #[trigger]
                    noted(u.other, Request::Canonicalize(q), Answer::Data(root));
                sought::lemma_noted(u.other, request, x, v.other);
                assert(noted(v.other, Request::Canonicalize(q), Answer::Data(root)));
                assert(watched::follows(u.one, v.one)) by {
                    assert(v.one.lines.take(u.one.lines.len() as int) =~= u.one.lines);
                    assert(v.one.attached.take(u.one.attached.len() as int) =~= u.one.attached);
                }
                watched::lemma_follows_again(w.one, u.one, v.one);
                lemma_rooted(f(x), w, root, v);
            }
        },
        _ => {},
    }
}

/// That, if the operation succeeded, it was said at its end that an image was mounted, or refreshed, at a
/// root that was found.
pub open spec fn tells_root(w: Front, image: Seq<u8>, refreshing: bool) -> spec_fn(
    Front,
    Result<(), Trouble>,
) -> bool {
    |v: Front, r: Result<(), Trouble>|
        r is Ok ==> exists|root: Seq<u8>, p: Seq<u8>|
            {
                &&& #[trigger] noted(v.other, Request::Canonicalize(p), Answer::Data(root))
                &&& v.one.lines.len() > w.one.lines.len()
                &&& v.one.lines.take(w.one.lines.len() as int) == w.one.lines
                &&& v.one.lines.last() == (if refreshing {
                    bytes::text("refreshed "@)
                } else {
                    bytes::text("mounted "@)
                }) + image + bytes::text(" at "@) + root
            }
}

proof fn lemma_said_root(w: Front, v: Front, image: Seq<u8>, root: Seq<u8>, refreshing: bool)
    requires
        rooted(w, root, v),
    ensures
        command::say_program(command::mount_line(image, root, refreshing)).meets(
            v,
            tells_root(w, image, refreshing),
        ),
{
    let line = command::mount_line(image, root, refreshing);
    let q = choose|q: Seq<u8>| #[trigger]
        noted(v.other, Request::Canonicalize(q), Answer::Data(root));
    assert forall|x: Answer, u: Front| #[trigger]
        v.leads(Request::Print(line), x, u) implies tells_root(w, image, refreshing)(u, Ok(())) by {
        sought::lemma_noted(v.other, Request::Print(line), x, u.other);
        assert(noted(u.other, Request::Canonicalize(q), Answer::Data(root)));
        assert(u.one.lines.take(w.one.lines.len() as int) =~= v.one.lines.take(
            w.one.lines.len() as int,
        ));
    }
}

/// The commands to mount and to refresh an image, if they succeed, say so at their end, with the root
/// that was found.
pub proof fn law_mount_said(
    w: Front,
    state_root: Seq<u8>,
    manifest: ManifestModel,
    image: Seq<u8>,
    refreshing: bool,
)
    ensures
        command::dispatch_program(
            state_root,
            manifest,
            if refreshing {
                Command::Refresh { image }
            } else {
                Command::Mount { image }
            },
        ).meets(w, tells_root(w, image, refreshing)),
{
    if command::declared(manifest.images, image) is Some {
        let model = command::declared(manifest.images, image)->Some_0;
        let paths = state::places(state_root, image);
        let found = |v: Front, r: Result<Seq<u8>, Trouble>|
            r matches Ok(root) ==> rooted(w, root, v);
        lemma_resolve_rooted(w, model.root);
        assert forall|u: Front, r: Result<Seq<u8>, Trouble>| #[trigger]
            found(u, r) && r is Ok implies projection::compile_program(model).and_then(
            |f: Forest|
                command::mounted_program(paths, image, refreshing).and_then(
                    |x: ()|
                        state::mount_program(paths, image, r->Ok_0, f).and_then(
                            |x: ()|
                                command::say_program(
                                    command::mount_line(image, r->Ok_0, refreshing),
                                ),
                        ),
                ),
        ).meets(u, tells_root(w, image, refreshing)) by {
            lemma_established_tells(w, u, state_root, model, image, r->Ok_0, refreshing);
        }
    }
}

proof fn lemma_established_tells(
    w: Front,
    u: Front,
    state_root: Seq<u8>,
    model: ImageModel,
    image: Seq<u8>,
    root: Seq<u8>,
    refreshing: bool,
)
    requires
        rooted(w, root, u),
    ensures
        projection::compile_program(model).and_then(
            |f: Forest|
                command::mounted_program(
                    state::places(state_root, image),
                    image,
                    refreshing,
                ).and_then(
                    |x: ()|
                        state::mount_program(
                            state::places(state_root, image),
                            image,
                            root,
                            f,
                        ).and_then(
                            |x: ()|
                                command::say_program(command::mount_line(image, root, refreshing)),
                        ),
                ),
        ).meets(u, tells_root(w, image, refreshing)),
{
    let paths = state::places(state_root, image);
    let post = tells_root(w, image, refreshing);
    let line = command::mount_line(image, root, refreshing);
    let on = |v: Front, r: Result<(), Trouble>| rooted(w, root, v);
    lemma_rooted(projection::compile_program(model), w, root, u);
    assert forall|v: Front| #[trigger] rooted(w, root, v) implies command::mounted_program(
        paths,
        image,
        refreshing,
    ).meets(v, on) && command::say_program(line).meets(v, post) by {
        lemma_rooted(command::mounted_program(paths, image, refreshing), w, root, v);
        lemma_said_root(w, v, image, root, refreshing);
    }
    assert forall|v: Front, f: Forest|
        #![trigger rooted(w, root, v), state::mount_program(paths, image, root, f)]
        rooted(w, root, v) implies state::mount_program(paths, image, root, f).meets(v, on) by {
        lemma_rooted(state::mount_program(paths, image, root, f), w, root, v);
    }
}

/// The root that is found for a declared root is a path without symbolic links.
proof fn lemma_resolve_rooted(w: Front, root: Seq<u8>)
    ensures
        command::resolve_program(root).meets(
            w,
            |v: Front, r: Result<Seq<u8>, Trouble>| r matches Ok(found) ==> rooted(w, found, v),
        ),
{
    let resolve = command::resolve_program(root);
    let on = |v: Watch, r: Result<Seq<u8>, Trouble>| watched::follows(w.one, v);
    let told = |v: Setting, r: Result<Seq<u8>, Trouble>|
        r matches Ok(found) ==> exists|p: Seq<u8>, m: u32|
            {
                &&& sought::stands_for(w.other, root, p)
                &&& path::absolute(p)
                &&& #[trigger] noted(
                    v,
                    Request::Stat(p),
                    Answer::Stats((Metadata { kind: Kind::Directory, mode: m })),
                )
                &&& noted(v, Request::Canonicalize(p), Answer::Data(found))
            };
    let post = |v: Front, r: Result<Seq<u8>, Trouble>|
        r matches Ok(found) ==> rooted(w, found, v);
    watched::lemma_follows(resolve, w.one);
    sought::law_resolve(w.other, root);
    reason::lemma_of_both(resolve, w, on, told);
    let both = reason::of_both(on, told);
    assert forall|v: Front, r: Result<Seq<u8>, Trouble>| #[trigger] both(v, r) implies post(v, r) by {
        if r is Ok {
            let (p, m) = choose|p: Seq<u8>, m: u32|
                {
                    &&& sought::stands_for(w.other, root, p)
                    &&& path::absolute(p)
                    &&& #[trigger] noted(
                        v.other,
                        Request::Stat(p),
                        Answer::Stats((Metadata { kind: Kind::Directory, mode: m })),
                    )
                    &&& noted(v.other, Request::Canonicalize(p), Answer::Data(r->Ok_0))
                };
            assert(noted(v.other, Request::Canonicalize(p), Answer::Data(r->Ok_0)));
        }
    }
    reason::lemma_weaken(resolve, w, both, post);
}

} // verus!
