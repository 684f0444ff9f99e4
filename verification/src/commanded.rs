//! What the commands promise.
use vstd::prelude::*;

use crate::bytes;
use crate::command;
use crate::command::{ArgumentsModel, ManifestModel};
use crate::disk;
use crate::disk::Disk;
use crate::entry::{Drift, Tally};
use crate::error::{Error, Trouble};
use crate::mounted;
use crate::path;
use crate::path::Component;
use crate::placed;
use crate::program::Program;
use crate::projection;
use crate::quiet;
use crate::reason;
use crate::standing;
use crate::state;
use crate::state::{ActivationModel, StatePaths};
use crate::turned;

verus! {

broadcast use crate::reason::group_reason;

/// A command with a name that is not a single component of a path is refused before anything is
/// asked of the world outside.
pub proof fn law_names_refused(arguments: ArgumentsModel)
    requires
        command::command_named(arguments.command) is Err,
    ensures
        command::run_program(arguments) == Program::<Result<(), Trouble>>::Done(
            command::command_named(arguments.command),
        ),
{
}

/// The states of images with different names are kept apart.
pub proof fn law_places_apart(state_root: Seq<u8>, a: Seq<u8>, b: Seq<u8>)
    requires
        path::is_plain(a),
        path::is_plain(b),
        a != b,
    ensures
        disk::apart(
            path::components(state::places(state_root, a).directory),
            path::components(state::places(state_root, b).directory),
        ),
{
    let images = state::images_of(state_root);
    let d = path::components(images);
    let (x, y) = (Component::Normal(a), Component::Normal(b));
    path::lemma_entry(images, a);
    path::lemma_entry(images, b);
    placed::lemma_below_push(d.push(x), Component::Root);
    placed::lemma_below_push(d.push(y), Component::Root);
    if disk::below(d.push(x), d.push(y)) {
        placed::lemma_siblings(d, x, y, d.push(y));
    }
    if disk::below(d.push(y), d.push(x)) {
        placed::lemma_siblings(d, y, x, d.push(x));
    }
}

/// Saying what drifted changes nothing.
proof fn lemma_report(w: Disk, drifts: Seq<Drift<Seq<u8>>>)
    ensures
        command::report_program(drifts).meets(w, quiet::still(w)),
    decreases drifts.len(),
{
    if drifts.len() > 0 {
        lemma_report(w, drifts.skip(1));
    }
}

/// A failure to read what is mounted tells nothing of how the image stands.
proof fn lemma_load_blames(w: Disk, paths: StatePaths<Seq<u8>>)
    ensures
        state::load_program(paths).meets(
            w,
            |v: Disk, r: Result<Option<(Seq<u8>, ActivationModel)>, Trouble>|
                r is Err ==> !standing::blames(r->Err_0),
        ),
{
}

/// Checking a mounted image changes nothing. It succeeds only where the image is as it was left, and
/// tells of a change only where the image is not.
pub proof fn law_check_tells(
    w: Disk,
    paths: StatePaths<Seq<u8>>,
    image: Seq<u8>,
    given: Option<Seq<u8>>,
    p: Seq<u8>,
    a: ActivationModel,
)
    requires
        w.sound(),
        mounted::installed(w, paths, p, a),
    ensures
        command::check_program(paths, image, false, false, given).meets(
            w,
            |v: Disk, r: Result<(), Trouble>|
                v == w && (r is Ok ==> standing::tree_stands(w, a.projection, a.root)) && (r is Err
                    && standing::blames(r->Err_0) ==> !standing::tree_stands(
                    w,
                    a.projection,
                    a.root,
                )),
        ),
{
    let truth = standing::tree_stands(w, a.projection, a.root);
    mounted::law_load(w, paths, p, a);
    lemma_load_blames(w, paths);
    reason::lemma_both(
        state::load_program(paths),
        w,
        mounted::gives(w, Some((p, a))),
        |v: Disk, r: Result<Option<(Seq<u8>, ActivationModel)>, Trouble>|
            r is Err ==> !standing::blames(r->Err_0),
    );
    standing::law_drifts_found(w, a.projection, a.root);
    assert forall|v: Disk, t: Tally| #[trigger]
        standing::finds(w, truth)(v, t) implies command::report_program(t.1).meets(
        w,
        quiet::still(w),
    ) by {
        lemma_report(w, t.1);
    }
}

/// Checking a mounted image and repairing what drifted, if it succeeds, leaves the image as it
/// should be, and changes nothing outside its root.
pub proof fn law_check_mends(
    w: Disk,
    paths: StatePaths<Seq<u8>>,
    image: Seq<u8>,
    given: Option<Seq<u8>>,
    p: Seq<u8>,
    a: ActivationModel,
)
    requires
        w.sound(),
        mounted::installed(w, paths, p, a),
    ensures
        command::check_program(paths, image, true, false, given).meets(
            w,
            |v: Disk, r: Result<(), Trouble>|
                v.sound() && (r is Ok ==> standing::tree_stands(v, a.projection, a.root)
                    && w.same_but(path::components(a.root), v)),
        ),
{
    let root = path::components(a.root);
    let truth = standing::tree_stands(w, a.projection, a.root);
    let post = |v: Disk, r: Result<(), Trouble>|
        v.sound() && (r is Ok ==> standing::tree_stands(v, a.projection, a.root) && w.same_but(
            root,
            v,
        ));
    assert(root.take(root.len() as int) =~= root);
    mounted::law_load(w, paths, p, a);
    standing::law_drifts_found(w, a.projection, a.root);
    turned::law_tree_repair(w, a.projection, a.root, root);
    assert forall|v: Disk, r: Result<(), Trouble>| #[trigger]
        placed::tree_made(w, a.projection, a.root)(v, r) implies post(v, r) by {
        if r is Ok {
            mounted::lemma_tree_root(w, a.projection, root, v);
        }
    }
    assert forall|v: Disk, t: Tally| #[trigger]
        standing::finds(w, truth)(v, t) implies command::report_program(t.1).meets(
        w,
        quiet::still(w),
    ) by {
        lemma_report(w, t.1);
    }
}

/// Unmounting an image that is not mounted is refused, and nothing changes.
pub proof fn law_unmount_refused(w: Disk, paths: StatePaths<Seq<u8>>, image: Seq<u8>)
    requires
        w.sound(),
        w.at(paths.current) is None,
    ensures
        state::unmount_program(paths, image).meets(
            w,
            |v: Disk, r: Result<(), Trouble>| v == w && r is Err,
        ),
{
    mounted::law_load_nothing(w, paths);
}

/// Refreshing an image that is not mounted is refused, and nothing changes.
pub proof fn law_refresh_refused(
    w: Disk,
    state_root: Seq<u8>,
    image: Seq<u8>,
    manifest: ManifestModel,
)
    requires
        w.sound(),
        w.at(state::places(state_root, image).current) is None,
    ensures
        command::establish_program(state_root, image, manifest, true).meets(
            w,
            |v: Disk, r: Result<(), Trouble>| v == w && r is Err,
        ),
{
    let places = state::places(state_root, image);
    if command::declared(manifest.images, image) is Some {
        let model = command::declared(manifest.images, image)->Some_0;
        let compile = projection::compile_program(model);
        mounted::law_load_nothing(w, places);
        quiet::lemma_compile(model);
        quiet::lemma_still(compile, w);
        assert(command::resolve_program(model.root).meets(w, quiet::still(w)));
    }
}

/// That nothing changed, and the operation succeeded only if two roots do not overlap.
pub open spec fn only_if_free(w: Disk, root: Seq<u8>, other: Seq<u8>) -> spec_fn(
    Disk,
    Result<(), Trouble>,
) -> bool {
    |v: Disk, r: Result<(), Trouble>| v == w && (r is Ok ==> !state::overlap(root, other))
}

proof fn lemma_available_names(
    w: Disk,
    state_root: Seq<u8>,
    image: Seq<u8>,
    root: Seq<u8>,
    names: Seq<Seq<u8>>,
    name: Seq<u8>,
    p: Seq<u8>,
    a: ActivationModel,
)
    requires
        w.sound(),
        name != image,
        names.contains(name),
        mounted::installed(w, state::places(state_root, name), p, a),
    ensures
        state::available_names_program(state_root, image, root, names).meets(
            w,
            only_if_free(w, root, a.root),
        ),
    decreases names.len(),
{
    let places = state::places(state_root, names[0]);
    let later = names.skip(1);
    if names[0] == name {
        mounted::law_load(w, places, p, a);
        quiet::lemma_available_names(state_root, image, root, later);
        quiet::lemma_still(
            state::available_names_program(state_root, image, root, later),
            w,
        );
    } else {
        let i = choose|i: int| 0 <= i < names.len() && names[i] == name;
        assert(later[i - 1] == name);
        quiet::lemma_load(places);
        quiet::lemma_still(state::load_program(places), w);
        lemma_available_names(w, state_root, image, root, later, name, p, a);
    }
}

/// A root is available only if it does not overlap that of another image that is mounted.
#[verifier::rlimit(30)]
pub proof fn law_available(
    w: Disk,
    state_root: Seq<u8>,
    image: Seq<u8>,
    root: Seq<u8>,
    name: Seq<u8>,
    p: Seq<u8>,
    a: ActivationModel,
)
    requires
        w.sound(),
        path::is_plain(name),
        name != image,
        mounted::installed(w, state::places(state_root, name), p, a),
    ensures
        state::available_program(state_root, image, root).meets(
            w,
            only_if_free(w, root, a.root),
        ),
{
    let images = state::images_of(state_root);
    let places = state::places(state_root, name);
    let d = path::components(images);
    let x = Component::Normal(name);
    let c = d.push(x);
    let k = path::components(places.current);
    mounted::lemma_state_names();
    path::lemma_entry(state_root, bytes::text("images"@));
    path::lemma_entry(images, name);
    path::lemma_entry(places.directory, bytes::text("current"@));
    placed::lemma_below_push(d, x);
    placed::lemma_below_push(c, Component::Normal(bytes::text("current"@)));
    placed::lemma_below_trans(d, c, k);
    assert(w.get(k) is Some);
    assert(k.len() == c.len() + 1 && c.len() == d.len() + 1);
    assert(disk::is_directory(w.get(c)));
    assert(disk::is_directory(w.get(d)));
    assert forall|names: Seq<Seq<u8>>| #[trigger]
        w.lists(d, names) implies state::available_names_program(
        state_root,
        image,
        root,
        names,
    ).meets(w, only_if_free(w, root, a.root)) by {
        assert(names.contains(name));
        lemma_available_names(w, state_root, image, root, names, name, p, a);
    }
}

/// That nothing changed, and a root was refused as overlapping another one only if an image of another
/// name is written down as mounted, at that root if it is known, and the roots overlap.
pub open spec fn refused_for(w: Disk, state_root: Seq<u8>, image: Seq<u8>, root: Seq<u8>) -> spec_fn(
    Disk,
    Result<(), Trouble>,
) -> bool {
    |v: Disk, r: Result<(), Trouble>|
        v == w && (r matches Err(Error::Overlap(name, other)) ==> {
            &&& name != image
            &&& state::overlap(root, other)
            &&& w.at(state::places(state_root, name).current) is Some
            &&& forall|p: Seq<u8>, a: ActivationModel| #[trigger]
                mounted::installed(w, state::places(state_root, name), p, a) ==> other == a.root
        })
}

proof fn lemma_refused_names(
    w: Disk,
    state_root: Seq<u8>,
    image: Seq<u8>,
    root: Seq<u8>,
    names: Seq<Seq<u8>>,
)
    requires
        w.sound(),
    ensures
        state::available_names_program(state_root, image, root, names).meets(
            w,
            refused_for(w, state_root, image, root),
        ),
    decreases names.len(),
{
    if names.len() > 0 {
        let places = state::places(state_root, names[0]);
        mounted::law_load_tells(w, places);
        lemma_refused_names(w, state_root, image, root, names.skip(1));
        let load = state::load_program(places);
        let told = mounted::loads(w, places);
        let fair = |v: Disk, r: Result<Option<(Seq<u8>, ActivationModel)>, Trouble>|
            r is Err ==> !(r->Err_0 is Overlap);
        assert(load.meets(w, fair));
        reason::lemma_both(load, w, told, fair);
    }
}

/// A root is refused as overlapping another one only where another image is mounted at that root, and
/// they overlap.
pub proof fn law_available_refused(w: Disk, state_root: Seq<u8>, image: Seq<u8>, root: Seq<u8>)
    requires
        w.sound(),
    ensures
        state::available_program(state_root, image, root).meets(
            w,
            refused_for(w, state_root, image, root),
        ),
{
    let post = refused_for(w, state_root, image, root);
    assert forall|names: Seq<Seq<u8>>|
        #![trigger state::available_names_program(state_root, image, root, names)]
        state::available_names_program(state_root, image, root, names).meets(w, post) by {
        lemma_refused_names(w, state_root, image, root, names);
    }
}

/// A root that overlaps that of no other mounted image is not refused as overlapping.
pub proof fn law_available_free(w: Disk, state_root: Seq<u8>, image: Seq<u8>, root: Seq<u8>)
    requires
        w.sound(),
        forall|name: Seq<u8>|
            name != image ==> w.at((#[trigger] state::places(state_root, name)).current) is None
                || exists|p: Seq<u8>, a: ActivationModel| #[trigger]
                mounted::installed(w, state::places(state_root, name), p, a) && !state::overlap(
                    root,
                    a.root,
                ),
    ensures
        state::available_program(state_root, image, root).meets(
            w,
            |v: Disk, r: Result<(), Trouble>| v == w && !(r is Err && r->Err_0 is Overlap),
        ),
{
    law_available_refused(w, state_root, image, root);
    let free = |v: Disk, r: Result<(), Trouble>| v == w && !(r is Err && r->Err_0 is Overlap);
    assert forall|v: Disk, r: Result<(), Trouble>| #[trigger]
        refused_for(w, state_root, image, root)(v, r) implies free(v, r) by {
        if r is Err && r->Err_0 is Overlap {
            let name = r->Err_0->Overlap_0;
            let (p, a) = choose|p: Seq<u8>, a: ActivationModel| #[trigger]
                mounted::installed(w, state::places(state_root, name), p, a) && !state::overlap(
                    root,
                    a.root,
                );
            assert(mounted::installed(w, state::places(state_root, name), p, a));
        }
    }
}

} // verus!
