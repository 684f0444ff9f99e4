//! What mounting and refreshing an image promises.
use vstd::prelude::*;

use crate::backed;
use crate::command;
use crate::command::ManifestModel;
use crate::compiled;
use crate::cycle;
use crate::disk;
use crate::disk::Disk;
use crate::error::Trouble;
use crate::interrupted;
use crate::mounted;
use crate::path;
use crate::projection;
use crate::projection::ImageModel;
use crate::quiet;
use crate::reason;
use crate::state;
use crate::state::{ActivationModel, StatePaths};
use crate::swept;
use crate::tree::Forest;

verus! {

broadcast use crate::reason::group_reason;

/// Whether `root` is what the root of an image may be found to be, and `f` what may be read of its
/// layers.
pub open spec fn drawn(w: Disk, model: ImageModel, root: Seq<u8>, f: Forest) -> bool {
    &&& command::resolve_program(model.root).may(w, w, Ok(root))
    &&& projection::compile_program(model).may(w, w, Ok(f))
}

/// Whether the layers of an image are in the store.
pub open spec fn layers_stored(model: ImageModel) -> bool {
    forall|i: int|
        0 <= i < model.layers.len() ==> disk::in_vault(
            path::components((#[trigger] model.layers[i]).source),
        )
}

/// Whether the tree `f` is mounted below `root`, in place of `former`, and nothing is left over; where
/// nothing was mounted before, the baseline holds what stood below the root on `w`.
pub open spec fn in_force(
    w: Disk,
    v: Disk,
    paths: StatePaths<Seq<u8>>,
    root: Seq<u8>,
    f: Forest,
    former: Option<(Seq<u8>, ActivationModel)>,
) -> bool {
    &&& interrupted::mount_done(w, paths, root, f, former)(v)
    &&& swept::tidy(v, paths)
    &&& former is None ==> cycle::mounted_from(w, v, paths, root, f)
}

/// That a disk is sound and, if the operation succeeded, what was read of the layers of an image is
/// mounted below what its root was found to be, provided that leaves alone what is kept for the image
/// and the store.
pub open spec fn establishes(
    w: Disk,
    paths: StatePaths<Seq<u8>>,
    model: ImageModel,
    former: Option<(Seq<u8>, ActivationModel)>,
) -> spec_fn(Disk, Result<(), Trouble>) -> bool {
    |v: Disk, r: Result<(), Trouble>|
        v.sound() && (r is Ok ==> exists|root: Seq<u8>, f: Forest| #[trigger]
            drawn(w, model, root, f) && (backed::spread(
                f,
                path::components(root),
                path::components(paths.directory),
            ) ==> in_force(w, v, paths, root, f, former)))
}

/// Mounting what was read below the root that was found does so.
proof fn lemma_mounts(
    w: Disk,
    paths: StatePaths<Seq<u8>>,
    image: Seq<u8>,
    model: ImageModel,
    root: Seq<u8>,
    f: Forest,
    former: Option<(Seq<u8>, ActivationModel)>,
)
    requires
        mounted::are_places(paths),
        interrupted::quiescent(w, paths, former),
        drawn(w, model, root, f),
        backed::spread(f, path::components(root), path::components(paths.directory))
            ==> cycle::mountable(w, root, f),
    ensures
        state::mount_program(paths, image, root, f).meets(w, establishes(w, paths, model, former)),
{
    let q = state::mount_program(paths, image, root, f);
    let post = establishes(w, paths, model, former);
    mounted::lemma_intact(q, w);
    if backed::spread(f, path::components(root), path::components(paths.directory)) {
        let safe = interrupted::mount_safe(w, paths, root, f, former);
        let end = interrupted::mount_end(w, paths, root, f, former);
        interrupted::law_mount_interrupted(w, paths, image, root, f, former);
        reason::lemma_upholds_meets(q, w, safe, end);
        let kept = |v: Disk, r: Result<(), Trouble>| safe(v) && end(v, r);
        reason::lemma_both(q, w, kept, mounted::intact(w));
        let both = |v: Disk, r: Result<(), Trouble>| kept(v, r) && mounted::intact(w)(v, r);
        assert forall|v: Disk, r: Result<(), Trouble>| #[trigger] both(v, r) implies post(v, r) by {
            if r is Ok && former is None {
                interrupted::law_mount_done(w, v, paths, root, f);
            }
        }
        reason::lemma_weaken(q, w, both, post);
    } else {
        reason::lemma_weaken(q, w, mounted::intact(w), post);
    }
}

/// Looking whether an image is mounted, where that is asked for, mounting it and saying so mounts it.
proof fn lemma_last(
    w: Disk,
    paths: StatePaths<Seq<u8>>,
    image: Seq<u8>,
    refreshing: bool,
    model: ImageModel,
    root: Seq<u8>,
    f: Forest,
    former: Option<(Seq<u8>, ActivationModel)>,
)
    requires
        mounted::are_places(paths),
        interrupted::quiescent(w, paths, former),
        drawn(w, model, root, f),
        backed::spread(f, path::components(root), path::components(paths.directory))
            ==> cycle::mountable(w, root, f),
    ensures
        command::mounted_program(paths, image, refreshing).and_then(
            |u: ()|
                state::mount_program(paths, image, root, f).and_then(
                    |u: ()| command::say_program(command::mount_line(image, root, refreshing)),
                ),
        ).meets(w, establishes(w, paths, model, former)),
{
    let post = establishes(w, paths, model, former);
    let line = command::mount_line(image, root, refreshing);
    let look = command::mounted_program(paths, image, refreshing);
    assert(look.meets(w, quiet::still(w))) by {
        quiet::lemma_load(paths);
        quiet::lemma_still(state::load_program(paths), w);
    }
    lemma_mounts(w, paths, image, model, root, f, former);
    assert(state::mount_program(paths, image, root, f).and_then(
        |u: ()| command::say_program(line),
    ).meets(w, post)) by {
        assert forall|v: Disk| post(v, Ok(())) implies #[trigger] command::say_program(line).meets(
            v,
            post,
        ) by {}
    }
}

/// Mounting or refreshing an image, if it succeeds, leaves it mounted: what was read of its layers
/// stands below what its root was found to be, in place of what was mounted before.
pub proof fn law_establish(
    w: Disk,
    state_root: Seq<u8>,
    image: Seq<u8>,
    manifest: ManifestModel,
    refreshing: bool,
    model: ImageModel,
    former: Option<(Seq<u8>, ActivationModel)>,
)
    requires
        interrupted::quiescent(w, state::places(state_root, image), former),
        command::declared(manifest.images, image) == Some(model),
        layers_stored(model),
    ensures
        command::establish_program(state_root, image, manifest, refreshing).meets(
            w,
            establishes(w, state::places(state_root, image), model, former),
        ),
{
    let paths = state::places(state_root, image);
    let post = establishes(w, paths, model, former);
    let resolve = command::resolve_program(model.root);
    let compile = projection::compile_program(model);
    let found = |v: Disk, r: Result<Seq<u8>, Trouble>| v == w && resolve.may(w, v, r);
    lemma_finds(w, model);
    lemma_reads(w, model);
    assert forall|v: Disk, r: Result<Seq<u8>, Trouble>| #[trigger]
        found(v, r) && r is Ok implies compile.and_then(
        |f: Forest|
            command::mounted_program(paths, image, refreshing).and_then(
                |u: ()|
                    state::mount_program(paths, image, r->Ok_0, f).and_then(
                        |u: ()|
                            command::say_program(
                                command::mount_line(image, r->Ok_0, refreshing),
                            ),
                    ),
            ),
    ).meets(v, post) by {
        let root = r->Ok_0;
        assert forall|u: Disk, q: Result<Forest, Trouble>| #[trigger]
            reads(w, model)(u, q) && q is Ok implies command::mounted_program(
            paths,
            image,
            refreshing,
        ).and_then(
            |x: ()|
                state::mount_program(paths, image, root, q->Ok_0).and_then(
                    |x: ()| command::say_program(command::mount_line(image, root, refreshing)),
                ),
        ).meets(u, post) by {
            assert(drawn(w, model, root, q->Ok_0));
            lemma_last(w, paths, image, refreshing, model, root, q->Ok_0, former);
        }
    }
}

/// Finding out the root of an image changes nothing.
proof fn lemma_finds(w: Disk, model: ImageModel)
    ensures
        command::resolve_program(model.root).meets(
            w,
            |v: Disk, r: Result<Seq<u8>, Trouble>|
                v == w && command::resolve_program(model.root).may(w, v, r),
        ),
{
    let resolve = command::resolve_program(model.root);
    let may = |v: Disk, r: Result<Seq<u8>, Trouble>| resolve.may(w, v, r);
    reason::law_may(resolve, w);
    assert(resolve.meets(w, quiet::still(w)));
    reason::lemma_both(resolve, w, quiet::still(w), may);
}

/// That nothing changed, the result is one that may be read of the layers of an image, and it can be
/// mounted below any root apart from the store.
pub open spec fn reads(w: Disk, model: ImageModel) -> spec_fn(Disk, Result<Forest, Trouble>) -> bool {
    |v: Disk, r: Result<Forest, Trouble>|
        compiled::reads_well(w)(v, r) && projection::compile_program(model).may(w, v, r)
}

/// What is read of layers in the store can be mounted below any root apart from it.
proof fn lemma_reads(w: Disk, model: ImageModel)
    requires
        w.sound(),
        layers_stored(model),
    ensures
        projection::compile_program(model).meets(w, reads(w, model)),
{
    let compile = projection::compile_program(model);
    let may = |v: Disk, r: Result<Forest, Trouble>| compile.may(w, v, r);
    reason::law_may(compile, w);
    compiled::law_compile(w, model);
    reason::lemma_both(compile, w, compiled::reads_well(w), may);
}

} // verus!
