//! The cycle of mounting and unmounting.
use vstd::prelude::*;

use crate::backed;
use crate::bytes;
use crate::disk;
use crate::disk::{Disk, Spot};
use crate::error::Trouble;
use crate::guarded;
use crate::host::Request;
use crate::managed::lies_in;
use crate::mounted;
use crate::path;
use crate::placed;
use crate::program::Program;
use crate::quiet;
use crate::reason;
use crate::standing;
use crate::state;
use crate::state::{ActivationModel, StatePaths, Transaction};
use crate::tree;
use crate::tree::Forest;
use crate::turned;

verus! {

broadcast use crate::reason::group_reason;

/// Whether `f` is mounted on `v`, with a baseline that holds what stood below its root on `w`.
///
/// The disk that was captured is like `w` below the root, but for what is kept for the image, if that
/// lies there, and for directories that were made on the way to it.
pub open spec fn mounted_from(
    w: Disk,
    v: Disk,
    paths: StatePaths<Seq<u8>>,
    root: Seq<u8>,
    f: Forest,
) -> bool {
    &&& standing::tree_stands(v, f, root)
    &&& exists|p: Seq<u8>, a: ActivationModel, u: Disk|
        #![trigger mounted::installed(v, paths, p, a), backed::is_capture(u, f, a.baseline, root, path::components(root))]
        {
            &&& mounted::installed(v, paths, p, a)
            &&& a.root == root
            &&& a.projection == f
            &&& backed::is_capture(u, f, a.baseline, root, path::components(root))
            &&& backed::clear_of(
                a.baseline,
                path::components(root),
                path::components(paths.directory),
            )
            &&& u.sound()
            &&& mounted::preserved(u, v)
            &&& forall|j: Spot|
                #![trigger u.get(j)]
                disk::below(path::components(root), j) && !lies_in(
                    path::components(paths.directory),
                    j,
                ) ==> backed::abides(w, u, path::components(paths.directory), j)
        }
}

/// Whether a tree can be mounted below `root`: it is of the right form, and what it is made from
/// is in the store.
pub open spec fn mountable(w: Disk, root: Seq<u8>, f: Forest) -> bool {
    &&& placed::tree_proper(f)
    &&& tree::orderly(f)
    &&& placed::tree_sourced(w, f, path::components(root))
    &&& backed::tree_stored(f)
    &&& mounted::tree_solid(f)
}

/// That a disk is sound and, if the operation succeeded, `f` is mounted in place of what stood
/// below the root on `w`.
pub open spec fn mounts(w: Disk, paths: StatePaths<Seq<u8>>, root: Seq<u8>, f: Forest) -> spec_fn(
    Disk,
    Result<(), Trouble>,
) -> bool {
    |v: Disk, r: Result<(), Trouble>|
        v.sound() && (r is Ok ==> mounted_from(w, v, paths, root, f))
}

/// Preparing and entering mounts a tree, with a baseline that holds what stood there.
proof fn lemma_replace(
    w: Disk,
    paths: StatePaths<Seq<u8>>,
    previous: Option<Seq<u8>>,
    root: Seq<u8>,
    f: Forest,
    zone: Spot,
)
    requires
        w.sound(),
        mounted::are_places(paths),
        zone == path::components(paths.directory),
        backed::spread(f, path::components(root), zone),
        mountable(w, root, f),
    ensures
        state::prepare_program(paths, root, f).and_then(
            |next: (Seq<u8>, ActivationModel)| state::enter_program(paths, previous, next),
        ).meets(w, mounts(w, paths, root, f)),
{
    let post = mounts(w, paths, root, f);
    let c = path::components(root);
    mounted::lemma_prepare(w, paths, root, f, zone);
    assert forall|u: Disk, r: Result<(Seq<u8>, ActivationModel), Trouble>| #[trigger]
        mounted::prepared(w, root, f, zone)(u, r) && r is Ok implies state::enter_program(
        paths,
        previous,
        r->Ok_0,
    ).meets(u, post) by {
        let (p, a) = r->Ok_0;
        backed::lemma_tree_sourced_grown(w, u, f, c, zone);
        assert(mounted::genuine(u, a));
        mounted::lemma_enter(u, paths, previous, p, a, zone);
        assert forall|v: Disk, q: Result<(), Trouble>| #[trigger]
            mounted::settled(u, paths, p, a)(v, q) implies post(v, q) by {
            if q is Ok {
                assert forall|j: Spot|
                    #![trigger u.get(j)]
                    disk::below(c, j) && !lies_in(zone, j) implies u.get(j) == w.get(j) by {
                    backed::lemma_grown_root(w, u, c, zone, j);
                }
                assert(mounted::installed(v, paths, p, a));
                assert(backed::is_capture(u, f, a.baseline, root, c));
            }
        }
    }
}

/// Creating the directories of the state changes nothing that a mount depends on.
pub proof fn lemma_state_created(
    w: Disk,
    v: Disk,
    paths: StatePaths<Seq<u8>>,
    root: Seq<u8>,
    f: Forest,
)
    requires
        mounted::are_places(paths),
        backed::spread(f, path::components(root), path::components(paths.directory)),
        mountable(w, root, f),
        disk::changes(w, Request::CreateDirs(paths.gc_roots), v),
    ensures
        mountable(v, root, f),
        v.at(paths.current) == w.at(paths.current),
        forall|j: Spot|
            #![trigger v.get(j)]
            !lies_in(path::components(paths.directory), j) ==> backed::abides(
                w,
                v,
                path::components(paths.directory),
                j,
            ),
{
    let zone = path::components(paths.directory);
    let (c, g) = (path::components(root), path::components(paths.gc_roots));
    mounted::lemma_places(paths);
    assert forall|j: Spot|
        #![trigger v.get(j)]
        !lies_in(zone, j) implies backed::abides(w, v, zone, j) by {
        if disk::below(j, g) {
            placed::lemma_below_both(zone, j, g);
            assert(zone.take(zone.len() as int) =~= zone);
        }
    }
    assert forall|j: Spot|
        #![trigger v.get(j)]
        disk::below(disk::vault(), j) implies v.get(j) == w.get(j) by {
        if disk::below(j, g) {
            placed::lemma_below_trans(disk::vault(), j, g);
            placed::lemma_below_both(disk::vault(), zone, g);
        }
    }
    assert(mounted::preserved(w, v)) by {
        assert forall|k: Spot, j: Spot| #[trigger]
            disk::below(k, j) && disk::in_vault(k) && w.get(k) is Some implies v.get(j) == w.get(
            j,
        ) by {
            placed::lemma_below_trans(disk::vault(), k, j);
        }
    }
    mounted::lemma_tree_sourced_preserved(w, v, f, c);
    let x = path::components(paths.current);
    if disk::below(x, g) {
        mounted::lemma_current_apart(paths);
    }
}

/// Mounting an image that is not mounted, if it succeeds, leaves it mounted: its tree stands
/// below the root, and its baseline holds what stood there before.
pub proof fn law_mount(
    w: Disk,
    paths: StatePaths<Seq<u8>>,
    image: Seq<u8>,
    root: Seq<u8>,
    f: Forest,
)
    requires
        w.sound(),
        mounted::are_places(paths),
        backed::spread(f, path::components(root), path::components(paths.directory)),
        mountable(w, root, f),
        w.at(paths.current) is None,
    ensures
        state::mount_program(paths, image, root, f).meets(w, mounts(w, paths, root, f)),
{
    let post = mounts(w, paths, root, f);
    let make = Request::CreateDirs(paths.gc_roots);
    assert forall|w1: Disk| #[trigger]
        disk::changes(w, make, w1) && w1.sound() implies state::available_program(
        paths.state_root,
        image,
        root,
    ).and_then(
        |u: ()|
            state::mount_body(paths, root, f).bind(
                |r: Result<(), Trouble>|
                    match r {
                        Ok(u) => crate::program::give(()),
                        Err(e) => state::fall_back_program(paths, e),
                    },
            ),
    ).meets(w1, post) by {
        lemma_state_created(w, w1, paths, root, f);
        quiet::lemma_available(paths.state_root, image, root);
        quiet::lemma_still(state::available_program(paths.state_root, image, root), w1);
        lemma_mount_body(w1, paths, root, f);
        assert forall|v: Disk, r: Result<(), Trouble>| #[trigger]
            mounts(w1, paths, root, f)(v, r) && r is Ok implies post(v, Ok(())) by {
            lemma_mounted_same(w1, w, v, paths, root, f);
        }
        assert forall|v: Disk, e: Trouble|
            #![trigger mounts(w1, paths, root, f)(v, Err(e))]
            mounts(w1, paths, root, f)(v, Err(e)) implies state::fall_back_program(
            paths,
            e,
        ).meets(v, post) by {
            lemma_fall_back(v, paths, e, post);
        }
    }
}

/// What was mounted where the same stood was mounted in its place.
proof fn lemma_mounted_same(
    w1: Disk,
    w: Disk,
    v: Disk,
    paths: StatePaths<Seq<u8>>,
    root: Seq<u8>,
    f: Forest,
)
    requires
        mounted_from(w1, v, paths, root, f),
        forall|j: Spot|
            #![trigger w1.get(j)]
            !lies_in(path::components(paths.directory), j) ==> backed::abides(
                w,
                w1,
                path::components(paths.directory),
                j,
            ),
    ensures
        mounted_from(w, v, paths, root, f),
{
    let c = path::components(root);
    let (p, a, u) = choose|p: Seq<u8>, a: ActivationModel, u: Disk|
        #![trigger mounted::installed(v, paths, p, a), backed::is_capture(u, f, a.baseline, root, path::components(root))]
        {
            &&& mounted::installed(v, paths, p, a)
            &&& a.root == root
            &&& a.projection == f
            &&& backed::is_capture(u, f, a.baseline, root, path::components(root))
            &&& backed::clear_of(
                a.baseline,
                path::components(root),
                path::components(paths.directory),
            )
            &&& u.sound()
            &&& mounted::preserved(u, v)
            &&& forall|j: Spot|
                #![trigger u.get(j)]
                disk::below(path::components(root), j) && !lies_in(
                    path::components(paths.directory),
                    j,
                ) ==> backed::abides(w1, u, path::components(paths.directory), j)
        };
    assert(mounted::installed(v, paths, p, a));
    assert(backed::is_capture(u, f, a.baseline, root, c));
    let zone = path::components(paths.directory);
    assert forall|j: Spot|
        #![trigger u.get(j)]
        disk::below(c, j) && !lies_in(zone, j) implies backed::abides(w, u, zone, j) by {
        assert(backed::abides(w, w1, zone, j));
    }
}

/// Recovering after a failure never succeeds.
pub proof fn lemma_fall_back(
    v: Disk,
    paths: StatePaths<Seq<u8>>,
    e: Trouble,
    post: spec_fn(Disk, Result<(), Trouble>) -> bool,
)
    requires
        v.sound(),
        forall|u: Disk, f: Trouble| u.sound() ==> #[trigger] post(u, Err(f)),
    ensures
        state::fall_back_program(paths, e).meets(v, post),
{
    let recover = state::recover_program(paths);
    mounted::lemma_intact(recover, v);
}

proof fn lemma_mount_body(w: Disk, paths: StatePaths<Seq<u8>>, root: Seq<u8>, f: Forest)
    requires
        w.sound(),
        mounted::are_places(paths),
        backed::spread(f, path::components(root), path::components(paths.directory)),
        mountable(w, root, f),
        w.at(paths.current) is None,
    ensures
        state::mount_body(paths, root, f).meets(w, mounts(w, paths, root, f)),
{
    mounted::law_load_nothing(w, paths);
    lemma_replace(w, paths, None, root, f, path::components(paths.directory));
}

/// Whether `f` is mounted on `v` in place of the activation `former`, whose managed paths were
/// turned back before.
pub open spec fn remounted(
    v: Disk,
    paths: StatePaths<Seq<u8>>,
    root: Seq<u8>,
    f: Forest,
    former: ActivationModel,
) -> bool {
    exists|u: Disk|
        #![trigger mounted_from(u, v, paths, root, f)]
        mounted_from(u, v, paths, root, f) && turned::tree_reached(
            u,
            former.projection,
            former.baseline,
            former.root,
        )
}

/// That a disk is sound and, if the operation succeeded, an activation was taken away.
pub open spec fn retired(w: Disk, a: ActivationModel) -> spec_fn(Disk, Result<(), Trouble>) -> bool {
    |v: Disk, r: Result<(), Trouble>|
        v.sound() && (r is Ok ==> mounted::preserved(w, v) && turned::tree_reached(
            v,
            a.projection,
            a.baseline,
            a.root,
        ))
}

/// Looking whether an activation may be taken away changes nothing.
pub proof fn lemma_checked_still(w: Disk, p: Seq<u8>, a: ActivationModel)
    requires
        w.sound(),
        mounted::genuine(w, a),
    ensures
        state::checked_program(Some((p, a))).meets(w, quiet::still(w)),
{
    mounted::law_verify(w, a);
    quiet::lemma_verified(a);
    quiet::lemma_still(state::restorable_program(a), w);
}

/// Taking an activation away turns its managed paths back.
pub proof fn lemma_retire(w: Disk, paths: StatePaths<Seq<u8>>, p: Seq<u8>, a: ActivationModel, zone: Spot)
    requires
        w.sound(),
        mounted::are_places(paths),
        zone == path::components(paths.directory),
        mounted::housed(paths, a),
        mounted::genuine(w, a),
    ensures
        state::retire_program(paths, Some((p, a))).meets(w, retired(w, a)),
{
    let back = retired(w, a);
    let t = Transaction::Mount { previous: Some(p), next: None };
    mounted::lemma_write_transaction(w, paths, t, zone);
    assert forall|w1: Disk, r: Result<(), Trouble>| #[trigger]
        mounted::tended::<()>(w, zone)(w1, r)
            && r is Ok implies state::deactivate_program(a).meets(w1, back) by {
        mounted::lemma_genuine_grown(w, w1, a, zone);
        mounted::lemma_deactivate(w1, a);
        assert forall|v: Disk, q: Result<(), Trouble>| #[trigger]
            mounted::turned_back(w1, a)(v, q) implies back(v, q) by {
            if q is Ok {
                assert(mounted::preserved(w, w1));
                mounted::lemma_preserved_trans(w, w1, v);
            }
        }
    }
}

/// That a disk is sound and, if the operation succeeded, `f` is mounted in place of `former`.
pub open spec fn remounts(
    paths: StatePaths<Seq<u8>>,
    root: Seq<u8>,
    f: Forest,
    former: ActivationModel,
) -> spec_fn(Disk, Result<(), Trouble>) -> bool {
    |v: Disk, r: Result<(), Trouble>|
        v.sound() && (r is Ok ==> remounted(v, paths, root, f, former))
}

/// Mounting an image that is mounted, if it succeeds, turns its managed paths back and then
/// mounts it anew.
#[verifier::rlimit(30)]
pub proof fn law_remount(
    w: Disk,
    paths: StatePaths<Seq<u8>>,
    root: Seq<u8>,
    f: Forest,
    p: Seq<u8>,
    former: ActivationModel,
)
    requires
        w.sound(),
        mounted::are_places(paths),
        backed::spread(f, path::components(root), path::components(paths.directory)),
        mounted::housed(paths, former),
        mountable(w, root, f),
        mounted::installed(w, paths, p, former),
    ensures
        state::mount_body(paths, root, f).meets(w, remounts(paths, root, f, former)),
{
    let zone = path::components(paths.directory);
    let post = remounts(paths, root, f, former);
    let current = Some((p, former));
    mounted::law_load(w, paths, p, former);
    lemma_checked_still(w, p, former);
    lemma_retire(w, paths, p, former, zone);
    assert forall|u: Disk, r: Result<(), Trouble>| #[trigger]
        retired(w, former)(u, r) && r is Ok implies state::prepare_program(
        paths,
        root,
        f,
    ).and_then(
        |next: (Seq<u8>, ActivationModel)|
            state::enter_program(paths, state::path_of(current), next),
    ).meets(u, post) by {
        mounted::lemma_tree_sourced_preserved(w, u, f, path::components(root));
        lemma_replace(u, paths, state::path_of(current), root, f, zone);
        assert forall|v: Disk, q: Result<(), Trouble>| #[trigger]
            mounts(u, paths, root, f)(v, q) implies post(v, q) by {
            if q is Ok {
                assert(mounted_from(u, v, paths, root, f));
            }
        }
    }
}

/// That a disk is sound and, if the operation succeeded, the managed paths of an activation were
/// turned back, the store is preserved, and nothing is written down as mounted.
pub open spec fn unmounts(w: Disk, paths: StatePaths<Seq<u8>>, a: ActivationModel) -> spec_fn(
    Disk,
    Result<(), Trouble>,
) -> bool {
    |v: Disk, r: Result<(), Trouble>|
        v.sound() && (r is Ok ==> {
            &&& turned::tree_reached(v, a.projection, a.baseline, a.root)
            &&& mounted::preserved(w, v)
            &&& v.at(paths.current) is None
            &&& v.at(paths.directory) is Some
        })
}

/// What was turned back stays so while the state of the image changes.
proof fn lemma_back_stays(
    w: Disk,
    u: Disk,
    v: Disk,
    paths: StatePaths<Seq<u8>>,
    a: ActivationModel,
    zone: Spot,
)
    requires
        mounted::genuine(u, a),
        mounted::housed(paths, a),
        zone == path::components(paths.directory),
        u.at(paths.directory) is Some,
        turned::tree_reached(u, a.projection, a.baseline, a.root),
        mounted::preserved(w, u),
        backed::grown(u, v, zone),
    ensures
        mounted::genuine(v, a),
        turned::tree_reached(v, a.projection, a.baseline, a.root),
        mounted::preserved(w, v),
        v.at(paths.directory) is Some,
{
    let root = path::components(a.root);
    assert(!disk::below(disk::vault(), zone));
    assert(root.take(root.len() as int) =~= root);
    mounted::lemma_genuine_grown(u, v, a, zone);
    backed::lemma_grown_untouched(u, v, root, zone);
    mounted::lemma_tree_reached_untouched(u, v, a.projection, a.baseline, a.root, root, zone);
    assert(mounted::preserved(u, v));
    mounted::lemma_preserved_trans(w, u, v);
}

/// Whether managed paths were turned back on `v`, and nothing is written down as mounted.
pub open spec fn is_back(w: Disk, v: Disk, paths: StatePaths<Seq<u8>>, a: ActivationModel) -> bool {
    &&& mounted::genuine(v, a)
    &&& turned::tree_reached(v, a.projection, a.baseline, a.root)
    &&& mounted::preserved(w, v)
    &&& v.at(paths.current) is None
    &&& v.at(paths.directory) is Some
}

/// That a disk is sound and, if the operation succeeded, managed paths are still turned back.
pub open spec fn stays_back(w: Disk, paths: StatePaths<Seq<u8>>, a: ActivationModel) -> spec_fn(
    Disk,
    Result<(), Trouble>,
) -> bool {
    |v: Disk, r: Result<(), Trouble>| v.sound() && (r is Ok ==> is_back(w, v, paths, a))
}

/// A change of another file of the state keeps managed paths turned back.
proof fn lemma_still_back(
    p: Program<Result<(), Trouble>>,
    w: Disk,
    u: Disk,
    paths: StatePaths<Seq<u8>>,
    a: ActivationModel,
    c: Spot,
    zone: Spot,
)
    requires
        u.sound(),
        p.meets(u, mounted::tended(u, zone)),
        p.meets(u, mounted::changed(u, c)),
        !disk::below(c, path::components(paths.current)),
        mounted::housed(paths, a),
        zone == path::components(paths.directory),
        is_back(w, u, paths, a),
    ensures
        p.meets(u, stays_back(w, paths, a)),
{
    reason::lemma_both(p, u, mounted::tended(u, zone), mounted::changed(u, c));
    let both = |v: Disk, r: Result<(), Trouble>|
        mounted::tended::<()>(u, zone)(v, r) && mounted::changed::<()>(u, c)(v, r);
    assert forall|v: Disk, r: Result<(), Trouble>| #[trigger] both(v, r) implies stays_back(
        w,
        paths,
        a,
    )(v, r) by {
        if r is Ok {
            lemma_back_stays(w, u, v, paths, a, zone);
            assert(v.at(paths.current) == u.at(paths.current));
        }
    }
    reason::lemma_weaken(p, u, both, stays_back(w, paths, a));
}

/// Removing the files of the state keeps managed paths turned back.
proof fn lemma_leave_rest(
    w: Disk,
    u: Disk,
    paths: StatePaths<Seq<u8>>,
    a: ActivationModel,
    zone: Spot,
)
    requires
        u.sound(),
        mounted::are_places(paths),
        zone == path::components(paths.directory),
        mounted::housed(paths, a),
        mounted::genuine(u, a),
        u.at(paths.directory) is Some,
        turned::tree_reached(u, a.projection, a.baseline, a.root),
        mounted::preserved(w, u),
    ensures
        state::remove_current_program(paths).and_then(
            |u: ()|
                state::clear_transaction_program(paths).and_then(
                    |u: ()| state::clean_program(paths, None),
                ),
        ).meets(u, stays_back(w, paths, a)),
{
    let post = stays_back(w, paths, a);
    let c = path::components(paths.current);
    mounted::lemma_places(paths);
    mounted::lemma_state_names();
    mounted::lemma_names_differ(paths);
    mounted::lemma_remove_file(u, paths.directory, bytes::text("current"@));
    assert forall|v: Disk, r: Result<(), Trouble>| #[trigger]
        turned::cleared(u, paths.current)(v, r) && r is Ok implies is_back(w, v, paths, a) by {
        backed::lemma_grown_zone(u, v, c, zone);
        lemma_back_stays(w, u, v, paths, a, zone);
    }
    assert forall|v: Disk| #[trigger] is_back(w, v, paths, a) && v.sound() implies state::clean_program(
        paths,
        None,
    ).meets(v, post) by {
        mounted::lemma_clean(v, paths, None, zone);
        lemma_still_back(
            state::clean_program(paths, None),
            w,
            v,
            paths,
            a,
            path::components(paths.gc_roots),
            zone,
        );
    }
    assert forall|v: Disk| #[trigger] is_back(w, v, paths, a) && v.sound() implies state::clear_transaction_program(
        paths,
    ).meets(v, post) by {
        mounted::lemma_clear_transaction(v, paths, zone);
        lemma_still_back(
            state::clear_transaction_program(paths),
            w,
            v,
            paths,
            a,
            path::components(paths.journal),
            zone,
        );
    }
}

/// Unmounting a mounted image, if it succeeds, turns its managed paths back; it is refused where
/// the image is not as it was left, and then nothing changes.
#[verifier::rlimit(30)]
pub proof fn law_unmount(
    w: Disk,
    paths: StatePaths<Seq<u8>>,
    image: Seq<u8>,
    p: Seq<u8>,
    a: ActivationModel,
)
    requires
        w.sound(),
        mounted::are_places(paths),
        mounted::housed(paths, a),
        mounted::installed(w, paths, p, a),
    ensures
        state::unmount_program(paths, image).meets(w, unmounts(w, paths, a)),
        !standing::tree_stands(w, a.projection, a.root) ==> state::unmount_program(
            paths,
            image,
        ).meets(w, |v: Disk, r: Result<(), Trouble>| v == w && r is Err),
{
    let zone = path::components(paths.directory);
    let post = unmounts(w, paths, a);
    mounted::lemma_zone_stands(w, paths);
    mounted::law_load(w, paths, p, a);
    mounted::law_verify(w, a);
    quiet::lemma_verified(a);
    quiet::lemma_still(state::restorable_program(a), w);
    mounted::lemma_write_transaction(w, paths, Transaction::Unmount { activation: p }, zone);
    let body = state::unmount_body(paths, p, a);
    assert(body.meets(w, post)) by {
        assert forall|w1: Disk, r: Result<(), Trouble>| #[trigger]
            mounted::tended::<()>(w, zone)(w1, r)
                && r is Ok implies state::deactivate_program(a).and_then(
            |u: ()|
                state::remove_current_program(paths).and_then(
                    |u: ()|
                        state::clear_transaction_program(paths).and_then(
                            |u: ()| state::clean_program(paths, None),
                        ),
                ),
        ).meets(w1, post) by {
            mounted::lemma_genuine_grown(w, w1, a, zone);
            assert(w1.get(zone) == w.get(zone));
            mounted::lemma_deactivate(w1, a);
            let back = |v: Disk, r: Result<(), Trouble>|
                mounted::turned_back(w1, a)(v, r) && (r is Ok ==> w1.same_but(
                    path::components(a.root),
                    v,
                )) && guarded::sparing(w1, a.projection, path::components(a.root))(v);
            assert forall|u: Disk, q: Result<(), Trouble>| #[trigger]
                back(u, q) && q is Ok implies state::remove_current_program(paths).and_then(
                |u: ()|
                    state::clear_transaction_program(paths).and_then(
                        |u: ()| state::clean_program(paths, None),
                    ),
            ).meets(u, post) by {
                mounted::lemma_genuine_root(w1, u, a);
                mounted::lemma_zone_spared(w1, u, paths, a);
                assert(mounted::preserved(w, w1));
                mounted::lemma_preserved_trans(w, w1, u);
                lemma_leave_rest(w, u, paths, a, zone);
                assert forall|v: Disk, t: Result<(), Trouble>| #[trigger]
                    stays_back(w, paths, a)(v, t) implies post(v, t) by {}
            }
        }
    }
    assert forall|v: Disk, e: Trouble|
        #![trigger post(v, Err(e))]
        post(v, Err(e)) implies state::fall_back_program(paths, e).meets(v, post) by {
        lemma_fall_back(v, paths, e, post);
    }
}

} // verus!
