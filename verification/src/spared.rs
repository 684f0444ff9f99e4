//! That what is not managed is left alone, at any time.
use vstd::prelude::*;

use crate::backed;
use crate::command;
use crate::cycle;
use crate::disk;
use crate::disk::{Disk, Spot};
use crate::entry;
use crate::entry::Tally;
use crate::error::Trouble;
use crate::guarded;
use crate::interrupted;
use crate::managed::{lies_in, owned};
use crate::mounted;
use crate::path;
use crate::placed;
use crate::placing;
use crate::quiet;
use crate::quiet::any;
use crate::reason;
use crate::recovered;
use crate::returned;
use crate::state;
use crate::state::{ActivationModel, StatePaths};
use crate::steady::{steady, tends};
use crate::swept;
use crate::transition;
use crate::tree::Forest;

verus! {

broadcast use crate::reason::group_upholds;

/// Whether what stands at `j` is as it was on `w`.
pub open spec fn keeps(w: Disk, j: Spot) -> spec_fn(Disk) -> bool {
    |v: Disk| v.get(j) == w.get(j)
}

/// Whether something stands at `j`, below a root, that does not belong to what is managed there.
pub open spec fn unmanaged_at(w: Disk, root: Seq<u8>, f: Forest, j: Spot) -> bool {
    &&& lies_in(path::components(root), j)
    &&& w.get(j) is Some
    &&& !owned(f, path::components(root), j)
}

/// Whether `j` lies neither in what is kept for an image nor in the store.
pub open spec fn elsewhere(paths: StatePaths<Seq<u8>>, j: Spot) -> bool {
    !lies_in(path::components(paths.directory), j) && !disk::below(disk::vault(), j)
}

/// Turning the entries below a root leaves alone what stands there and is not managed, before or
/// after.
pub proof fn law_transition_keeps(w: Disk, from: Forest, to: Forest, root: Seq<u8>, j: Spot)
    requires
        w.sound(),
        placed::tree_proper(from),
        placed::tree_proper(to),
        placed::tree_sourced(w, to, path::components(root)),
        unmanaged_at(w, root, from, j) || unmanaged_at(w, root, to, j),
    ensures
        transition::tree_transition_program(from, to, root).upholds(w, keeps(w, j), any()),
{
    let c = path::components(root);
    let f = if unmanaged_at(w, root, from, j) {
        from
    } else {
        to
    };
    assert(c.take(c.len() as int) =~= c);
    guarded::law_transition_spares(w, from, to, root, f, c);
    assert forall|v: Disk| #[trigger] guarded::sparing(w, f, c)(v) implies keeps(w, j)(v) by {}
}

/// Repairing the entries below a root leaves alone what stands there and is not managed.
pub proof fn law_repair_keeps(w: Disk, f: Forest, root: Seq<u8>, j: Spot)
    requires
        w.sound(),
        placed::tree_proper(f),
        placed::tree_sourced(w, f, path::components(root)),
        unmanaged_at(w, root, f, j),
    ensures
        placing::tree_repair_program(f, root).upholds(w, keeps(w, j), any()),
{
    let c = path::components(root);
    assert(c.take(c.len() as int) =~= c);
    guarded::law_repair_spares(w, f, root, c);
    assert forall|v: Disk| #[trigger] guarded::sparing(w, f, c)(v) implies keeps(w, j)(v) by {}
}

/// Unmounting leaves alone what stands below the root and is not managed, also where it is
/// interrupted, or fails and recovers.
pub proof fn law_unmount_keeps(
    w: Disk,
    paths: StatePaths<Seq<u8>>,
    image: Seq<u8>,
    p: Seq<u8>,
    a: ActivationModel,
    j: Spot,
)
    requires
        mounted::are_places(paths),
        interrupted::quiescent(w, paths, Some((p, a))),
        unmanaged_at(w, a.root, a.projection, j),
        elsewhere(paths, j),
    ensures
        state::unmount_program(paths, image).upholds(w, keeps(w, j), any()),
{
    let safe = interrupted::unmount_safe(w, paths, p, a);
    let end = interrupted::unmount_end(w, paths, p, a);
    interrupted::law_unmount_interrupted(w, paths, image, p, a);
    assert forall|v: Disk| #[trigger] safe(v) implies keeps(w, j)(v) by {
        interrupted::law_unmount_local(w, v, paths, p, a, j);
    }
    assert forall|v: Disk, r: Result<(), Trouble>| #[trigger] end(v, r) implies any::<
        Disk,
        Result<(), Trouble>,
    >()(v, r) by {}
}

/// Mounting leaves alone what stands and is not managed: neither by what was mounted before, nor by
/// what is being mounted; also where it is interrupted, or fails and recovers.
pub proof fn law_mount_keeps(
    w: Disk,
    paths: StatePaths<Seq<u8>>,
    image: Seq<u8>,
    root: Seq<u8>,
    f: Forest,
    former: Option<(Seq<u8>, ActivationModel)>,
    j: Spot,
)
    requires
        mounted::are_places(paths),
        backed::spread(f, path::components(root), path::components(paths.directory)),
        interrupted::quiescent(w, paths, former),
        cycle::mountable(w, root, f),
        w.get(j) is Some,
        elsewhere(paths, j),
        !owned(f, path::components(root), j),
        former matches Some(found) ==> !owned(
            found.1.projection,
            path::components(found.1.root),
            j,
        ),
    ensures
        state::mount_program(paths, image, root, f).upholds(w, keeps(w, j), any()),
{
    let safe = interrupted::mount_safe(w, paths, root, f, former);
    let end = interrupted::mount_end(w, paths, root, f, former);
    interrupted::law_mount_interrupted(w, paths, image, root, f, former);
    assert forall|v: Disk| #[trigger] safe(v) implies keeps(w, j)(v) by {
        interrupted::law_mount_local(w, v, paths, root, f, former, j);
    }
    assert forall|v: Disk, r: Result<(), Trouble>| #[trigger] end(v, r) implies any::<
        Disk,
        Result<(), Trouble>,
    >()(v, r) by {}
}

/// Mounting an image that is not mounted, and unmounting it, leaves alone what stands below the root
/// and is not managed.
pub proof fn law_round_trip_keeps(
    w: Disk,
    paths: StatePaths<Seq<u8>>,
    image: Seq<u8>,
    root: Seq<u8>,
    f: Forest,
    j: Spot,
)
    requires
        mounted::are_places(paths),
        backed::spread(f, path::components(root), path::components(paths.directory)),
        interrupted::quiescent(w, paths, None),
        cycle::mountable(w, root, f),
        unmanaged_at(w, root, f, j),
        elsewhere(paths, j),
    ensures
        state::mount_program(paths, image, root, f).and_then(
            |u: ()| state::unmount_program(paths, image),
        ).upholds(w, keeps(w, j), any()),
{
    let none = None::<(Seq<u8>, ActivationModel)>;
    let end = interrupted::mount_end(w, paths, root, f, none);
    let safe = interrupted::mount_safe(w, paths, root, f, none);
    interrupted::law_mount_interrupted(w, paths, image, root, f, none);
    assert forall|v: Disk| #[trigger] safe(v) implies keeps(w, j)(v) by {
        interrupted::law_mount_local(w, v, paths, root, f, none, j);
    }
    assert forall|v: Disk, r: Result<(), Trouble>| #[trigger]
        end(v, r) && safe(v) && r is Ok implies state::unmount_program(paths, image).upholds(
        v,
        keeps(w, j),
        any(),
    ) by {
        let (u, p, a) = choose|u: Disk, p: Seq<u8>, a: ActivationModel| #[trigger]
            recovered::entering(u, paths, p, a)(v) && recovered::resting(v, paths, p, a)
                && interrupted::taken(w, paths, none, root, f, u, a);
        law_unmount_keeps(v, paths, image, p, a, j);
        assert forall|x: Disk| #[trigger] keeps(v, j)(x) implies keeps(w, j)(x) by {}
    }
}

/// That, if the operation succeeded, nothing is mounted, under way or left over, the managed paths are
/// as they were on `w`, and what else stood below the root on `v` is as it was there.
pub open spec fn returns_all(
    w: Disk,
    v: Disk,
    paths: StatePaths<Seq<u8>>,
    root: Seq<u8>,
    f: Forest,
) -> spec_fn(Disk, Result<(), Trouble>) -> bool {
    |x: Disk, r: Result<(), Trouble>|
        r is Ok ==> {
            &&& x.at(paths.current) is None
            &&& x.at(paths.journal) is None
            &&& swept::only_roots(x, paths, None)
            &&& returned::tree_given_back(w, x, f, root)
            &&& forall|j: Spot|
                #![trigger x.get(j)]
                unmanaged_at(v, root, f, j) && elsewhere(paths, j) ==> x.get(j) == v.get(j)
        }
}

/// Unmounting what was mounted on `w`, if it succeeds, gives back what stood at the managed paths
/// before the mount, keeps what else stands below the root, also what was added since, and leaves
/// nothing over.
pub proof fn law_unmount_returns(
    w: Disk,
    v: Disk,
    paths: StatePaths<Seq<u8>>,
    image: Seq<u8>,
    root: Seq<u8>,
    f: Forest,
)
    requires
        w.sound(),
        v.sound(),
        mounted::are_places(paths),
        backed::spread(f, path::components(root), path::components(paths.directory)),
        cycle::mounted_from(w, v, paths, root, f),
        v.at(paths.journal) is None,
    ensures
        state::unmount_program(paths, image).meets(v, returns_all(w, v, paths, root, f)),
{
    let q = state::unmount_program(paths, image);
    let post = returns_all(w, v, paths, root, f);
    returned::law_recovered_given_back(w, v, paths, root, f);
    let (p, a) = choose|p: Seq<u8>, a: ActivationModel|
        #![trigger mounted::installed(v, paths, p, a)]
        {
            &&& interrupted::quiescent(v, paths, Some((p, a)))
            &&& mounted::installed(v, paths, p, a)
            &&& a.root == root
            &&& a.projection == f
            &&& forall|x: Disk| #[trigger]
                interrupted::unmount_done(v, paths, p, a)(x) ==> returned::tree_given_back(
                    w,
                    x,
                    f,
                    root,
                )
        };
    let safe = interrupted::unmount_safe(v, paths, p, a);
    let end = interrupted::unmount_end(v, paths, p, a);
    interrupted::law_unmount_interrupted(v, paths, image, p, a);
    reason::lemma_upholds_meets(q, v, safe, end);
    let both = |x: Disk, r: Result<(), Trouble>| safe(x) && end(x, r);
    assert forall|x: Disk, r: Result<(), Trouble>| #[trigger] both(x, r) implies post(x, r) by {
        if r is Ok {
            assert(interrupted::unmount_done(v, paths, p, a)(x));
        }
    }
    reason::lemma_weaken(q, v, both, post);
}

/// Recovering leaves alone what stands below the root and is not managed: of a mount that is under
/// way, of an unmount that is, and of a mounted activation where nothing is.
pub proof fn law_recover_keeps(
    w: Disk,
    paths: StatePaths<Seq<u8>>,
    p: Seq<u8>,
    a: ActivationModel,
    j: Spot,
)
    requires
        mounted::are_places(paths),
        unmanaged_at(w, a.root, a.projection, j),
        elsewhere(paths, j),
        recovered::mounting(w, paths, p, a) || recovered::leaving(w, paths, p, a)
            || interrupted::quiescent(w, paths, Some((p, a))),
    ensures
        state::recover_program(paths).upholds(w, keeps(w, j), any()),
{
    assert(tends(w, w, paths));
    assert(recovered::local(w, w, paths, a));
    if recovered::mounting(w, paths, p, a) {
        let post = recovered::in_place(paths, p, a);
        recovered::law_recover_mounting(w, w, paths, p, a);
        assert forall|v: Disk| #[trigger] recovered::entering(w, paths, p, a)(v) implies keeps(
            w,
            j,
        )(v) by {}
        assert forall|v: Disk, r: Result<(), Trouble>| #[trigger] post(v, r) implies any::<
            Disk,
            Result<(), Trouble>,
        >()(v, r) by {}
    } else if recovered::leaving(w, paths, p, a) {
        let post = recovered::away(paths, p, a);
        recovered::law_recover_leaving(w, w, paths, p, a);
        assert forall|v: Disk| #[trigger] recovered::departing(w, paths, p, a)(v) implies keeps(
            w,
            j,
        )(v) by {}
        assert forall|v: Disk, r: Result<(), Trouble>| #[trigger] post(v, r) implies any::<
            Disk,
            Result<(), Trouble>,
        >()(v, r) by {}
    } else {
        recovered::law_recover_idle(w, paths);
        assert forall|v: Disk| #[trigger] steady(w, paths)(v) implies keeps(w, j)(v) by {}
    }
}

/// Recovering what an interrupted mount left leaves alone what stood before the mount and is not
/// managed.
pub proof fn law_mount_recovery_keeps(
    w: Disk,
    v: Disk,
    paths: StatePaths<Seq<u8>>,
    root: Seq<u8>,
    f: Forest,
    former: Option<(Seq<u8>, ActivationModel)>,
    j: Spot,
)
    requires
        mounted::are_places(paths),
        disk::apart(path::components(paths.directory), disk::vault()),
        interrupted::quiescent(w, paths, former),
        interrupted::mount_safe(w, paths, root, f, former)(v),
        w.get(j) is Some,
        elsewhere(paths, j),
        !owned(f, path::components(root), j),
        former matches Some(found) ==> !owned(
            found.1.projection,
            path::components(found.1.root),
            j,
        ),
    ensures
        state::recover_program(paths).upholds(v, keeps(w, j), any()),
{
    let safe = interrupted::mount_safe(w, paths, root, f, former);
    interrupted::law_mount_recovers(w, v, paths, root, f, former);
    assert forall|x: Disk| #[trigger] safe(x) implies keeps(w, j)(x) by {
        interrupted::law_mount_local(w, x, paths, root, f, former, j);
    }
}

/// Recovering what an interrupted unmount left leaves alone what stood below the root before the
/// unmount and is not managed.
pub proof fn law_unmount_recovery_keeps(
    w: Disk,
    v: Disk,
    paths: StatePaths<Seq<u8>>,
    p: Seq<u8>,
    a: ActivationModel,
    j: Spot,
)
    requires
        mounted::are_places(paths),
        interrupted::quiescent(w, paths, Some((p, a))),
        interrupted::unmount_safe(w, paths, p, a)(v),
        unmanaged_at(w, a.root, a.projection, j),
        elsewhere(paths, j),
    ensures
        state::recover_program(paths).upholds(v, keeps(w, j), any()),
{
    let safe = interrupted::unmount_safe(w, paths, p, a);
    interrupted::law_unmount_recovers(w, v, paths, p, a);
    assert forall|x: Disk| #[trigger] safe(x) implies keeps(w, j)(x) by {
        interrupted::law_unmount_local(w, x, paths, p, a, j);
    }
}

/// Checking a mounted image, and repairing what drifted, leaves alone what stands below the root and
/// is not managed.
pub proof fn law_check_keeps(
    w: Disk,
    paths: StatePaths<Seq<u8>>,
    image: Seq<u8>,
    fix: bool,
    given: Option<Seq<u8>>,
    p: Seq<u8>,
    a: ActivationModel,
    j: Spot,
)
    requires
        w.sound(),
        mounted::installed(w, paths, p, a),
        unmanaged_at(w, a.root, a.projection, j),
    ensures
        command::check_program(paths, image, fix, false, given).upholds(w, keeps(w, j), any()),
{
    let inv = keeps(w, j);
    let load = state::load_program(paths);
    let still = quiet::still::<Result<Option<(Seq<u8>, ActivationModel)>, Trouble>>(w);
    let loaded = mounted::gives(w, Some((p, a)));
    let drifts = entry::tree_drifts_program(a.projection, a.root, Seq::empty());
    mounted::law_load(w, paths, p, a);
    quiet::lemma_load(paths);
    quiet::lemma_quiet(load, w, inv);
    reason::lemma_upholds_both(load, w, inv, still, loaded);
    quiet::lemma_tree_drifts(a.projection, a.root, Seq::empty());
    quiet::lemma_quiet(drifts, w, inv);
    law_repair_keeps(w, a.projection, a.root, j);
    assert forall|t: Tally|
        #![trigger command::report_program(t.1)]
        command::report_program(t.1).upholds(w, inv, quiet::still(w)) by {
        quiet::lemma_report(t.1);
        quiet::lemma_quiet(command::report_program(t.1), w, inv);
    }
}

} // verus!
