//! That mounting and unmounting can be interrupted at any time.
use vstd::prelude::*;

use crate::backed;
use crate::backed::abides;
use crate::cycle;
use crate::disk;
use crate::disk::{Disk, Spot};
use crate::error::Trouble;
use crate::guarded;
use crate::host::{Answer, Request};
use crate::managed::lies_in;
use crate::mounted;
use crate::path;
use crate::placed;
use crate::program;
use crate::quiet;
use crate::quiet::any;
use crate::reason;
use crate::reason::World;
use crate::recovered;
use crate::recovered::{
    entering, departing, journal_is, local, mounting, ready, resting, vacated,
};
use crate::standing;
use crate::state;
use crate::state::{ActivationModel, StatePaths, Transaction};
use crate::steady;
use crate::steady::{steady, tends};
use crate::swept;
use crate::tree::Forest;
use crate::turned;

verus! {

broadcast use crate::reason::group_upholds;

/// Whether nothing is under way on `w`, and `former` is what is mounted.
pub open spec fn quiescent(
    w: Disk,
    paths: StatePaths<Seq<u8>>,
    former: Option<(Seq<u8>, ActivationModel)>,
) -> bool {
    &&& w.sound()
    &&& w.at(paths.journal) is None
    &&& match former {
        Some(found) => mounted::installed(w, paths, found.0, found.1) && mounted::housed(
            paths,
            found.1,
        ),
        None => w.at(paths.current) is None,
    }
}

/// Whether an activation of `f` was made on `u`, after what was mounted before was taken away and
/// nothing else had changed but what is kept for the image: its baseline holds what stood below the
/// root.
pub open spec fn taken(
    w: Disk,
    paths: StatePaths<Seq<u8>>,
    former: Option<(Seq<u8>, ActivationModel)>,
    root: Seq<u8>,
    f: Forest,
    u: Disk,
    a: ActivationModel,
) -> bool {
    &&& a.root == root
    &&& a.projection == f
    &&& u.sound()
    &&& backed::is_capture(u, f, a.baseline, root, path::components(root))
    &&& match former {
        Some(found) => local(w, u, paths, found.1) && turned::tree_reached(
            u,
            found.1.projection,
            found.1.baseline,
            found.1.root,
        ),
        None => tends(w, u, paths),
    }
}

/// Whether a disk is one that an interrupted mount may leave: nothing was changed that matters,
/// or the mount of the former activation, or of the new one, is under way or done.
pub open spec fn mount_safe(
    w: Disk,
    paths: StatePaths<Seq<u8>>,
    root: Seq<u8>,
    f: Forest,
    former: Option<(Seq<u8>, ActivationModel)>,
) -> spec_fn(Disk) -> bool {
    |v: Disk|
        {
            ||| steady(w, paths)(v)
            ||| former matches Some(found) && entering(w, paths, found.0, found.1)(v)
            ||| exists|u: Disk, p: Seq<u8>, a: ActivationModel| #[trigger]
                entering(u, paths, p, a)(v) && taken(w, paths, former, root, f, u, a)
        }
}

/// Whether the new activation is mounted.
pub open spec fn mount_done(
    w: Disk,
    paths: StatePaths<Seq<u8>>,
    root: Seq<u8>,
    f: Forest,
    former: Option<(Seq<u8>, ActivationModel)>,
) -> spec_fn(Disk) -> bool {
    |v: Disk|
        exists|u: Disk, p: Seq<u8>, a: ActivationModel| #[trigger]
            entering(u, paths, p, a)(v) && resting(v, paths, p, a) && taken(
                w,
                paths,
                former,
                root,
                f,
                u,
                a,
            )
}

/// Whether nothing is under way, and nothing was changed that matters, or the former activation
/// is mounted, or the new one.
pub open spec fn mount_rest(
    w: Disk,
    paths: StatePaths<Seq<u8>>,
    root: Seq<u8>,
    f: Forest,
    former: Option<(Seq<u8>, ActivationModel)>,
) -> spec_fn(Disk) -> bool {
    |v: Disk|
        {
            ||| steady(w, paths)(v)
            ||| former matches Some(found) && resting(v, paths, found.0, found.1)
            ||| mount_done(w, paths, root, f, former)(v)
        }
}

/// That the new activation is mounted, and nothing is left over, if the operation succeeded; and if
/// it failed and recovered, nothing is under way.
pub open spec fn mount_end(
    w: Disk,
    paths: StatePaths<Seq<u8>>,
    root: Seq<u8>,
    f: Forest,
    former: Option<(Seq<u8>, ActivationModel)>,
) -> spec_fn(Disk, Result<(), Trouble>) -> bool {
    |v: Disk, r: Result<(), Trouble>|
        match r {
            Ok(u) => mount_done(w, paths, root, f, former)(v) && swept::tidy(v, paths),
            Err(e) => !(e is Unrecovered) ==> mount_rest(w, paths, root, f, former)(v),
        }
}

/// Recovering what an interrupted mount leaves ends with nothing under way, and may be
/// interrupted in turn.
pub proof fn law_mount_recovers(
    w: Disk,
    v: Disk,
    paths: StatePaths<Seq<u8>>,
    root: Seq<u8>,
    f: Forest,
    former: Option<(Seq<u8>, ActivationModel)>,
)
    requires
        mounted::are_places(paths),
        disk::apart(path::components(paths.directory), disk::vault()),
        quiescent(w, paths, former),
        mount_safe(w, paths, root, f, former)(v),
    ensures
        state::recover_program(paths).upholds(
            v,
            mount_safe(w, paths, root, f, former),
            |x: Disk, r: Result<(), Trouble>|
                r is Ok ==> mount_rest(w, paths, root, f, former)(x),
        ),
{
    let inv = mount_safe(w, paths, root, f, former);
    if steady(w, paths)(v) {
        recovered::law_recover_idle(v, paths);
        assert forall|x: Disk| #[trigger] steady(v, paths)(x) implies inv(x) && mount_rest(
            w,
            paths,
            root,
            f,
            former,
        )(x) by {
            steady::lemma_tends_trans(w, v, x, paths);
        }
    } else {
        let (u, p, a) = if former matches Some(found) && entering(w, paths, found.0, found.1)(v) {
            (w, former->Some_0.0, former->Some_0.1)
        } else {
            choose|u: Disk, p: Seq<u8>, a: ActivationModel| #[trigger]
                entering(u, paths, p, a)(v) && taken(w, paths, former, root, f, u, a)
        };
        assert(entering(u, paths, p, a)(v));
        assert forall|x: Disk| #[trigger] entering(u, paths, p, a)(x) implies inv(x) && (resting(
            x,
            paths,
            p,
            a,
        ) ==> mount_rest(w, paths, root, f, former)(x)) by {}
        if mounting(v, paths, p, a) {
            recovered::law_recover_mounting(u, v, paths, p, a);
        } else {
            recovered::law_recover_idle(v, paths);
            assert forall|x: Disk| #[trigger] steady(v, paths)(x) implies entering(
                u,
                paths,
                p,
                a,
            )(x) && resting(x, paths, p, a) by {
                recovered::lemma_resting(v, x, paths, p, a);
                recovered::lemma_local_trans(u, v, x, paths, a);
            }
        }
    }
}

/// A failure is recovered from.
proof fn lemma_fall_back(
    w: Disk,
    v: Disk,
    paths: StatePaths<Seq<u8>>,
    root: Seq<u8>,
    f: Forest,
    former: Option<(Seq<u8>, ActivationModel)>,
    e: Trouble,
)
    requires
        mounted::are_places(paths),
        disk::apart(path::components(paths.directory), disk::vault()),
        quiescent(w, paths, former),
        mount_safe(w, paths, root, f, former)(v),
    ensures
        state::fall_back_program(paths, e).upholds(
            v,
            mount_safe(w, paths, root, f, former),
            mount_end(w, paths, root, f, former),
        ),
{
    law_mount_recovers(w, v, paths, root, f, former);
}

/// Whether what was mounted before was taken away, with that written down.
pub open spec fn ready_for(
    w: Disk,
    paths: StatePaths<Seq<u8>>,
    former: Option<(Seq<u8>, ActivationModel)>,
) -> spec_fn(Disk) -> bool {
    |v: Disk|
        {
            &&& v.sound()
            &&& match former {
                Some(found) => {
                    &&& local(w, v, paths, found.1)
                    &&& mounting(v, paths, found.0, found.1)
                    &&& turned::tree_reached(
                        v,
                        found.1.projection,
                        found.1.baseline,
                        found.1.root,
                    )
                },
                None => v == w,
            }
        }
}

/// Taking away what is mounted may be interrupted at any time.
proof fn lemma_retire(
    w: Disk,
    paths: StatePaths<Seq<u8>>,
    root: Seq<u8>,
    f: Forest,
    former: Option<(Seq<u8>, ActivationModel)>,
)
    requires
        mounted::are_places(paths),
        disk::apart(path::components(paths.directory), disk::vault()),
        quiescent(w, paths, former),
    ensures
        state::retire_program(paths, former).upholds(
            w,
            mount_safe(w, paths, root, f, former),
            |v: Disk, r: Result<(), Trouble>| r is Ok ==> ready_for(w, paths, former)(v),
        ),
{
    let inv = mount_safe(w, paths, root, f, former);
    let post = |v: Disk, r: Result<(), Trouble>| r is Ok ==> ready_for(w, paths, former)(v);
    assert(tends(w, w, paths));
    assert(steady(w, paths)(w));
    assert(inv(w));
    if former is Some {
        let (p, a) = former->Some_0;
        let t = Transaction::Mount { previous: Some(p), next: None };
        mounted::lemma_zone_stands(w, paths);
        let way = recovered::flips(
            w,
            paths,
            paths.journal,
            paths.current,
            recovered::journal_of(w, t),
        );
        let written = |v: Disk, r: Result<(), Trouble>| r is Ok ==> journal_is(v, paths, t);
        recovered::lemma_write_transaction(w, paths, t);
        assert forall|v: Disk| #[trigger] way(v) implies inv(v) && (journal_is(v, paths, t)
            ==> mounting(v, paths, p, a)) by {
            recovered::lemma_ready(w, v, paths, p, a);
            recovered::lemma_tends_local(w, v, paths, a);
            if journal_is(v, paths, t) {
                assert(mounting(v, paths, p, a));
                assert(entering(w, paths, p, a)(v));
            } else {
                assert(steady(w, paths)(v));
            }
        }
        assert forall|v: Disk, r: Result<(), Trouble>| #[trigger]
            written(v, r) && way(v) && r is Ok implies state::deactivate_program(a).upholds(
            v,
            inv,
            post,
        ) by {
            lemma_deactivate(w, v, paths, p, a);
            assert forall|x: Disk| #[trigger] entering(w, paths, p, a)(x) implies inv(x) by {}
        }
    }
}

/// While what is mounted is taken away, it may be put back.
proof fn lemma_deactivate(
    w: Disk,
    v: Disk,
    paths: StatePaths<Seq<u8>>,
    p: Seq<u8>,
    a: ActivationModel,
)
    requires
        mounted::are_places(paths),
        local(w, v, paths, a),
        mounting(v, paths, p, a),
    ensures
        state::deactivate_program(a).upholds(
            v,
            entering(w, paths, p, a),
            |x: Disk, r: Result<(), Trouble>|
                r is Ok ==> ready_for(w, paths, Some((p, a)))(x),
        ),
{
    let root = path::components(a.root);
    let q = state::deactivate_program(a);
    let inv = entering(w, paths, p, a);
    let post = |x: Disk, r: Result<(), Trouble>| r is Ok ==> ready_for(w, paths, Some((p, a)))(x);
    let reached = turned::tree_turned(v, a.projection, a.baseline, a.root);
    let inside = guarded::sparing(v, a.projection, root);
    let t = choose|t: Transaction<Seq<u8>>| #[trigger]
        journal_is(v, paths, t) && recovered::brings(t, p);
    assert(root.take(root.len() as int) =~= root);
    guarded::law_transition_spares(v, a.projection, a.baseline, a.root, a.projection, root);
    turned::law_tree_transition(v, a.projection, a.baseline, a.root, root);
    reason::lemma_upholds_both(q, v, inside, any(), reached);
    let both = |x: Disk, r: Result<(), Trouble>|
        any::<Disk, Result<(), Trouble>>()(x, r) && reached(x, r);
    assert forall|x: Disk| #[trigger] inside(x) implies inv(x) && mounting(x, paths, p, a) by {
        recovered::lemma_root_away(v, x, paths, p, a);
        recovered::lemma_local_trans(w, v, x, paths, a);
        assert(journal_is(x, paths, t));
    }
    assert forall|x: Disk, r: Result<(), Trouble>| #[trigger]
        both(x, r) && inside(x) implies post(x, r) by {
        assert(inv(x));
    }
}

/// Whether an activation of `f` is prepared, with what was mounted before taken away.
pub open spec fn prepared_for(
    w: Disk,
    paths: StatePaths<Seq<u8>>,
    root: Seq<u8>,
    f: Forest,
    former: Option<(Seq<u8>, ActivationModel)>,
    v: Disk,
    next: (Seq<u8>, ActivationModel),
) -> bool {
    &&& v.sound()
    &&& ready(v, paths, next.0, next.1)
    &&& v.at(paths.preparing) is None
    &&& taken(w, paths, former, root, f, v, next.1)
    &&& match former {
        Some(found) => local(w, v, paths, found.1) && mounting(v, paths, found.0, found.1),
        None => steady(w, paths)(v),
    }
}

/// Preparing an activation may be interrupted at any time.
proof fn lemma_prepare(
    w: Disk,
    v: Disk,
    paths: StatePaths<Seq<u8>>,
    root: Seq<u8>,
    f: Forest,
    former: Option<(Seq<u8>, ActivationModel)>,
)
    requires
        mounted::are_places(paths),
        backed::spread(f, path::components(root), path::components(paths.directory)),
        quiescent(w, paths, former),
        cycle::mountable(w, root, f),
        ready_for(w, paths, former)(v),
    ensures
        state::prepare_program(paths, root, f).upholds(
            v,
            mount_safe(w, paths, root, f, former),
            |x: Disk, r: Result<(Seq<u8>, ActivationModel), Trouble>|
                r matches Ok(next) ==> prepared_for(w, paths, root, f, former, x, next),
        ),
{
    let inv = mount_safe(w, paths, root, f, former);
    let post = |x: Disk, r: Result<(Seq<u8>, ActivationModel), Trouble>|
        r matches Ok(next) ==> prepared_for(w, paths, root, f, former, x, next);
    let zone = path::components(paths.directory);
    let c = path::components(root);
    let q = state::prepare_program(paths, root, f);
    let made = mounted::prepared(v, root, f, zone);
    assert(tends(v, v, paths));
    steady::lemma_prepare(v, v, paths, root, f);
    mounted::lemma_tree_sourced_preserved(w, v, f, c);
    mounted::lemma_prepare(v, paths, root, f, zone);
    let bare = swept::unprepared::<(Seq<u8>, ActivationModel)>(paths);
    swept::lemma_prepare_unprepared(v, paths, root, f);
    reason::lemma_both(q, v, made, bare);
    let whole = |x: Disk, r: Result<(Seq<u8>, ActivationModel), Trouble>| made(x, r) && bare(x, r);
    reason::lemma_upholds_both(q, v, steady(v, paths), any(), whole);
    let both = |x: Disk, r: Result<(Seq<u8>, ActivationModel), Trouble>|
        any::<Disk, Result<(Seq<u8>, ActivationModel), Trouble>>()(x, r) && whole(x, r);
    assert forall|x: Disk| #[trigger] steady(v, paths)(x) implies inv(x) by {
        lemma_still_ready(w, v, x, paths, former);
    }
    assert forall|x: Disk, r: Result<(Seq<u8>, ActivationModel), Trouble>| #[trigger]
        both(x, r) && steady(v, paths)(x) implies post(x, r) by {
        if r is Ok {
            let (n, b) = r->Ok_0;
            lemma_still_ready(w, v, x, paths, former);
            backed::lemma_tree_sourced_grown(v, x, f, c, zone);
            assert(mounted::genuine(x, b));
        }
    }
}

/// What was taken away stays so while nothing but the store and roots change.
proof fn lemma_still_ready(
    w: Disk,
    v: Disk,
    x: Disk,
    paths: StatePaths<Seq<u8>>,
    former: Option<(Seq<u8>, ActivationModel)>,
)
    requires
        ready_for(w, paths, former)(v),
        tends(v, x, paths),
        x.at(paths.journal) == v.at(paths.journal),
    ensures
        former is None ==> tends(w, x, paths),
        former matches Some(found) ==> mounting(x, paths, found.0, found.1) && entering(
            w,
            paths,
            found.0,
            found.1,
        )(x) && turned::tree_reached(
            x,
            found.1.projection,
            found.1.baseline,
            found.1.root,
        ),
{
    if former is Some {
        let (p, a) = former->Some_0;
        let root = path::components(a.root);
        recovered::lemma_local_trans(w, v, x, paths, a);
        recovered::lemma_mounting_tends(v, x, paths, p, a);
        recovered::lemma_tends_untouched(v, x, paths, root);
        assert(root.take(root.len() as int) =~= root);
        mounted::lemma_tree_reached_untouched(
            v,
            x,
            a.projection,
            a.baseline,
            a.root,
            root,
            path::components(paths.directory),
        );
    }
}

/// Mounting a prepared activation may be interrupted at any time.
proof fn lemma_enter(
    w: Disk,
    v: Disk,
    paths: StatePaths<Seq<u8>>,
    root: Seq<u8>,
    f: Forest,
    former: Option<(Seq<u8>, ActivationModel)>,
    next: (Seq<u8>, ActivationModel),
)
    requires
        mounted::are_places(paths),
        disk::apart(path::components(paths.directory), disk::vault()),
        prepared_for(w, paths, root, f, former, v, next),
    ensures
        state::enter_program(paths, state::path_of(former), next).upholds(
            v,
            mount_safe(w, paths, root, f, former),
            |x: Disk, r: Result<(), Trouble>|
                r is Ok ==> mount_done(w, paths, root, f, former)(x) && swept::tidy(x, paths),
        ),
{
    let q = state::enter_program(paths, state::path_of(former), next);
    let inv = mount_safe(w, paths, root, f, former);
    let post = |x: Disk, r: Result<(), Trouble>|
        r is Ok ==> mount_done(w, paths, root, f, former)(x) && swept::tidy(x, paths);
    let done = |x: Disk, r: Result<(), Trouble>|
        r is Ok ==> mount_done(w, paths, root, f, former)(x) && resting(x, paths, next.0, next.1)
            && swept::only_roots(x, paths, Some(next.0));
    let bare = swept::unprepared::<()>(paths);
    lemma_enter_swept(w, v, paths, root, f, former, next);
    lemma_enter_unprepared(v, paths, state::path_of(former), next);
    reason::lemma_upholds_both(q, v, inv, done, bare);
    let both = |x: Disk, r: Result<(), Trouble>| done(x, r) && bare(x, r);
    mounted::lemma_line(next.0);
    assert forall|x: Disk, r: Result<(), Trouble>| #[trigger] both(x, r) implies post(x, r) by {}
}

/// Mounting a prepared activation does not bring back what was being prepared.
proof fn lemma_enter_unprepared(
    v: Disk,
    paths: StatePaths<Seq<u8>>,
    previous: Option<Seq<u8>>,
    next: (Seq<u8>, ActivationModel),
)
    requires
        v.sound(),
        mounted::are_places(paths),
        ready(v, paths, next.0, next.1),
        v.at(paths.preparing) is None,
    ensures
        state::enter_program(paths, previous, next).meets(v, swept::unprepared(paths)),
{
    broadcast use crate::reason::group_reason;

    let (n, b) = next;
    let t = Transaction::Mount { previous, next: Some(n) };
    let q = state::write_transaction_program(paths, t);
    let post = swept::unprepared::<()>(paths);
    let way = recovered::flips(
        v,
        paths,
        paths.journal,
        paths.current,
        recovered::journal_of(v, t),
    );
    let written = |x: Disk, r: Result<(), Trouble>| r is Ok ==> journal_is(x, paths, t);
    recovered::lemma_write_transaction(v, paths, t);
    reason::lemma_upholds_meets(q, v, way, written);
    let first = |x: Disk, r: Result<(), Trouble>| way(x) && written(x, r);
    swept::lemma_files_unprepared(v, paths, n);
    reason::lemma_both(q, v, first, post);
    let both = |x: Disk, r: Result<(), Trouble>| first(x, r) && post(x, r);
    assert forall|x: Disk, r: Result<(), Trouble>| #[trigger]
        both(x, r) && r is Ok implies state::activate_program(b).and_then(
        |u: ()|
            state::write_current_program(paths, n).and_then(
                |u: ()|
                    state::clear_transaction_program(paths).and_then(
                        |u: ()| state::clean_program(paths, Some(n)),
                    ),
            ),
    ).meets(x, post) by {
        recovered::lemma_ready(v, x, paths, n, b);
        lemma_activate_unprepared(x, paths, n, b);
    }
}

/// Putting a prepared activation in place does not bring back what was being prepared.
proof fn lemma_activate_unprepared(
    v: Disk,
    paths: StatePaths<Seq<u8>>,
    n: Seq<u8>,
    b: ActivationModel,
)
    requires
        v.sound(),
        mounted::are_places(paths),
        ready(v, paths, n, b),
        v.at(paths.preparing) is None,
    ensures
        state::activate_program(b).and_then(
            |u: ()|
                state::write_current_program(paths, n).and_then(
                    |u: ()|
                        state::clear_transaction_program(paths).and_then(
                            |u: ()| state::clean_program(paths, Some(n)),
                        ),
                ),
        ).meets(v, swept::unprepared(paths)),
{
    broadcast use crate::reason::group_reason;

    let post = swept::unprepared::<()>(paths);
    let root = path::components(b.root);
    let inv = guarded::sparing(v, b.projection, root);
    let none = any::<Disk, Result<(), Trouble>>();
    assert(root.take(root.len() as int) =~= root);
    mounted::lemma_places(paths);
    guarded::law_transition_spares(v, b.baseline, b.projection, b.root, b.projection, root);
    reason::lemma_upholds_meets(state::activate_program(b), v, inv, none);
    let kept = |x: Disk, r: Result<(), Trouble>| inv(x) && none(x, r);
    assert forall|x: Disk, r: Result<(), Trouble>| #[trigger] kept(x, r) implies post(x, r) by {
        mounted::lemma_zone_spared(v, x, paths, b);
    }
    let third = state::clean_program(paths, Some(n));
    let second = state::clear_transaction_program(paths).and_then(|u: ()| third);
    assert forall|x: Disk| #[trigger] x.sound() && x.at(paths.preparing) is None implies second.meets(
        x,
        post,
    ) by {
        swept::lemma_files_unprepared(x, paths, n);
        assert forall|y: Disk, r: Result<(), Trouble>| #[trigger]
            post(y, r) && r is Ok implies third.meets(y, post) by {
            swept::lemma_clean_unprepared(y, paths, Some(n));
        }
    }
    assert forall|x: Disk, r: Result<(), Trouble>| #[trigger]
        post(x, r) && r is Ok implies state::write_current_program(paths, n).and_then(
        |u: ()| second,
    ).meets(x, post) by {
        swept::lemma_files_unprepared(x, paths, n);
    }
}

/// Mounting a prepared activation may be interrupted at any time.
proof fn lemma_enter_swept(
    w: Disk,
    v: Disk,
    paths: StatePaths<Seq<u8>>,
    root: Seq<u8>,
    f: Forest,
    former: Option<(Seq<u8>, ActivationModel)>,
    next: (Seq<u8>, ActivationModel),
)
    requires
        mounted::are_places(paths),
        disk::apart(path::components(paths.directory), disk::vault()),
        prepared_for(w, paths, root, f, former, v, next),
    ensures
        state::enter_program(paths, state::path_of(former), next).upholds(
            v,
            mount_safe(w, paths, root, f, former),
            |x: Disk, r: Result<(), Trouble>|
                r is Ok ==> mount_done(w, paths, root, f, former)(x) && resting(
                    x,
                    paths,
                    next.0,
                    next.1,
                ) && swept::only_roots(x, paths, Some(next.0)),
        ),
{
    let inv = mount_safe(w, paths, root, f, former);
    let post = |x: Disk, r: Result<(), Trouble>|
        r is Ok ==> mount_done(w, paths, root, f, former)(x) && resting(x, paths, next.0, next.1)
            && swept::only_roots(x, paths, Some(next.0));
    let (n, b) = next;
    let t = Transaction::Mount { previous: state::path_of(former), next: Some(n) };
    let way = recovered::flips(
        v,
        paths,
        paths.journal,
        paths.current,
        recovered::journal_of(v, t),
    );
    let written = |x: Disk, r: Result<(), Trouble>| r is Ok ==> journal_is(x, paths, t);
    let q = state::clean_program(paths, Some(n));
    recovered::lemma_write_transaction(v, paths, t);
    assert forall|x: Disk| #[trigger] way(x) implies inv(x) && (journal_is(x, paths, t)
        ==> mounting(x, paths, n, b)) && local(v, x, paths, b) by {
        recovered::lemma_ready(v, x, paths, n, b);
        recovered::lemma_tends_local(v, x, paths, b);
        if journal_is(x, paths, t) {
            assert(recovered::brings(t, n));
            assert(mounting(x, paths, n, b));
            assert(entering(v, paths, n, b)(x));
        } else {
            assert(x.at(paths.journal) == v.at(paths.journal));
            match former {
                Some(found) => {
                    recovered::lemma_mounting_tends(v, x, paths, found.0, found.1);
                    recovered::lemma_local_trans(w, v, x, paths, found.1);
                    assert(entering(w, paths, found.0, found.1)(x));
                },
                None => {
                    steady::lemma_tends_trans(w, v, x, paths);
                },
            }
        }
    }
    assert forall|x: Disk| #[trigger] x.sound() implies q.upholds(
        x,
        steady(x, paths),
        swept::sweeps(paths, Some(n)),
    ) by {
        recovered::lemma_leftovers(x, paths, Some(n));
    }
    assert forall|x: Disk, r: Result<(), Trouble>| #[trigger]
        written(x, r) && way(x) && r is Ok implies state::activate_program(b).and_then(
        |u: ()|
            state::write_current_program(paths, n).and_then(
                |u: ()| state::clear_transaction_program(paths).and_then(|u: ()| q),
            ),
    ).upholds(x, inv, post) by {
        recovered::lemma_forward(v, x, paths, n, b, q);
        assert forall|y: Disk| #[trigger] entering(v, paths, n, b)(y) implies inv(y) by {}
    }
}

/// Preparing an activation and mounting it may be interrupted at any time.
proof fn lemma_renew(
    w: Disk,
    v: Disk,
    paths: StatePaths<Seq<u8>>,
    root: Seq<u8>,
    f: Forest,
    former: Option<(Seq<u8>, ActivationModel)>,
)
    requires
        mounted::are_places(paths),
        backed::spread(f, path::components(root), path::components(paths.directory)),
        quiescent(w, paths, former),
        cycle::mountable(w, root, f),
        ready_for(w, paths, former)(v),
    ensures
        state::prepare_program(paths, root, f).and_then(
            |next: (Seq<u8>, ActivationModel)|
                state::enter_program(paths, state::path_of(former), next),
        ).upholds(
            v,
            mount_safe(w, paths, root, f, former),
            |x: Disk, r: Result<(), Trouble>|
                r is Ok ==> mount_done(w, paths, root, f, former)(x) && swept::tidy(x, paths),
        ),
{
    let inv = mount_safe(w, paths, root, f, former);
    let post = |x: Disk, r: Result<(), Trouble>|
        r is Ok ==> mount_done(w, paths, root, f, former)(x) && swept::tidy(x, paths);
    let made = |x: Disk, r: Result<(Seq<u8>, ActivationModel), Trouble>|
        r matches Ok(next) ==> prepared_for(w, paths, root, f, former, x, next);
    lemma_prepare(w, v, paths, root, f, former);
    assert forall|x: Disk, r: Result<(Seq<u8>, ActivationModel), Trouble>| #[trigger]
        made(x, r) && r is Ok implies state::enter_program(
        paths,
        state::path_of(former),
        r->Ok_0,
    ).upholds(x, inv, post) by {
        lemma_enter(w, x, paths, root, f, former, r->Ok_0);
    }
}

/// Replacing what is mounted may be interrupted at any time.
proof fn lemma_replace(
    w: Disk,
    paths: StatePaths<Seq<u8>>,
    root: Seq<u8>,
    f: Forest,
    former: Option<(Seq<u8>, ActivationModel)>,
)
    requires
        mounted::are_places(paths),
        backed::spread(f, path::components(root), path::components(paths.directory)),
        quiescent(w, paths, former),
        cycle::mountable(w, root, f),
    ensures
        state::retire_program(paths, former).and_then(
            |u: ()|
                state::prepare_program(paths, root, f).and_then(
                    |next: (Seq<u8>, ActivationModel)|
                        state::enter_program(paths, state::path_of(former), next),
                ),
        ).upholds(
            w,
            mount_safe(w, paths, root, f, former),
            |x: Disk, r: Result<(), Trouble>|
                r is Ok ==> mount_done(w, paths, root, f, former)(x) && swept::tidy(x, paths),
        ),
{
    let inv = mount_safe(w, paths, root, f, former);
    let post = |x: Disk, r: Result<(), Trouble>|
        r is Ok ==> mount_done(w, paths, root, f, former)(x) && swept::tidy(x, paths);
    let off = |x: Disk, r: Result<(), Trouble>| r is Ok ==> ready_for(w, paths, former)(x);
    lemma_retire(w, paths, root, f, former);
    assert forall|v: Disk, r: Result<(), Trouble>| #[trigger]
        off(v, r) && r is Ok implies state::prepare_program(paths, root, f).and_then(
        |next: (Seq<u8>, ActivationModel)|
            state::enter_program(paths, state::path_of(former), next),
    ).upholds(v, inv, post) by {
        lemma_renew(w, v, paths, root, f, former);
    }
}

/// Mounting may be interrupted at any time.
#[verifier::rlimit(30)]
proof fn lemma_mount_body(
    w: Disk,
    paths: StatePaths<Seq<u8>>,
    root: Seq<u8>,
    f: Forest,
    former: Option<(Seq<u8>, ActivationModel)>,
)
    requires
        mounted::are_places(paths),
        backed::spread(f, path::components(root), path::components(paths.directory)),
        quiescent(w, paths, former),
        cycle::mountable(w, root, f),
    ensures
        state::mount_body(paths, root, f).upholds(
            w,
            mount_safe(w, paths, root, f, former),
            |x: Disk, r: Result<(), Trouble>|
                r is Ok ==> mount_done(w, paths, root, f, former)(x) && swept::tidy(x, paths),
        ),
{
    let inv = mount_safe(w, paths, root, f, former);
    let post = |x: Disk, r: Result<(), Trouble>|
        r is Ok ==> mount_done(w, paths, root, f, former)(x) && swept::tidy(x, paths);
    let load = state::load_program(paths);
    let still = quiet::still::<Result<Option<(Seq<u8>, ActivationModel)>, Trouble>>(w);
    let given = mounted::gives(w, former);
    assert(tends(w, w, paths));
    assert(inv(w));
    match former {
        Some(found) => {
            mounted::law_load(w, paths, found.0, found.1);
        },
        None => {
            mounted::law_load_nothing(w, paths);
        },
    }
    quiet::lemma_load(paths);
    quiet::lemma_quiet(load, w, inv);
    reason::lemma_upholds_both(load, w, inv, still, given);
    let both = |v: Disk, r: Result<Option<(Seq<u8>, ActivationModel)>, Trouble>|
        still(v, r) && given(v, r);
    assert forall|v: Disk, r: Result<Option<(Seq<u8>, ActivationModel)>, Trouble>| #[trigger]
        both(v, r) && r is Ok implies state::checked_program(r->Ok_0).and_then(
        |u: ()|
            state::retire_program(paths, r->Ok_0).and_then(
                |u: ()|
                    state::prepare_program(paths, root, f).and_then(
                        |next: (Seq<u8>, ActivationModel)|
                            state::enter_program(paths, state::path_of(r->Ok_0), next),
                    ),
            ),
    ).upholds(v, inv, post) by {
        lemma_checked(w, paths, root, f, former);
    }
}

/// Looking at what is mounted and replacing it may be interrupted at any time.
proof fn lemma_checked(
    w: Disk,
    paths: StatePaths<Seq<u8>>,
    root: Seq<u8>,
    f: Forest,
    former: Option<(Seq<u8>, ActivationModel)>,
)
    requires
        mounted::are_places(paths),
        backed::spread(f, path::components(root), path::components(paths.directory)),
        quiescent(w, paths, former),
        cycle::mountable(w, root, f),
    ensures
        state::checked_program(former).and_then(
            |u: ()|
                state::retire_program(paths, former).and_then(
                    |u: ()|
                        state::prepare_program(paths, root, f).and_then(
                            |next: (Seq<u8>, ActivationModel)|
                                state::enter_program(paths, state::path_of(former), next),
                        ),
                ),
        ).upholds(
            w,
            mount_safe(w, paths, root, f, former),
            |x: Disk, r: Result<(), Trouble>|
                r is Ok ==> mount_done(w, paths, root, f, former)(x) && swept::tidy(x, paths),
        ),
{
    let inv = mount_safe(w, paths, root, f, former);
    assert(tends(w, w, paths));
    assert(inv(w));
    quiet::lemma_checked(former);
    quiet::lemma_quiet(state::checked_program(former), w, inv);
    lemma_replace(w, paths, root, f, former);
}

/// Creating the directories of the state changes nothing that matters.
pub proof fn lemma_paved(w: Disk, v: Disk, paths: StatePaths<Seq<u8>>)
    requires
        mounted::are_places(paths),
        disk::apart(path::components(paths.directory), disk::vault()),
        v.sound(),
        v.records == w.records,
        v.journals == w.journals,
        disk::paves(w, paths.gc_roots, v),
    ensures
        steady(w, paths)(v),
{
    let zone = path::components(paths.directory);
    let g = path::components(paths.gc_roots);
    mounted::lemma_places(paths);
    steady::lemma_kept_harmless(paths);
    lemma_not_above(paths);
    assert forall|k: Spot, j: Spot| #[trigger]
        disk::below(k, j) && disk::in_vault(k) && w.get(k) is Some implies v.get(j) == w.get(j) by {
        placed::lemma_below_trans(disk::vault(), k, j);
        if disk::below(j, g) {
            placed::lemma_below_trans(disk::vault(), j, g);
            placed::lemma_below_both(zone, disk::vault(), g);
        }
    }
    assert forall|j: Spot|
        #![trigger v.get(j)]
        !lies_in(zone, j) && !disk::below(disk::vault(), j) implies abides(w, v, zone, j) by {
        if disk::below(j, g) {
            placed::lemma_below_both(zone, j, g);
            assert(zone.take(zone.len() as int) =~= zone);
        }
    }
}

/// The two files do not lie on the way to the roots.
proof fn lemma_not_above(paths: StatePaths<Seq<u8>>)
    requires
        mounted::are_places(paths),
    ensures
        !disk::below(path::components(paths.current), path::components(paths.gc_roots)),
        !disk::below(path::components(paths.journal), path::components(paths.gc_roots)),
{
    let g = path::components(paths.gc_roots);
    let (x, y) = (path::components(paths.current), path::components(paths.journal));
    steady::lemma_kept_harmless(paths);
    steady::lemma_same_depth(paths);
    if disk::below(x, g) {
        assert(g.take(x.len() as int) =~= g);
        assert(g.take(g.len() as int) =~= g);
    }
    if disk::below(y, g) {
        assert(g.take(y.len() as int) =~= g);
        assert(g.take(g.len() as int) =~= g);
    }
}

/// What held where nothing that matters was changed holds.
pub proof fn lemma_based(
    w: Disk,
    w1: Disk,
    paths: StatePaths<Seq<u8>>,
    root: Seq<u8>,
    f: Forest,
    former: Option<(Seq<u8>, ActivationModel)>,
)
    requires
        mounted::are_places(paths),
        backed::spread(f, path::components(root), path::components(paths.directory)),
        quiescent(w, paths, former),
        cycle::mountable(w, root, f),
        steady(w, paths)(w1),
    ensures
        quiescent(w1, paths, former),
        cycle::mountable(w1, root, f),
        forall|v: Disk| #[trigger]
            mount_safe(w1, paths, root, f, former)(v) ==> mount_safe(w, paths, root, f, former)(v),
        forall|v: Disk| #[trigger]
            mount_done(w1, paths, root, f, former)(v) ==> mount_done(w, paths, root, f, former)(v),
{
    let c = path::components(root);
    mounted::lemma_tree_sourced_preserved(w, w1, f, c);
    if former is Some {
        mounted::lemma_zone_stands(w, paths);
        recovered::lemma_ready(w, w1, paths, former->Some_0.0, former->Some_0.1);
    }
    assert forall|u: Disk, a: ActivationModel| #[trigger]
        taken(w1, paths, former, root, f, u, a) implies taken(w, paths, former, root, f, u, a) by {
        if former is Some {
            recovered::lemma_tends_local(w, w1, paths, former->Some_0.1);
            recovered::lemma_local_trans(w, w1, u, paths, former->Some_0.1);
        } else {
            steady::lemma_tends_trans(w, w1, u, paths);
        }
    }
    assert forall|v: Disk| #[trigger] mount_safe(w1, paths, root, f, former)(v) implies mount_safe(
        w,
        paths,
        root,
        f,
        former,
    )(v) by {
        if steady(w1, paths)(v) {
            steady::lemma_tends_trans(w, w1, v, paths);
        } else if former matches Some(found) && entering(w1, paths, found.0, found.1)(v) {
            recovered::lemma_tends_local(w, w1, paths, former->Some_0.1);
            recovered::lemma_local_trans(w, w1, v, paths, former->Some_0.1);
            assert(entering(w, paths, former->Some_0.0, former->Some_0.1)(v));
        }
    }
}

/// Mounting may be interrupted at any time: what is left is one of the disks from which
/// recovering ends with the former activation mounted, or the new one. Where mounting fails and
/// recovers, it ends so itself.
#[verifier::rlimit(30)]
pub proof fn law_mount_interrupted(
    w: Disk,
    paths: StatePaths<Seq<u8>>,
    image: Seq<u8>,
    root: Seq<u8>,
    f: Forest,
    former: Option<(Seq<u8>, ActivationModel)>,
)
    requires
        mounted::are_places(paths),
        backed::spread(f, path::components(root), path::components(paths.directory)),
        quiescent(w, paths, former),
        cycle::mountable(w, root, f),
    ensures
        state::mount_program(paths, image, root, f).upholds(
            w,
            mount_safe(w, paths, root, f, former),
            mount_end(w, paths, root, f, former),
        ),
{
    let inv = mount_safe(w, paths, root, f, former);
    let post = mount_end(w, paths, root, f, former);
    let make = Request::CreateDirs(paths.gc_roots);
    assert(tends(w, w, paths));
    assert(inv(w));
    assert forall|x: Answer, w1: Disk| #[trigger] w.leads(make, x, w1) implies steady(w, paths)(
        w1,
    ) by {
        lemma_paved(w, w1, paths);
    }
    assert forall|w1: Disk| #[trigger] steady(w, paths)(w1) implies state::available_program(
        paths.state_root,
        image,
        root,
    ).and_then(
        |u: ()|
            state::mount_body(paths, root, f).bind(
                |r: Result<(), Trouble>|
                    match r {
                        Ok(u) => program::give(()),
                        Err(e) => state::fall_back_program(paths, e),
                    },
            ),
    ).upholds(w1, inv, post) by {
        let look = state::available_program(paths.state_root, image, root);
        quiet::lemma_available(paths.state_root, image, root);
        quiet::lemma_quiet(look, w1, inv);
        lemma_based(w, w1, paths, root, f, former);
        lemma_mount_body(w1, paths, root, f, former);
        let done = |x: Disk, r: Result<(), Trouble>|
            r is Ok ==> mount_done(w1, paths, root, f, former)(x) && swept::tidy(x, paths);
        assert forall|v: Disk, r: Result<(), Trouble>| #[trigger]
            done(v, r) && inv(v) implies (match r {
            Ok(u) => program::give(()),
            Err(e) => state::fall_back_program(paths, e),
        }).upholds(v, inv, post) by {
            if r is Err {
                lemma_fall_back(w, v, paths, root, f, former, r->Err_0);
            }
        }
    }
}

/// Mounting in place of an activation that is not as it was left is refused, and at any time nothing
/// was changed that matters: neither below its root nor below any other, and it stays mounted.
pub proof fn law_mount_refused(
    w: Disk,
    paths: StatePaths<Seq<u8>>,
    image: Seq<u8>,
    root: Seq<u8>,
    f: Forest,
    p: Seq<u8>,
    a: ActivationModel,
)
    requires
        mounted::are_places(paths),
        quiescent(w, paths, Some((p, a))),
        !standing::tree_stands(w, a.projection, a.root),
    ensures
        state::mount_program(paths, image, root, f).upholds(
            w,
            steady(w, paths),
            |v: Disk, r: Result<(), Trouble>| r is Err,
        ),
{
    let inv = steady(w, paths);
    let post = |v: Disk, r: Result<(), Trouble>| r is Err;
    let make = Request::CreateDirs(paths.gc_roots);
    assert(tends(w, w, paths));
    assert forall|x: Answer, w1: Disk| #[trigger] w.leads(make, x, w1) implies inv(w1) by {
        lemma_paved(w, w1, paths);
    }
    assert forall|w1: Disk| #[trigger] inv(w1) implies state::available_program(
        paths.state_root,
        image,
        root,
    ).and_then(
        |u: ()|
            state::mount_body(paths, root, f).bind(
                |r: Result<(), Trouble>|
                    match r {
                        Ok(u) => program::give(()),
                        Err(e) => state::fall_back_program(paths, e),
                    },
            ),
    ).upholds(w1, inv, post) by {
        let look = state::available_program(paths.state_root, image, root);
        quiet::lemma_available(paths.state_root, image, root);
        quiet::lemma_quiet(look, w1, inv);
        lemma_still_drifted(w, w1, paths, p, a);
        lemma_body_refused(w1, paths, root, f, p, a, inv);
        assert forall|e: Trouble| #[trigger]
            state::fall_back_program(paths, e).upholds(w1, inv, post) by {
            recovered::law_recover_idle(w1, paths);
            assert forall|v: Disk| #[trigger] steady(w1, paths)(v) implies inv(v) by {
                steady::lemma_tends_trans(w, w1, v, paths);
            }
        }
    }
}

/// What is mounted and not as it was left stays so while nothing that matters is changed.
proof fn lemma_still_drifted(
    w: Disk,
    v: Disk,
    paths: StatePaths<Seq<u8>>,
    p: Seq<u8>,
    a: ActivationModel,
)
    requires
        mounted::are_places(paths),
        quiescent(w, paths, Some((p, a))),
        !standing::tree_stands(w, a.projection, a.root),
        steady(w, paths)(v),
    ensures
        quiescent(v, paths, Some((p, a))),
        !standing::tree_stands(v, a.projection, a.root),
{
    let c = path::components(a.root);
    mounted::lemma_zone_stands(w, paths);
    recovered::lemma_ready(w, v, paths, p, a);
    recovered::lemma_tends_untouched(w, v, paths, c);
    assert(c.take(c.len() as int) =~= c);
    backed::lemma_tree_stands_untouched(
        w,
        v,
        a.projection,
        a.root,
        c,
        path::components(paths.directory),
    );
}

/// Replacing an activation that is not as it was left is refused before anything is changed.
proof fn lemma_body_refused(
    w: Disk,
    paths: StatePaths<Seq<u8>>,
    root: Seq<u8>,
    f: Forest,
    p: Seq<u8>,
    a: ActivationModel,
    inv: spec_fn(Disk) -> bool,
)
    requires
        w.sound(),
        mounted::installed(w, paths, p, a),
        !standing::tree_stands(w, a.projection, a.root),
        inv(w),
    ensures
        state::mount_body(paths, root, f).upholds(
            w,
            inv,
            |v: Disk, r: Result<(), Trouble>| v == w && r is Err,
        ),
{
    let load = state::load_program(paths);
    let still = quiet::still::<Result<Option<(Seq<u8>, ActivationModel)>, Trouble>>(w);
    let given = mounted::gives(w, Some((p, a)));
    mounted::law_load(w, paths, p, a);
    quiet::lemma_load(paths);
    quiet::lemma_quiet(load, w, inv);
    reason::lemma_upholds_both(load, w, inv, still, given);
    let q = state::verify_program(a);
    let told = |v: Disk, r: Result<(), Trouble>|
        v == w && (r is Ok ==> standing::tree_stands(w, a.projection, a.root));
    mounted::law_verify(w, a);
    quiet::lemma_verified(a);
    quiet::lemma_quiet(q, w, inv);
    reason::lemma_upholds_both(q, w, inv, quiet::still(w), told);
    let both = |v: Disk, r: Result<(), Trouble>| quiet::still(w)(v, r) && told(v, r);
    assert(q.upholds(w, inv, both));
    let refused = |v: Disk, r: Result<(), Trouble>| v == w && r is Err;
    assert(state::checked_program(Some((p, a))).upholds(w, inv, refused));
}

/// Recovering, if it succeeds, leaves nothing over: nothing of what was being prepared, and no roots
/// but those of what is mounted.
pub proof fn law_recover_tidies(
    w: Disk,
    paths: StatePaths<Seq<u8>>,
    former: Option<(Seq<u8>, ActivationModel)>,
)
    requires
        w.sound(),
        mounted::are_places(paths),
        disk::apart(path::components(paths.directory), disk::vault()),
        quiescent(w, paths, former) || (former matches Some(found) && (mounting(
            w,
            paths,
            found.0,
            found.1,
        ) || recovered::leaving(w, paths, found.0, found.1))),
    ensures
        state::recover_program(paths).meets(
            w,
            |v: Disk, r: Result<(), Trouble>| r is Ok ==> swept::tidy(v, paths),
        ),
{
    let q = state::recover_program(paths);
    let post = |v: Disk, r: Result<(), Trouble>| r is Ok ==> swept::tidy(v, paths);
    let bare = swept::unprepared::<()>(paths);
    swept::law_recover_unprepared(w, paths);
    if quiescent(w, paths, former) {
        let inv = steady(w, paths);
        let swept = swept::sweeps(paths, state::path_of(former));
        lemma_recover_swept(w, paths, former);
        reason::lemma_upholds_meets(q, w, inv, swept);
        let kept = |v: Disk, r: Result<(), Trouble>| inv(v) && swept(v, r);
        reason::lemma_both(q, w, kept, bare);
        let both = |v: Disk, r: Result<(), Trouble>| kept(v, r) && bare(v, r);
        if former is Some {
            mounted::lemma_line(former->Some_0.0);
        }
        reason::lemma_weaken(q, w, both, post);
    } else {
        let (p, a) = former->Some_0;
        assert(local(w, w, paths, a));
        mounted::lemma_line(p);
        if mounting(w, paths, p, a) {
            let inv = entering(w, paths, p, a);
            let there = recovered::in_place(paths, p, a);
            recovered::law_recover_mounting(w, w, paths, p, a);
            reason::lemma_upholds_meets(q, w, inv, there);
            let kept = |v: Disk, r: Result<(), Trouble>| inv(v) && there(v, r);
            reason::lemma_both(q, w, kept, bare);
            let both = |v: Disk, r: Result<(), Trouble>| kept(v, r) && bare(v, r);
            reason::lemma_weaken(q, w, both, post);
        } else {
            let inv = departing(w, paths, p, a);
            let gone = recovered::away(paths, p, a);
            recovered::law_recover_leaving(w, w, paths, p, a);
            reason::lemma_upholds_meets(q, w, inv, gone);
            let kept = |v: Disk, r: Result<(), Trouble>| inv(v) && gone(v, r);
            reason::lemma_both(q, w, kept, bare);
            let both = |v: Disk, r: Result<(), Trouble>| kept(v, r) && bare(v, r);
            reason::lemma_weaken(q, w, both, post);
        }
    }
}

/// Recovering where nothing is under way leaves no roots but those of what is mounted.
proof fn lemma_recover_swept(
    w: Disk,
    paths: StatePaths<Seq<u8>>,
    former: Option<(Seq<u8>, ActivationModel)>,
)
    requires
        mounted::are_places(paths),
        disk::apart(path::components(paths.directory), disk::vault()),
        quiescent(w, paths, former),
    ensures
        state::recover_program(paths).upholds(
            w,
            steady(w, paths),
            swept::sweeps(paths, state::path_of(former)),
        ),
{
    let inv = steady(w, paths);
    let post = swept::sweeps(paths, state::path_of(former));
    let load = state::load_program(paths);
    assert(tends(w, w, paths));
    if former is Some {
        mounted::lemma_zone_stands(w, paths);
    }
    steady::lemma_remove_preparing(w, w, paths);
    assert forall|v: Disk| #[trigger] inv(v) implies load.and_then(
        |current: Option<(Seq<u8>, ActivationModel)>|
            state::clean_program(paths, state::path_of(current)),
    ).upholds(v, inv, post) by {
        let still = quiet::still::<Result<Option<(Seq<u8>, ActivationModel)>, Trouble>>(v);
        let given = mounted::gives(v, former);
        match former {
            Some(found) => {
                recovered::lemma_ready(w, v, paths, found.0, found.1);
                mounted::law_load(v, paths, found.0, found.1);
            },
            None => {
                mounted::law_load_nothing(v, paths);
            },
        }
        quiet::lemma_load(paths);
        quiet::lemma_quiet(load, v, inv);
        reason::lemma_upholds_both(load, v, inv, still, given);
        recovered::lemma_swept(w, v, paths, state::path_of(former));
    }
    assert(state::tidy_program(paths).upholds(w, inv, post));
}

/// Where nothing was mounted before, what a mount that is done leaves is mounted in place of what
/// stood below the root.
pub proof fn law_mount_done(
    w: Disk,
    v: Disk,
    paths: StatePaths<Seq<u8>>,
    root: Seq<u8>,
    f: Forest,
)
    requires
        mount_done(w, paths, root, f, None)(v),
    ensures
        cycle::mounted_from(w, v, paths, root, f),
{
    let (u, p, a) = choose|u: Disk, p: Seq<u8>, a: ActivationModel| #[trigger]
        entering(u, paths, p, a)(v) && resting(v, paths, p, a) && taken(w, paths, None, root, f, u, a);
    let (c, zone) = (path::components(root), path::components(paths.directory));
    assert(mounted::installed(v, paths, p, a));
    assert(backed::is_capture(u, f, a.baseline, root, c));
    assert forall|j: Spot|
        #![trigger u.get(j)]
        disk::below(c, j) && !lies_in(zone, j) implies abides(w, u, zone, j) by {
        placed::lemma_apart_below(disk::vault(), c, j);
    }
}

/// Whether a disk is one that an interrupted unmount may leave: nothing was changed that matters,
/// or the unmount is under way or done.
pub open spec fn unmount_safe(
    w: Disk,
    paths: StatePaths<Seq<u8>>,
    p: Seq<u8>,
    a: ActivationModel,
) -> spec_fn(Disk) -> bool {
    |v: Disk| steady(w, paths)(v) || departing(w, paths, p, a)(v)
}

/// Whether an activation was taken away, and nothing else changed.
pub open spec fn unmount_done(
    w: Disk,
    paths: StatePaths<Seq<u8>>,
    p: Seq<u8>,
    a: ActivationModel,
) -> spec_fn(Disk) -> bool {
    |v: Disk| local(w, v, paths, a) && vacated(v, paths, p, a)
}

/// That the activation was taken away, with no roots left over, if the operation succeeded; and if it
/// failed and recovered, that it was taken away, or nothing was changed that matters.
pub open spec fn unmount_end(
    w: Disk,
    paths: StatePaths<Seq<u8>>,
    p: Seq<u8>,
    a: ActivationModel,
) -> spec_fn(Disk, Result<(), Trouble>) -> bool {
    |v: Disk, r: Result<(), Trouble>|
        match r {
            Ok(u) => unmount_done(w, paths, p, a)(v) && swept::only_roots(v, paths, None),
            Err(e) => !(e is Unrecovered) ==> steady(w, paths)(v) || unmount_done(
                w,
                paths,
                p,
                a,
            )(v),
        }
}

/// Recovering what an interrupted unmount leaves ends with nothing under way, and may be
/// interrupted in turn.
pub proof fn law_unmount_recovers(
    w: Disk,
    v: Disk,
    paths: StatePaths<Seq<u8>>,
    p: Seq<u8>,
    a: ActivationModel,
)
    requires
        mounted::are_places(paths),
        disk::apart(path::components(paths.directory), disk::vault()),
        quiescent(w, paths, Some((p, a))),
        unmount_safe(w, paths, p, a)(v),
    ensures
        state::recover_program(paths).upholds(
            v,
            unmount_safe(w, paths, p, a),
            |x: Disk, r: Result<(), Trouble>|
                r is Ok ==> steady(w, paths)(x) || unmount_done(w, paths, p, a)(x),
        ),
{
    let inv = unmount_safe(w, paths, p, a);
    if steady(w, paths)(v) {
        recovered::law_recover_idle(v, paths);
        assert forall|x: Disk| #[trigger] steady(v, paths)(x) implies steady(w, paths)(x) by {
            steady::lemma_tends_trans(w, v, x, paths);
        }
    } else if vacated(v, paths, p, a) {
        recovered::law_recover_idle(v, paths);
        assert forall|x: Disk| #[trigger] steady(v, paths)(x) implies unmount_done(
            w,
            paths,
            p,
            a,
        )(x) && inv(x) by {
            recovered::lemma_vacated(v, x, paths, p, a);
            recovered::lemma_local_trans(w, v, x, paths, a);
        }
    } else {
        recovered::law_recover_leaving(w, v, paths, p, a);
        assert forall|x: Disk| #[trigger] departing(w, paths, p, a)(x) implies inv(x) by {}
    }
}

/// Unmounting may be interrupted at any time: what is left is one of the disks from which
/// recovering ends with the activation mounted as before, or taken away. Where unmounting fails
/// and recovers, it ends so itself.
pub proof fn law_unmount_interrupted(
    w: Disk,
    paths: StatePaths<Seq<u8>>,
    image: Seq<u8>,
    p: Seq<u8>,
    a: ActivationModel,
)
    requires
        mounted::are_places(paths),
        quiescent(w, paths, Some((p, a))),
    ensures
        state::unmount_program(paths, image).upholds(
            w,
            unmount_safe(w, paths, p, a),
            unmount_end(w, paths, p, a),
        ),
{
    let inv = unmount_safe(w, paths, p, a);
    let post = unmount_end(w, paths, p, a);
    let load = state::load_program(paths);
    let still = quiet::still::<Result<Option<(Seq<u8>, ActivationModel)>, Trouble>>(w);
    let given = mounted::gives(w, Some((p, a)));
    assert(tends(w, w, paths));
    assert(inv(w));
    mounted::law_load(w, paths, p, a);
    quiet::lemma_load(paths);
    quiet::lemma_quiet(load, w, inv);
    reason::lemma_upholds_both(load, w, inv, still, given);
    quiet::lemma_verified(a);
    quiet::lemma_quiet(state::verify_program(a), w, inv);
    quiet::lemma_quiet(state::restorable_program(a), w, inv);
    lemma_unmount_body(w, paths, p, a);
    let done = |v: Disk, r: Result<(), Trouble>| r is Ok ==> unmount_done(w, paths, p, a)(v) && swept::only_roots(v, paths, None);
    assert forall|v: Disk, e: Trouble|
        #![trigger done(v, Err(e))]
        inv(v) implies state::fall_back_program(paths, e).upholds(v, inv, post) by {
        law_unmount_recovers(w, v, paths, p, a);
    }
}

/// Taking an activation away may be interrupted at any time.
proof fn lemma_unmount_body(w: Disk, paths: StatePaths<Seq<u8>>, p: Seq<u8>, a: ActivationModel)
    requires
        mounted::are_places(paths),
        quiescent(w, paths, Some((p, a))),
    ensures
        state::unmount_body(paths, p, a).upholds(
            w,
            unmount_safe(w, paths, p, a),
            |v: Disk, r: Result<(), Trouble>| r is Ok ==> unmount_done(w, paths, p, a)(v) && swept::only_roots(v, paths, None),
        ),
{
    let inv = unmount_safe(w, paths, p, a);
    let post = |v: Disk, r: Result<(), Trouble>| r is Ok ==> unmount_done(w, paths, p, a)(v) && swept::only_roots(v, paths, None);
    let t = Transaction::Unmount { activation: p };
    let way = recovered::flips(
        w,
        paths,
        paths.journal,
        paths.current,
        recovered::journal_of(w, t),
    );
    let written = |x: Disk, r: Result<(), Trouble>| r is Ok ==> journal_is(x, paths, t);
    let q = state::clean_program(paths, None);
    recovered::lemma_write_transaction(w, paths, t);
    mounted::lemma_zone_stands(w, paths);
    assert forall|x: Disk| #[trigger] way(x) implies inv(x) && local(w, x, paths, a) && (
    journal_is(x, paths, t) ==> recovered::leaving(x, paths, p, a)) by {
        recovered::lemma_ready(w, x, paths, p, a);
        recovered::lemma_tends_local(w, x, paths, a);
        if journal_is(x, paths, t) {
            assert(departing(w, paths, p, a)(x));
        } else {
            assert(steady(w, paths)(x));
        }
    }
    assert forall|x: Disk| #[trigger] x.sound() implies q.upholds(
        x,
        steady(x, paths),
        swept::sweeps(paths, None),
    ) by {
        recovered::lemma_leftovers(x, paths, None);
    }
    assert forall|x: Disk, r: Result<(), Trouble>| #[trigger]
        written(x, r) && way(x) && r is Ok implies state::deactivate_program(a).and_then(
        |u: ()|
            state::remove_current_program(paths).and_then(
                |u: ()| state::clear_transaction_program(paths).and_then(|u: ()| q),
            ),
    ).upholds(x, inv, post) by {
        recovered::lemma_backward(w, x, paths, p, a, q);
        assert forall|y: Disk| #[trigger] departing(w, paths, p, a)(y) implies inv(y) by {}
    }
}

/// At any time a mount has touched nothing but what belongs to it and to the former activation or
/// was new below their roots, what is kept for the image, the directories on the way there, and the
/// store.
pub proof fn law_mount_local(
    w: Disk,
    v: Disk,
    paths: StatePaths<Seq<u8>>,
    root: Seq<u8>,
    f: Forest,
    former: Option<(Seq<u8>, ActivationModel)>,
    j: Spot,
)
    requires
        mount_safe(w, paths, root, f, former)(v),
        !lies_in(path::components(paths.directory), j),
        !disk::below(disk::vault(), j),
        guarded::tree_spares(w, f, path::components(root), j),
        former matches Some(found) ==> guarded::tree_spares(
            w,
            found.1.projection,
            path::components(found.1.root),
            j,
        ),
    ensures
        abides(w, v, path::components(paths.directory), j),
{
    if !steady(w, paths)(v) && !(former matches Some(found) && entering(
        w,
        paths,
        found.0,
        found.1,
    )(v)) {
        let (u, p, a) = choose|u: Disk, p: Seq<u8>, a: ActivationModel| #[trigger]
            entering(u, paths, p, a)(v) && taken(w, paths, former, root, f, u, a);
        assert(abides(w, u, path::components(paths.directory), j));
        assert(abides(u, v, path::components(paths.directory), j));
    }
}

/// At any time an unmount has touched nothing but what belongs to the activation or was new below
/// its root, what is kept for the image, and the store.
pub proof fn law_unmount_local(
    w: Disk,
    v: Disk,
    paths: StatePaths<Seq<u8>>,
    p: Seq<u8>,
    a: ActivationModel,
    j: Spot,
)
    requires
        unmount_safe(w, paths, p, a)(v),
        !lies_in(path::components(paths.directory), j),
        !disk::below(disk::vault(), j),
        guarded::tree_spares(w, a.projection, path::components(a.root), j),
    ensures
        abides(w, v, path::components(paths.directory), j),
{
}

} // verus!
