//! That images do not disturb each other.
use vstd::prelude::*;

use crate::backed;
use crate::backed::abides;
use crate::bytes;
use crate::commanded;
use crate::disk;
use crate::disk::{Disk, Spot};
use crate::error::Trouble;
use crate::host;
use crate::host::Answer;
use crate::managed::lies_in;
use crate::mounted;
use crate::path;
use crate::path::Component;
use crate::placed;
use crate::program::Program;
use crate::quiet::any;
use crate::reason;
use crate::reason::World;
use crate::recovered;
use crate::recovered::{departing, entering, leaving, local, mounting, resting, vacated};
use crate::state;
use crate::state::{ActivationModel, StatePaths};
use crate::steady;
use crate::steady::{steady, tends};
use crate::swept;

verus! {

broadcast use crate::reason::group_upholds;

/// What is under way for an image.
pub enum Phase {
    Idle,
    Mounting(Seq<u8>, ActivationModel),
    Leaving(Seq<u8>, ActivationModel),
}

/// Whether this is under way for an image.
pub open spec fn in_phase(v: Disk, paths: StatePaths<Seq<u8>>, phase: Phase) -> bool {
    match phase {
        Phase::Idle => v.at(paths.journal) is None,
        Phase::Mounting(p, a) => mounting(v, paths, p, a),
        Phase::Leaving(p, a) => leaving(v, paths, p, a),
    }
}

/// Whether what was under way for an image came to its end.
pub open spec fn ended(v: Disk, paths: StatePaths<Seq<u8>>, phase: Phase) -> bool {
    match phase {
        Phase::Idle => v.at(paths.journal) is None,
        Phase::Mounting(p, a) => resting(v, paths, p, a),
        Phase::Leaving(p, a) => vacated(v, paths, p, a),
    }
}

/// Whether `v` differs from `w` at most by what may be done for an image.
pub open spec fn confined(w: Disk, v: Disk, paths: StatePaths<Seq<u8>>, phase: Phase) -> bool {
    match phase {
        Phase::Idle => tends(w, v, paths),
        Phase::Mounting(_, a) => local(w, v, paths, a),
        Phase::Leaving(_, a) => local(w, v, paths, a),
    }
}

/// The activation whose mount or unmount is under way.
pub open spec fn activation_of(phase: Phase) -> Option<ActivationModel> {
    match phase {
        Phase::Idle => None,
        Phase::Mounting(_, a) => Some(a),
        Phase::Leaving(_, a) => Some(a),
    }
}

/// Whether what is under way for an image leaves alone what is kept for another one.
pub open spec fn leaves_alone(phase: Phase, others: StatePaths<Seq<u8>>) -> bool {
    activation_of(phase) matches Some(a) ==> {
        &&& backed::clear_of(
            a.projection,
            path::components(a.root),
            path::components(others.directory),
        )
        &&& backed::clear_of(
            a.baseline,
            path::components(a.root),
            path::components(others.directory),
        )
    }
}

/// Whether two images are out of each other's way: their roots are apart, and what is under way for
/// each leaves alone what is kept for the other.
pub open spec fn separate(
    paths: StatePaths<Seq<u8>>,
    phase: Phase,
    others: StatePaths<Seq<u8>>,
    other: Phase,
) -> bool {
    &&& leaves_alone(phase, others)
    &&& leaves_alone(other, paths)
    &&& (activation_of(phase) matches Some(a) && activation_of(other) matches Some(b)
        ==> disk::apart(path::components(a.root), path::components(b.root)))
}

/// What is done for an image does not touch what is kept for another one.
proof fn lemma_state_kept(
    w: Disk,
    v: Disk,
    paths: StatePaths<Seq<u8>>,
    phase: Phase,
    others: StatePaths<Seq<u8>>,
    other: Phase,
    j: Spot,
)
    requires
        confined(w, v, paths, phase),
        separate(paths, phase, others, other),
        disk::apart(path::components(paths.directory), path::components(others.directory)),
        disk::apart(path::components(others.directory), disk::vault()),
        w.at(others.directory) is Some,
        disk::below(path::components(others.directory), j),
    ensures
        v.get(j) == w.get(j),
{
    let (home, zone) = (path::components(paths.directory), path::components(others.directory));
    placed::lemma_apart_below(disk::vault(), zone, j);
    placed::lemma_apart_below(home, zone, j);
    if let Some(a) = activation_of(phase) {
        let root = path::components(a.root);
        if disk::below(root, zone) {
            assert(lies_in(root, zone)) by {
                assert(zone.take(zone.len() as int) =~= zone);
            }
            assert(disk::below(zone, j));
        } else if disk::below(root, j) {
            placed::lemma_below_both(root, zone, j);
        }
    }
    assert(abides(w, v, home, j) || v.get(j) == w.get(j));
}

/// What is done for an image does not disturb another one.
proof fn lemma_undisturbed(
    w: Disk,
    v: Disk,
    paths: StatePaths<Seq<u8>>,
    phase: Phase,
    others: StatePaths<Seq<u8>>,
    other: Phase,
)
    requires
        w.sound(),
        v.sound(),
        confined(w, v, paths, phase),
        separate(paths, phase, others, other),
        disk::apart(path::components(paths.directory), path::components(others.directory)),
        mounted::are_places(others),
        disk::apart(path::components(others.directory), disk::vault()),
        w.at(paths.directory) is Some,
        w.at(others.directory) is Some,
    ensures
        v.at(others.directory) is Some,
        in_phase(w, others, other) ==> in_phase(v, others, other),
        ended(w, others, other) ==> ended(v, others, other),
{
    let (home, zone) = (path::components(paths.directory), path::components(others.directory));
    mounted::lemma_places(others);
    assert(zone.take(zone.len() as int) =~= zone);
    lemma_state_kept(w, v, paths, phase, others, other, zone);
    lemma_state_kept(w, v, paths, phase, others, other, path::components(others.journal));
    lemma_state_kept(w, v, paths, phase, others, other, path::components(others.current));
    match other {
        Phase::Idle => {},
        Phase::Mounting(p, a) | Phase::Leaving(p, a) => {
            if in_phase(w, others, other) || ended(w, others, other) {
                let root = path::components(a.root);
                assert forall|j: Spot|
                    #![trigger v.get(j)]
                    disk::below(root, j) && !lies_in(home, j) implies v.get(j) == w.get(j) by {
                    placed::lemma_apart_below(disk::vault(), root, j);
                    if let Some(b) = activation_of(phase) {
                        placed::lemma_apart_below(path::components(b.root), root, j);
                    }
                    assert(abides(w, v, home, j));
                    if j.len() == 0 {
                        assert(j =~= Seq::empty());
                    }
                }
                lemma_kept(w, v, others, p, a, home);
            }
        },
    }
}

/// An image is as it was where nothing changed below its root but what lies in a directory that it
/// leaves alone.
pub proof fn lemma_kept(
    w: Disk,
    v: Disk,
    paths: StatePaths<Seq<u8>>,
    p: Seq<u8>,
    a: ActivationModel,
    home: Spot,
)
    requires
        v.sound(),
        v.records == w.records,
        v.journals == w.journals,
        mounted::preserved(w, v),
        recovered::ready(w, paths, p, a),
        v.at(paths.directory) is Some,
        v.at(paths.journal) == w.at(paths.journal),
        v.at(paths.current) == w.at(paths.current),
        backed::clear_of(a.projection, path::components(a.root), home),
        backed::clear_of(a.baseline, path::components(a.root), home),
        w.get(home) is Some,
        forall|j: Spot|
            #![trigger v.get(j)]
            disk::below(path::components(a.root), j) && !lies_in(home, j) ==> v.get(j) == w.get(j),
    ensures
        mounting(w, paths, p, a) ==> mounting(v, paths, p, a),
        resting(w, paths, p, a) ==> resting(v, paths, p, a),
        leaving(w, paths, p, a) ==> leaving(v, paths, p, a),
        vacated(w, paths, p, a) ==> vacated(v, paths, p, a),
{
    let root = path::components(a.root);
    recovered::lemma_ready(w, v, paths, p, a);
    assert(backed::untouched(w, v, root, home));
    assert(root.take(root.len() as int) =~= root);
    backed::lemma_tree_stands_untouched(w, v, a.projection, a.root, root, home);
    if mounting(w, paths, p, a) {
        let t = choose|t: state::Transaction<Seq<u8>>| #[trigger]
            recovered::journal_is(w, paths, t) && recovered::brings(t, p);
        assert(recovered::journal_is(v, paths, t));
    }
    if vacated(w, paths, p, a) {
        mounted::lemma_tree_reached_untouched(
            w,
            v,
            a.projection,
            a.baseline,
            a.root,
            root,
            home,
        );
    }
}

/// Recovering an image brings what is under way for it to its end, and touches nothing else; when
/// it is interrupted, that is still under way or came to its end.
pub proof fn law_recover(w: Disk, paths: StatePaths<Seq<u8>>, phase: Phase)
    requires
        w.sound(),
        mounted::are_places(paths),
        disk::apart(path::components(paths.directory), disk::vault()),
        in_phase(w, paths, phase) || ended(w, paths, phase),
    ensures
        state::recover_program(paths).upholds(
            w,
            |v: Disk|
                v.sound() && confined(w, v, paths, phase) && (in_phase(v, paths, phase) || ended(
                    v,
                    paths,
                    phase,
                )),
            |v: Disk, r: Result<(), Trouble>| r is Ok ==> ended(v, paths, phase),
        ),
{
    let inv = |v: Disk|
        v.sound() && confined(w, v, paths, phase) && (in_phase(v, paths, phase) || ended(
            v,
            paths,
            phase,
        ));
    if w.at(paths.journal) is None {
        recovered::law_recover_idle(w, paths);
        assert forall|v: Disk| #[trigger] steady(w, paths)(v) implies inv(v) && ended(
            v,
            paths,
            phase,
        ) by {
            match phase {
                Phase::Idle => {},
                Phase::Mounting(p, a) => {
                    recovered::lemma_tends_local(w, v, paths, a);
                    recovered::lemma_resting(w, v, paths, p, a);
                },
                Phase::Leaving(p, a) => {
                    recovered::lemma_tends_local(w, v, paths, a);
                    recovered::lemma_vacated(w, v, paths, p, a);
                },
            }
        }
    } else {
        match phase {
            Phase::Idle => {},
            Phase::Mounting(p, a) => {
                recovered::law_recover_mounting(w, w, paths, p, a);
                assert forall|v: Disk| #[trigger] entering(w, paths, p, a)(v) implies inv(v) by {}
            },
            Phase::Leaving(p, a) => {
                recovered::law_recover_leaving(w, w, paths, p, a);
                assert forall|v: Disk| #[trigger] departing(w, paths, p, a)(v) implies inv(v) by {}
            },
        }
    }
}

/// Whether a state is kept for an image of this name.
pub open spec fn has_state(w: Disk, state_root: Seq<u8>, name: Seq<u8>) -> bool {
    path::is_plain(name) && w.get(
        path::components(state::images_of(state_root)).push(Component::Normal(name)),
    ) is Some
}

/// Whether what was under way for an image came to its end, and nothing is left of what was being
/// prepared.
#[verifier::opaque]
pub open spec fn over(
    v: Disk,
    state_root: Seq<u8>,
    phases: spec_fn(Seq<u8>) -> Phase,
    name: Seq<u8>,
) -> bool {
    &&& ended(v, state::places(state_root, name), phases(name))
    &&& v.at(state::places(state_root, name).preparing) is None
}

/// Whether the directory of the state of an image stands, and what is under way for it is so, or came
/// to its end.
#[verifier::opaque]
pub open spec fn on_track(
    v: Disk,
    state_root: Seq<u8>,
    phases: spec_fn(Seq<u8>) -> Phase,
    name: Seq<u8>,
) -> bool {
    &&& v.at(state::places(state_root, name).directory) is Some
    &&& in_phase(v, state::places(state_root, name), phases(name)) || ended(
        v,
        state::places(state_root, name),
        phases(name),
    )
}

/// Whether this holds of the images of `w`.
pub open spec fn all_on_track(
    w: Disk,
    state_root: Seq<u8>,
    phases: spec_fn(Seq<u8>) -> Phase,
) -> spec_fn(Disk) -> bool {
    |v: Disk|
        v.sound() && forall|name: Seq<u8>| #[trigger]
            has_state(w, state_root, name) ==> on_track(v, state_root, phases, name)
}

/// That what was under way for the images of `w` came to its end, if the operation succeeded.
pub open spec fn all_over(
    w: Disk,
    state_root: Seq<u8>,
    phases: spec_fn(Seq<u8>) -> Phase,
) -> spec_fn(Disk, Result<(), Trouble>) -> bool {
    |v: Disk, r: Result<(), Trouble>|
        r is Ok ==> forall|name: Seq<u8>| #[trigger]
            has_state(w, state_root, name) ==> over(v, state_root, phases, name)
}

/// Whether the images of `w` are apart from each other.
pub open spec fn all_separate(
    w: Disk,
    state_root: Seq<u8>,
    phases: spec_fn(Seq<u8>) -> Phase,
) -> bool {
    forall|a: Seq<u8>, b: Seq<u8>|
        #![trigger has_state(w, state_root, a), has_state(w, state_root, b)]
        has_state(w, state_root, a) && has_state(w, state_root, b) && a != b ==> separate(
            state::places(state_root, a),
            phases(a),
            state::places(state_root, b),
            phases(b),
        )
}

/// What is kept for an image is apart from the store where that of all images is.
pub proof fn lemma_places(state_root: Seq<u8>, name: Seq<u8>)
    requires
        path::is_plain(name),
        disk::apart(path::components(state::images_of(state_root)), disk::vault()),
    ensures
        mounted::are_places(state::places(state_root, name)),
        disk::apart(
            path::components(state::places(state_root, name).directory),
            disk::vault(),
        ),
{
    let images = state::images_of(state_root);
    let d = path::components(images);
    path::lemma_entry(images, name);
    placed::lemma_below_push(d, Component::Normal(name));
    placed::lemma_apart_below(disk::vault(), d, d.push(Component::Normal(name)));
}

/// Whether `v` differs from `w` at most by what may be done for an image, for which what was
/// under way is so, or came to its end.
#[verifier::opaque]
pub open spec fn advances(
    w: Disk,
    v: Disk,
    state_root: Seq<u8>,
    phases: spec_fn(Seq<u8>) -> Phase,
    name: Seq<u8>,
) -> bool {
    &&& v.sound()
    &&& confined(w, v, state::places(state_root, name), phases(name))
    &&& on_track(v, state_root, phases, name)
}

/// What is done for an image leaves the directory of its state.
proof fn lemma_home_kept(w: Disk, v: Disk, paths: StatePaths<Seq<u8>>, phase: Phase)
    requires
        confined(w, v, paths, phase),
        in_phase(w, paths, phase) || ended(w, paths, phase),
        disk::apart(path::components(paths.directory), disk::vault()),
        w.at(paths.directory) is Some,
    ensures
        v.at(paths.directory) is Some,
{
    let zone = path::components(paths.directory);
    assert(abides(w, v, zone, zone));
}

/// Recovering one of the images advances it.
proof fn lemma_advances(
    w: Disk,
    state_root: Seq<u8>,
    phases: spec_fn(Seq<u8>) -> Phase,
    name: Seq<u8>,
)
    requires
        w.sound(),
        path::is_plain(name),
        disk::apart(path::components(state::images_of(state_root)), disk::vault()),
        on_track(w, state_root, phases, name),
    ensures
        state::recover_program(state::places(state_root, name)).upholds(
            w,
            |v: Disk| advances(w, v, state_root, phases, name),
            |v: Disk, r: Result<(), Trouble>| r is Ok ==> over(v, state_root, phases, name),
        ),
{
    reveal(over);
    reveal(on_track);
    reveal(advances);
    let paths = state::places(state_root, name);
    let phase = phases(name);
    lemma_places(state_root, name);
    law_recover(w, paths, phase);
    let inv = |v: Disk|
        v.sound() && confined(w, v, paths, phase) && (in_phase(v, paths, phase) || ended(
            v,
            paths,
            phase,
        ));
    let p = state::recover_program(paths);
    let done = |v: Disk, r: Result<(), Trouble>| r is Ok ==> ended(v, paths, phase);
    let bare = swept::unprepared::<()>(paths);
    swept::law_recover_unprepared(w, paths);
    reason::lemma_upholds_both(p, w, inv, done, bare);
    let both = |v: Disk, r: Result<(), Trouble>| done(v, r) && bare(v, r);
    let post = |v: Disk, r: Result<(), Trouble>| r is Ok ==> over(v, state_root, phases, name);
    assert forall|v: Disk, r: Result<(), Trouble>| #[trigger] both(v, r) implies post(v, r) by {}
    assert forall|v: Disk| #[trigger] inv(v) implies advances(w, v, state_root, phases, name) by {
        lemma_home_kept(w, v, paths, phase);
    }
}

/// Advancing one of the images does not disturb another one.
proof fn lemma_others(
    w: Disk,
    v: Disk,
    state_root: Seq<u8>,
    phases: spec_fn(Seq<u8>) -> Phase,
    name: Seq<u8>,
    other: Seq<u8>,
)
    requires
        path::is_plain(name),
        path::is_plain(other),
        name != other,
        disk::apart(path::components(state::images_of(state_root)), disk::vault()),
        w.sound(),
        on_track(w, state_root, phases, name),
        on_track(w, state_root, phases, other),
        advances(w, v, state_root, phases, name),
        separate(
            state::places(state_root, name),
            phases(name),
            state::places(state_root, other),
            phases(other),
        ),
    ensures
        v.sound(),
        on_track(v, state_root, phases, name),
        on_track(v, state_root, phases, other),
        over(w, state_root, phases, other) ==> over(v, state_root, phases, other),
{
    reveal(over);
    reveal(on_track);
    reveal(advances);
    lemma_places(state_root, other);
    commanded::law_places_apart(state_root, name, other);
    mounted::lemma_places(state::places(state_root, other));
    lemma_state_kept(
        w,
        v,
        state::places(state_root, name),
        phases(name),
        state::places(state_root, other),
        phases(other),
        path::components(state::places(state_root, other).preparing),
    );
    lemma_undisturbed(
        w,
        v,
        state::places(state_root, name),
        phases(name),
        state::places(state_root, other),
        phases(other),
    );
}

/// Advancing one of the images keeps all on track, and what came to its end at its end.
proof fn lemma_all(
    w: Disk,
    v: Disk,
    x: Disk,
    state_root: Seq<u8>,
    phases: spec_fn(Seq<u8>) -> Phase,
    name: Seq<u8>,
)
    requires
        disk::apart(path::components(state::images_of(state_root)), disk::vault()),
        all_separate(w, state_root, phases),
        all_on_track(w, state_root, phases)(v),
        has_state(w, state_root, name),
        advances(v, x, state_root, phases, name),
    ensures
        all_on_track(w, state_root, phases)(x),
        forall|other: Seq<u8>| #[trigger]
            has_state(w, state_root, other) && other != name && over(
                v,
                state_root,
                phases,
                other,
            ) ==> over(x, state_root, phases, other),
{
    assert forall|other: Seq<u8>| #[trigger] has_state(w, state_root, other) implies on_track(
        x,
        state_root,
        phases,
        other,
    ) && (other != name && over(v, state_root, phases, other) ==> over(
        x,
        state_root,
        phases,
        other,
    )) by {
        if other != name {
            lemma_others(v, x, state_root, phases, name, other);
        } else {
            reveal(advances);
        }
    }
    reveal(advances);
}

proof fn lemma_recover_names(
    w: Disk,
    v: Disk,
    state_root: Seq<u8>,
    phases: spec_fn(Seq<u8>) -> Phase,
    names: Seq<Seq<u8>>,
)
    requires
        disk::apart(path::components(state::images_of(state_root)), disk::vault()),
        all_separate(w, state_root, phases),
        all_on_track(w, state_root, phases)(v),
        forall|i: int| 0 <= i < names.len() ==> has_state(w, state_root, #[trigger] names[i]),
        forall|name: Seq<u8>| #[trigger]
            has_state(w, state_root, name) && !names.contains(name) ==> over(
                v,
                state_root,
                phases,
                name,
            ),
    ensures
        state::recover_names_program(state_root, names).upholds(
            v,
            all_on_track(w, state_root, phases),
            all_over(w, state_root, phases),
        ),
    decreases names.len(),
{
    let inv = all_on_track(w, state_root, phases);
    let post = all_over(w, state_root, phases);
    if names.len() > 0 {
        let name = names[0];
        let later = names.skip(1);
        let one = |x: Disk| advances(v, x, state_root, phases, name);
        let done = |x: Disk, r: Result<(), Trouble>| r is Ok ==> over(x, state_root, phases, name);
        assert(has_state(w, state_root, names[0]));
        lemma_advances(v, state_root, phases, name);
        assert forall|x: Disk| #[trigger] one(x) implies inv(x) by {
            lemma_all(w, v, x, state_root, phases, name);
        }
        assert forall|x: Disk, r: Result<(), Trouble>| #[trigger]
            done(x, r) && one(x) && r is Ok implies state::recover_names_program(
            state_root,
            later,
        ).upholds(x, inv, post) by {
            lemma_all(w, v, x, state_root, phases, name);
            assert forall|i: int| 0 <= i < later.len() implies has_state(
                w,
                state_root,
                #[trigger] later[i],
            ) by {
                assert(later[i] == names[i + 1]);
            }
            assert forall|other: Seq<u8>| #[trigger]
                has_state(w, state_root, other) && !later.contains(other) implies over(
                x,
                state_root,
                phases,
                other,
            ) by {
                if other != name && names.contains(other) {
                    let k = choose|k: int| 0 <= k < names.len() && names[k] == other;
                    assert(later[k - 1] == other);
                }
            }
            lemma_recover_names(w, x, state_root, phases, later);
        }
    }
}

/// Every program keeps a disk sound.
proof fn lemma_sound<R>(p: Program<R>, w: Disk)
    requires
        w.sound(),
    ensures
        p.upholds(w, |v: Disk| v.sound(), any()),
    decreases p,
{
    let inv = |v: Disk| v.sound();
    match p {
        Program::Ask(request, f) => {
            assert forall|x: Answer, v: Disk| #[trigger] w.leads(request, x, v) implies f(x).upholds(
                v,
                inv,
                any(),
            ) by {
                lemma_sound(f(x), v);
            }
        },
        _ => {},
    }
}

/// Recovering all images brings what is under way for each of them to its end; when it is
/// interrupted, that is still under way or came to its end.
pub proof fn law_recover_all(w: Disk, state_root: Seq<u8>, phases: spec_fn(Seq<u8>) -> Phase)
    requires
        disk::apart(path::components(state::images_of(state_root)), disk::vault()),
        all_separate(w, state_root, phases),
        all_on_track(w, state_root, phases)(w),
    ensures
        state::recover_all_program(state_root).upholds(
            w,
            all_on_track(w, state_root, phases),
            all_over(w, state_root, phases),
        ),
{
    let inv = all_on_track(w, state_root, phases);
    let post = all_over(w, state_root, phases);
    let images = state::images_of(state_root);
    let d = path::components(images);
    mounted::lemma_state_names();
    path::lemma_entry(state_root, bytes::text("images"@));
    assert forall|name: Seq<u8>| #[trigger] has_state(w, state_root, name) implies disk::is_directory(
        w.get(d),
    ) by {
        placed::lemma_below_push(d, Component::Normal(name));
        assert(d.push(Component::Normal(name)) != d) by {
            assert(d.push(Component::Normal(name)).len() != d.len());
        }
    }
    if disk::is_directory(w.get(d)) {
        assert forall|names: Seq<Seq<u8>>| #[trigger]
            w.lists(d, names) && host::all_plain(names) implies state::recover_names_program(
            state_root,
            names,
        ).upholds(w, inv, post) by {
            assert forall|i: int| 0 <= i < names.len() implies has_state(
                w,
                state_root,
                #[trigger] names[i],
            ) by {
                assert(path::is_plain(names[i]));
                assert(names.contains(names[i]));
            }
            assert forall|name: Seq<u8>| #[trigger]
                has_state(w, state_root, name) implies names.contains(name) by {}
            lemma_recover_names(w, w, state_root, phases, names);
        }
    } else {
        let p = state::recover_all_program(state_root);
        lemma_sound(p, w);
        assert forall|v: Disk| v.sound() implies #[trigger] inv(v) by {}
    }
}

} // verus!
