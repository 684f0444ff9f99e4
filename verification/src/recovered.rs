//! That what was interrupted can be brought to its end.
use vstd::prelude::*;

use crate::atomic;
use crate::backed;
use crate::backed::abides;
use crate::bytes;
use crate::disk;
use crate::disk::{Disk, Object, Spot};
use crate::error::Trouble;
use crate::guarded;
use crate::managed::{lies_in, owned};
use crate::mounted;
use crate::path;
use crate::placed;
use crate::program::Program;
use crate::quiet;
use crate::quiet::any;
use crate::reason;
use crate::standing;
use crate::state;
use crate::state::{ActivationModel, StatePaths, Transaction};
use crate::steady;
use crate::steady::{steady, tends};
use crate::swept;
use crate::swept::sweeps;
use crate::turned;
use crate::whole;

verus! {

broadcast use crate::reason::group_upholds;

/// Whether a transaction is written down as under way.
pub open spec fn journal_is(v: Disk, paths: StatePaths<Seq<u8>>, t: Transaction<Seq<u8>>) -> bool {
    v.at(paths.journal) matches Some(Object::File(form, _)) && v.journals.dom().contains(form)
        && v.journals[form] == t
}

/// Whether recovering from a transaction mounts the activation recorded at `p`.
pub open spec fn brings(t: Transaction<Seq<u8>>, p: Seq<u8>) -> bool {
    t matches Transaction::Mount { previous, next } && match next {
        Some(n) => n == p,
        None => previous == Some(p),
    }
}

/// Whether an activation is recorded, all that it is made from is there, and so is the directory of
/// the state.
pub open spec fn ready(v: Disk, paths: StatePaths<Seq<u8>>, p: Seq<u8>, a: ActivationModel) -> bool {
    &&& mounted::holds(v, p, a)
    &&& mounted::genuine(v, a)
    &&& mounted::housed(paths, a)
    &&& v.at(paths.directory) is Some
}

/// Whether the mount of an activation is under way.
pub open spec fn mounting(v: Disk, paths: StatePaths<Seq<u8>>, p: Seq<u8>, a: ActivationModel) -> bool {
    &&& v.sound()
    &&& ready(v, paths, p, a)
    &&& exists|t: Transaction<Seq<u8>>| #[trigger] journal_is(v, paths, t) && brings(t, p)
}

/// Whether an activation is mounted, and nothing is under way.
pub open spec fn resting(v: Disk, paths: StatePaths<Seq<u8>>, p: Seq<u8>, a: ActivationModel) -> bool {
    &&& v.sound()
    &&& ready(v, paths, p, a)
    &&& v.at(paths.journal) is None
    &&& mounted::installed(v, paths, p, a)
    &&& standing::tree_stands(v, a.projection, a.root)
}

/// Whether the unmount of an activation is under way.
pub open spec fn leaving(v: Disk, paths: StatePaths<Seq<u8>>, p: Seq<u8>, a: ActivationModel) -> bool {
    &&& v.sound()
    &&& ready(v, paths, p, a)
    &&& journal_is(v, paths, Transaction::Unmount { activation: p })
}

/// Whether an activation was taken away, and nothing is mounted or under way.
pub open spec fn vacated(v: Disk, paths: StatePaths<Seq<u8>>, p: Seq<u8>, a: ActivationModel) -> bool {
    &&& v.sound()
    &&& ready(v, paths, p, a)
    &&& v.at(paths.journal) is None
    &&& v.at(paths.current) is None
    &&& turned::tree_reached(v, a.projection, a.baseline, a.root)
}

/// Whether `v` differs from `w` at most by what belongs to an activation or was new below its root,
/// in what is kept for an image, in directories on the way there, and by new objects in the store;
/// and nothing is new below what stood there and does not belong to the activation.
pub open spec fn local(w: Disk, v: Disk, paths: StatePaths<Seq<u8>>, a: ActivationModel) -> bool {
    &&& v.records == w.records
    &&& v.journals == w.journals
    &&& mounted::preserved(w, v)
    &&& forall|j: Spot|
        #![trigger v.get(j)]
        !lies_in(path::components(paths.directory), j) && guarded::tree_spares(
            w,
            a.projection,
            path::components(a.root),
            j,
        ) && !disk::below(disk::vault(), j) ==> abides(w, v, path::components(paths.directory), j)
    &&& forall|z: Spot, j: Spot|
        #![trigger disk::below(z, j), v.get(j)]
        lies_in(path::components(a.root), z) && w.get(z) is Some && !owned(
            a.projection,
            path::components(a.root),
            z,
        ) && disk::apart(path::components(paths.directory), z) && disk::below(z, j)
            && !disk::below(disk::vault(), j) ==> v.get(j) == w.get(j)
}

pub proof fn lemma_local_trans(
    w: Disk,
    u: Disk,
    v: Disk,
    paths: StatePaths<Seq<u8>>,
    a: ActivationModel,
)
    requires
        local(w, u, paths, a),
        local(u, v, paths, a) || tends(u, v, paths),
    ensures
        local(w, v, paths, a),
{
    mounted::lemma_preserved_trans(w, u, v);
    assert forall|j: Spot|
        #![trigger v.get(j)]
        !lies_in(path::components(paths.directory), j) && guarded::tree_spares(
            w,
            a.projection,
            path::components(a.root),
            j,
        ) && !disk::below(disk::vault(), j) implies abides(w, v, path::components(paths.directory), j) by {
        assert(abides(w, u, path::components(paths.directory), j));
    }
    assert forall|z: Spot, j: Spot|
        #![trigger disk::below(z, j), v.get(j)]
        lies_in(path::components(a.root), z) && w.get(z) is Some && !owned(
            a.projection,
            path::components(a.root),
            z,
        ) && disk::apart(path::components(paths.directory), z) && disk::below(z, j)
            && !disk::below(disk::vault(), j) implies v.get(j) == w.get(j) by {
        assert(u.get(j) == w.get(j));
        assert(z.take(z.len() as int) =~= z);
        assert(disk::below(z, z));
        if disk::below(disk::vault(), z) {
            placed::lemma_below_trans(disk::vault(), z, j);
        }
        assert(u.get(z) == w.get(z));
        placed::lemma_apart_below(path::components(paths.directory), z, j);
    }
}

/// What is done in what is kept for an image, and by new objects in the store, is local.
pub proof fn lemma_tends_local(w: Disk, v: Disk, paths: StatePaths<Seq<u8>>, a: ActivationModel)
    requires
        tends(w, v, paths),
    ensures
        local(w, v, paths, a),
{
    assert forall|z: Spot, j: Spot|
        #![trigger disk::below(z, j), v.get(j)]
        disk::apart(path::components(paths.directory), z) && disk::below(z, j) && !disk::below(
            disk::vault(),
            j,
        ) implies v.get(j) == w.get(j) by {
        placed::lemma_apart_below(path::components(paths.directory), z, j);
    }
}

/// A recorded activation stays recorded while the store is preserved.
pub proof fn lemma_ready(w: Disk, v: Disk, paths: StatePaths<Seq<u8>>, p: Seq<u8>, a: ActivationModel)
    requires
        ready(w, paths, p, a),
        mounted::preserved(w, v),
        v.records == w.records,
        v.at(paths.directory) is Some,
    ensures
        ready(v, paths, p, a),
{
    let s = path::components(p);
    assert(s.take(s.len() as int) =~= s);
    assert(disk::below(s, s));
    mounted::lemma_tree_sourced_preserved(w, v, a.projection, path::components(a.root));
    mounted::lemma_tree_sourced_preserved(w, v, a.baseline, path::components(a.root));
}

/// Turning what an activation manages touches neither what is kept for the image nor the store.
pub proof fn lemma_root_away(
    w: Disk,
    v: Disk,
    paths: StatePaths<Seq<u8>>,
    p: Seq<u8>,
    a: ActivationModel,
)
    requires
        mounted::are_places(paths),
        ready(w, paths, p, a),
        guarded::sparing(w, a.projection, path::components(a.root))(v),
    ensures
        ready(v, paths, p, a),
        local(w, v, paths, a),
        v.at(paths.journal) == w.at(paths.journal),
        v.at(paths.current) == w.at(paths.current),
{
    let root = path::components(a.root);
    mounted::lemma_places(paths);
    assert(w.same_but(root, v));
    mounted::lemma_preserved_away(w, v, root);
    mounted::lemma_zone_spared(w, v, paths, a);
    lemma_ready(w, v, paths, p, a);
}

/// Where the directory of the state stands, nothing changes elsewhere below the root of an image.
pub proof fn lemma_tends_untouched(w: Disk, v: Disk, paths: StatePaths<Seq<u8>>, root: Spot)
    requires
        w.sound(),
        tends(w, v, paths),
        w.at(paths.directory) is Some,
        disk::apart(root, disk::vault()),
    ensures
        backed::untouched(w, v, root, path::components(paths.directory)),
{
    let zone = path::components(paths.directory);
    assert forall|j: Spot|
        #![trigger v.get(j)]
        disk::below(root, j) && !lies_in(zone, j) implies v.get(j) == w.get(j) by {
        placed::lemma_apart_below(disk::vault(), root, j);
        assert(abides(w, v, zone, j));
        if j.len() == 0 {
            assert(j =~= Seq::empty());
        }
    }
}

/// A mounted activation stays so while nothing but its roots changes.
pub proof fn lemma_resting(w: Disk, v: Disk, paths: StatePaths<Seq<u8>>, p: Seq<u8>, a: ActivationModel)
    requires
        resting(w, paths, p, a),
        steady(w, paths)(v),
    ensures
        resting(v, paths, p, a),
{
    let root = path::components(a.root);
    lemma_ready(w, v, paths, p, a);
    lemma_tends_untouched(w, v, paths, root);
    assert(root.take(root.len() as int) =~= root);
    backed::lemma_tree_stands_untouched(
        w,
        v,
        a.projection,
        a.root,
        root,
        path::components(paths.directory),
    );
}

/// What is left after an unmount stays so while nothing but roots changes.
pub proof fn lemma_vacated(w: Disk, v: Disk, paths: StatePaths<Seq<u8>>, p: Seq<u8>, a: ActivationModel)
    requires
        vacated(w, paths, p, a),
        steady(w, paths)(v),
    ensures
        vacated(v, paths, p, a),
{
    let root = path::components(a.root);
    lemma_ready(w, v, paths, p, a);
    lemma_tends_untouched(w, v, paths, root);
    assert(root.take(root.len() as int) =~= root);
    mounted::lemma_tree_reached_untouched(
        w,
        v,
        a.projection,
        a.baseline,
        a.root,
        root,
        path::components(paths.directory),
    );
}

/// Whether only one of the two files changed, and is as before or as `fresh` says.
pub open spec fn flips(
    w: Disk,
    paths: StatePaths<Seq<u8>>,
    p: Seq<u8>,
    other: Seq<u8>,
    fresh: spec_fn(Option<Object>) -> bool,
) -> spec_fn(Disk) -> bool {
    |v: Disk|
        tends(w, v, paths) && v.at(other) == w.at(other) && (v.at(p) == w.at(p) || fresh(v.at(p)))
}

/// A change of one of the two files as a whole is one.
proof fn lemma_flips(
    w: Disk,
    v: Disk,
    paths: StatePaths<Seq<u8>>,
    p: Seq<u8>,
    other: Seq<u8>,
    fresh: spec_fn(Option<Object>) -> bool,
)
    requires
        mounted::are_places(paths),
        disk::apart(path::components(paths.directory), disk::vault()),
        (p == paths.journal && other == paths.current) || (p == paths.current && other
            == paths.journal),
        whole::at_once(w, path::components(paths.directory), path::components(p), fresh)(v),
    ensures
        flips(w, paths, p, other, fresh)(v),
{
    let zone = path::components(paths.directory);
    let (c, k) = (path::components(p), path::components(other));
    mounted::lemma_places(paths);
    steady::lemma_kept_harmless(paths);
    lemma_not_temporary(paths);
    assert forall|i: Spot, j: Spot| #[trigger]
        disk::below(i, j) && disk::in_vault(i) && w.get(i) is Some implies v.get(j) == w.get(j) by {
        placed::lemma_below_trans(disk::vault(), i, j);
        if disk::below(zone, j) {
            placed::lemma_below_both(zone, disk::vault(), j);
        }
        if disk::below(c, j) {
            placed::lemma_below_trans(zone, c, j);
        }
    }
    assert forall|j: Spot|
        #![trigger v.get(j)]
        !lies_in(zone, j) && !disk::below(disk::vault(), j) implies abides(w, v, zone, j) by {
        if disk::below(c, j) {
            placed::lemma_below_trans(zone, c, j);
            assert(c.take(c.len() as int) =~= c);
        }
    }
    assert(c.take(c.len() as int) =~= c);
}

/// The two files are no temporary objects.
proof fn lemma_not_temporary(paths: StatePaths<Seq<u8>>)
    requires
        mounted::are_places(paths),
    ensures
        !disk::is_temporary(bytes::text("current"@)),
        !disk::is_temporary(bytes::text("transaction"@)),
        !whole::temporary_in(path::components(paths.directory), path::components(paths.current)),
        !whole::temporary_in(path::components(paths.directory), path::components(paths.journal)),
{
    let (a, b, z) = (
        bytes::text("current"@),
        bytes::text("transaction"@),
        bytes::text(".tmp"@),
    );
    mounted::lemma_state_names();
    path::lemma_entry(paths.directory, a);
    path::lemma_entry(paths.directory, b);
    reveal_strlit("current");
    reveal_strlit("transaction");
    reveal_strlit(".tmp");
    vstd::utf8::is_ascii_chars_encode_utf8("current"@);
    vstd::utf8::is_ascii_chars_encode_utf8("transaction"@);
    vstd::utf8::is_ascii_chars_encode_utf8(".tmp"@);
    assert(a.len() == 7 && b.len() == 11 && z.len() == 4);
    assert(a[0] == 'c' as u8 && b[0] == 't' as u8 && z[0] == '.' as u8);
    assert(a.take(4)[0] == a[0]);
    assert(b.take(4)[0] == b[0]);
}

/// The written form of a transaction.
pub open spec fn journal_of(w: Disk, t: Transaction<Seq<u8>>) -> spec_fn(Option<Object>) -> bool {
    |o: Option<Object>|
        o matches Some(Object::File(form, _)) && w.journals.dom().contains(form)
            && w.journals[form] == t
}

/// Writing down what is under way takes effect at once.
pub proof fn lemma_write_transaction(w: Disk, paths: StatePaths<Seq<u8>>, t: Transaction<Seq<u8>>)
    requires
        w.sound(),
        mounted::are_places(paths),
        disk::apart(path::components(paths.directory), disk::vault()),
    ensures
        state::write_transaction_program(paths, t).upholds(
            w,
            flips(w, paths, paths.journal, paths.current, journal_of(w, t)),
            |v: Disk, r: Result<(), Trouble>| r is Ok ==> journal_is(v, paths, t),
        ),
{
    let name = bytes::text("transaction"@);
    let c = path::components(paths.journal);
    let zone = path::components(paths.directory);
    let fresh = journal_of(w, t);
    let inv = flips(w, paths, paths.journal, paths.current, fresh);
    let post = |v: Disk, r: Result<(), Trouble>| r is Ok ==> journal_is(v, paths, t);
    mounted::lemma_state_names();
    lemma_not_temporary(paths);
    assert forall|form: Seq<u8>| #[trigger]
        w.journals.dom().contains(form) && w.journals[form] == t implies atomic::write_program(
        paths.journal,
        form,
    ).upholds(w, inv, post) by {
        let file = whole::file_of(form);
        whole::law_write_whole(w, paths.directory, name, form);
        assert forall|v: Disk| #[trigger] whole::at_once(w, zone, c, file)(v) implies inv(v) by {
            lemma_flips(w, v, paths, paths.journal, paths.current, file);
        }
        assert forall|v: Disk, r: Result<(), Trouble>| #[trigger]
            whole::arrived(c, file)(v, r) && whole::at_once(w, zone, c, file)(v) implies post(
            v,
            r,
        ) by {}
    }
    assert(inv(w)) by {
        assert(tends(w, w, paths));
    }
}

/// Writing down that nothing is under way takes effect at once.
proof fn lemma_clear_transaction(w: Disk, paths: StatePaths<Seq<u8>>)
    requires
        w.sound(),
        mounted::are_places(paths),
        disk::apart(path::components(paths.directory), disk::vault()),
    ensures
        state::clear_transaction_program(paths).upholds(
            w,
            flips(w, paths, paths.journal, paths.current, whole::nothing()),
            |v: Disk, r: Result<(), Trouble>| r is Ok ==> v.at(paths.journal) is None,
        ),
{
    let c = path::components(paths.journal);
    let zone = path::components(paths.directory);
    let none = whole::nothing();
    mounted::lemma_state_names();
    whole::law_remove_whole(w, paths.directory, bytes::text("transaction"@));
    assert forall|v: Disk| #[trigger] whole::at_once(w, zone, c, none)(v) implies flips(
        w,
        paths,
        paths.journal,
        paths.current,
        none,
    )(v) by {
        lemma_flips(w, v, paths, paths.journal, paths.current, none);
    }
}

/// Writing down what is mounted takes effect at once.
proof fn lemma_write_current(w: Disk, paths: StatePaths<Seq<u8>>, p: Seq<u8>)
    requires
        w.sound(),
        mounted::are_places(paths),
        disk::apart(path::components(paths.directory), disk::vault()),
    ensures
        state::write_current_program(paths, p).upholds(
            w,
            flips(w, paths, paths.current, paths.journal, whole::file_of(state::line_of(p))),
            whole::arrived(
                path::components(paths.current),
                whole::file_of(state::line_of(p)),
            ),
        ),
{
    let c = path::components(paths.current);
    let zone = path::components(paths.directory);
    let file = whole::file_of(state::line_of(p));
    mounted::lemma_state_names();
    lemma_not_temporary(paths);
    whole::law_write_whole(w, paths.directory, bytes::text("current"@), state::line_of(p));
    assert forall|v: Disk| #[trigger] whole::at_once(w, zone, c, file)(v) implies flips(
        w,
        paths,
        paths.current,
        paths.journal,
        file,
    )(v) by {
        lemma_flips(w, v, paths, paths.current, paths.journal, file);
    }
}

/// Writing down that nothing is mounted takes effect at once.
proof fn lemma_remove_current(w: Disk, paths: StatePaths<Seq<u8>>)
    requires
        w.sound(),
        mounted::are_places(paths),
        disk::apart(path::components(paths.directory), disk::vault()),
    ensures
        state::remove_current_program(paths).upholds(
            w,
            flips(w, paths, paths.current, paths.journal, whole::nothing()),
            whole::arrived(path::components(paths.current), whole::nothing()),
        ),
{
    let c = path::components(paths.current);
    let zone = path::components(paths.directory);
    let none = whole::nothing();
    mounted::lemma_state_names();
    whole::law_remove_whole(w, paths.directory, bytes::text("current"@));
    assert forall|v: Disk| #[trigger] whole::at_once(w, zone, c, none)(v) implies flips(
        w,
        paths,
        paths.current,
        paths.journal,
        none,
    )(v) by {
        lemma_flips(w, v, paths, paths.current, paths.journal, none);
    }
}

/// Whether the mount of an activation is under way or done, and nothing else changed since `base`.
pub open spec fn entering(
    base: Disk,
    paths: StatePaths<Seq<u8>>,
    p: Seq<u8>,
    a: ActivationModel,
) -> spec_fn(Disk) -> bool {
    |v: Disk|
        local(base, v, paths, a) && (mounting(v, paths, p, a) || resting(v, paths, p, a))
}

/// That an activation is mounted, with no other roots left over, if the operation succeeded.
pub open spec fn in_place(paths: StatePaths<Seq<u8>>, p: Seq<u8>, a: ActivationModel) -> spec_fn(
    Disk,
    Result<(), Trouble>,
) -> bool {
    |v: Disk, r: Result<(), Trouble>|
        r is Ok ==> resting(v, paths, p, a) && swept::only_roots(v, paths, Some(p))
}

/// Whether the mount of an activation is under way, and its tree stands.
pub open spec fn placed_at(paths: StatePaths<Seq<u8>>, p: Seq<u8>, a: ActivationModel) -> spec_fn(
    Disk,
) -> bool {
    |v: Disk| mounting(v, paths, p, a) && standing::tree_stands(v, a.projection, a.root)
}

/// A mount under way stays so where only the other file changes.
pub proof fn lemma_mounting_tends(
    w: Disk,
    v: Disk,
    paths: StatePaths<Seq<u8>>,
    p: Seq<u8>,
    a: ActivationModel,
)
    requires
        mounting(w, paths, p, a),
        tends(w, v, paths),
        v.at(paths.journal) == w.at(paths.journal),
    ensures
        mounting(v, paths, p, a),
        standing::tree_stands(w, a.projection, a.root) ==> standing::tree_stands(
            v,
            a.projection,
            a.root,
        ),
{
    let root = path::components(a.root);
    let t = choose|t: Transaction<Seq<u8>>| #[trigger] journal_is(w, paths, t) && brings(t, p);
    assert(journal_is(v, paths, t));
    lemma_ready(w, v, paths, p, a);
    lemma_tends_untouched(w, v, paths, root);
    assert(root.take(root.len() as int) =~= root);
    backed::lemma_tree_stands_untouched(
        w,
        v,
        a.projection,
        a.root,
        root,
        path::components(paths.directory),
    );
}

/// While an activation is put in place its mount is under way, and afterwards its tree stands.
proof fn lemma_activate(
    base: Disk,
    w: Disk,
    paths: StatePaths<Seq<u8>>,
    p: Seq<u8>,
    a: ActivationModel,
)
    requires
        local(base, w, paths, a),
        mounted::are_places(paths),
        mounting(w, paths, p, a),
    ensures
        state::activate_program(a).upholds(
            w,
            |v: Disk| local(base, v, paths, a) && mounting(v, paths, p, a),
            |v: Disk, r: Result<(), Trouble>| r is Ok ==> placed_at(paths, p, a)(v),
        ),
{
    let root = path::components(a.root);
    let q = state::activate_program(a);
    let inv = |v: Disk| local(base, v, paths, a) && mounting(v, paths, p, a);
    let post = |v: Disk, r: Result<(), Trouble>| r is Ok ==> placed_at(paths, p, a)(v);
    let reached = turned::tree_turned(w, a.baseline, a.projection, a.root);
    let t = choose|t: Transaction<Seq<u8>>| #[trigger] journal_is(w, paths, t) && brings(t, p);
    assert(root.take(root.len() as int) =~= root);
    guarded::law_transition_spares(w, a.baseline, a.projection, a.root, a.projection, root);
    turned::law_tree_transition(w, a.baseline, a.projection, a.root, root);
    reason::lemma_upholds_both(q, w, guarded::sparing(w, a.projection, root), any(), reached);
    let both = |v: Disk, r: Result<(), Trouble>|
        any::<Disk, Result<(), Trouble>>()(v, r) && reached(v, r);
    assert forall|v: Disk| #[trigger] guarded::sparing(w, a.projection, root)(v) implies inv(v) by {
        lemma_root_away(w, v, paths, p, a);
        lemma_local_trans(base, w, v, paths, a);
        assert(journal_is(v, paths, t));
    }
    assert forall|v: Disk, r: Result<(), Trouble>| #[trigger]
        both(v, r) && guarded::sparing(w, a.projection, root)(v) implies post(v, r) by {
        assert(inv(v));
        if r is Ok {
            mounted::lemma_activated(v, a);
        }
    }
}

/// Writing down what is mounted, and then that nothing is under way, ends a mount.
proof fn lemma_conclude(
    base: Disk,
    w: Disk,
    paths: StatePaths<Seq<u8>>,
    p: Seq<u8>,
    a: ActivationModel,
    q: Program<Result<(), Trouble>>,
)
    requires
        local(base, w, paths, a),
        mounted::are_places(paths),
        placed_at(paths, p, a)(w),
        forall|v: Disk| #[trigger] v.sound() ==> q.upholds(
            v,
            steady(v, paths),
            sweeps(paths, Some(p)),
        ),
    ensures
        state::write_current_program(paths, p).and_then(
            |u: ()| state::clear_transaction_program(paths).and_then(|u: ()| q),
        ).upholds(w, entering(base, paths, p, a), in_place(paths, p, a)),
{
    let inv = entering(base, paths, p, a);
    let post = in_place(paths, p, a);
    let file = whole::file_of(state::line_of(p));
    let c = path::components(paths.current);
    let to_current = flips(w, paths, paths.current, paths.journal, file);
    lemma_write_current(w, paths, p);
    assert forall|v: Disk| #[trigger] to_current(v) implies local(base, v, paths, a)
        && placed_at(paths, p, a)(v) by {
        lemma_mounting_tends(w, v, paths, p, a);
        lemma_local_trans(base, w, v, paths, a);
    }
    assert forall|v: Disk, r: Result<(), Trouble>| #[trigger]
        whole::arrived(c, file)(v, r) && to_current(v)
            && r is Ok implies state::clear_transaction_program(paths).and_then(
        |u: ()| q,
    ).upholds(v, inv, post) by {
        assert(placed_at(paths, p, a)(v));
        lemma_close(base, v, paths, p, a, q);
    }
}

/// Writing down that nothing is under way ends a mount.
proof fn lemma_close(
    base: Disk,
    w: Disk,
    paths: StatePaths<Seq<u8>>,
    p: Seq<u8>,
    a: ActivationModel,
    q: Program<Result<(), Trouble>>,
)
    requires
        local(base, w, paths, a),
        mounted::are_places(paths),
        placed_at(paths, p, a)(w),
        whole::file_of(state::line_of(p))(w.at(paths.current)),
        forall|v: Disk| #[trigger] v.sound() ==> q.upholds(
            v,
            steady(v, paths),
            sweeps(paths, Some(p)),
        ),
    ensures
        state::clear_transaction_program(paths).and_then(|u: ()| q).upholds(
            w,
            entering(base, paths, p, a),
            in_place(paths, p, a),
        ),
{
    let inv = entering(base, paths, p, a);
    let post = in_place(paths, p, a);
    let root = path::components(a.root);
    let to_none = flips(w, paths, paths.journal, paths.current, whole::nothing());
    let cleared = |v: Disk, r: Result<(), Trouble>| r is Ok ==> v.at(paths.journal) is None;
    lemma_clear_transaction(w, paths);
    assert(root.take(root.len() as int) =~= root);
    assert forall|v: Disk| #[trigger] to_none(v) implies inv(v) && (v.at(paths.journal) is None
        ==> resting(v, paths, p, a)) by {
        lemma_local_trans(base, w, v, paths, a);
        if v.at(paths.journal) is None {
            lemma_ready(w, v, paths, p, a);
            lemma_tends_untouched(w, v, paths, root);
            backed::lemma_tree_stands_untouched(
                w,
                v,
                a.projection,
                a.root,
                root,
                path::components(paths.directory),
            );
        } else {
            lemma_mounting_tends(w, v, paths, p, a);
        }
    }
    assert forall|v: Disk, r: Result<(), Trouble>| #[trigger]
        cleared(v, r) && to_none(v) && r is Ok implies q.upholds(v, inv, post) by {
        assert(resting(v, paths, p, a));
        assert forall|u: Disk| #[trigger] steady(v, paths)(u) implies local(base, u, paths, a)
            && resting(u, paths, p, a) by {
            lemma_resting(v, u, paths, p, a);
            lemma_local_trans(base, v, u, paths, a);
        }
    }
}

/// Putting an activation in place and writing that down brings its mount to its end, whenever it
/// is interrupted and begun again.
pub proof fn lemma_forward(
    base: Disk,
    w: Disk,
    paths: StatePaths<Seq<u8>>,
    p: Seq<u8>,
    a: ActivationModel,
    q: Program<Result<(), Trouble>>,
)
    requires
        local(base, w, paths, a),
        mounted::are_places(paths),
        mounting(w, paths, p, a),
        forall|v: Disk| #[trigger] v.sound() ==> q.upholds(
            v,
            steady(v, paths),
            sweeps(paths, Some(p)),
        ),
    ensures
        state::activate_program(a).and_then(
            |u: ()|
                state::write_current_program(paths, p).and_then(
                    |u: ()| state::clear_transaction_program(paths).and_then(|u: ()| q),
                ),
        ).upholds(w, entering(base, paths, p, a), in_place(paths, p, a)),
{
    let inv = entering(base, paths, p, a);
    let post = in_place(paths, p, a);
    let way = |v: Disk| local(base, v, paths, a) && mounting(v, paths, p, a);
    let there = |v: Disk, r: Result<(), Trouble>| r is Ok ==> placed_at(paths, p, a)(v);
    lemma_activate(base, w, paths, p, a);
    assert forall|v: Disk| #[trigger] way(v) implies inv(v) by {}
    assert forall|v: Disk, r: Result<(), Trouble>| #[trigger]
        there(v, r) && way(v) && r is Ok implies state::write_current_program(paths, p).and_then(
        |u: ()| state::clear_transaction_program(paths).and_then(|u: ()| q),
    ).upholds(v, inv, post) by {
        lemma_conclude(base, v, paths, p, a, q);
    }
}

/// Whether the unmount of an activation is under way or done, and nothing else changed since
/// `base`.
pub open spec fn departing(
    base: Disk,
    paths: StatePaths<Seq<u8>>,
    p: Seq<u8>,
    a: ActivationModel,
) -> spec_fn(Disk) -> bool {
    |v: Disk|
        local(base, v, paths, a) && (leaving(v, paths, p, a) || vacated(v, paths, p, a))
}

/// That an activation was taken away, with no roots left over, if the operation succeeded.
pub open spec fn away(paths: StatePaths<Seq<u8>>, p: Seq<u8>, a: ActivationModel) -> spec_fn(
    Disk,
    Result<(), Trouble>,
) -> bool {
    |v: Disk, r: Result<(), Trouble>|
        r is Ok ==> vacated(v, paths, p, a) && swept::only_roots(v, paths, None)
}

/// Whether the unmount of an activation is under way, and its managed paths were turned back.
pub open spec fn lifted(paths: StatePaths<Seq<u8>>, p: Seq<u8>, a: ActivationModel) -> spec_fn(
    Disk,
) -> bool {
    |v: Disk|
        leaving(v, paths, p, a) && turned::tree_reached(v, a.projection, a.baseline, a.root)
}

/// An unmount under way stays so where only the other file changes.
proof fn lemma_leaving_tends(
    w: Disk,
    v: Disk,
    paths: StatePaths<Seq<u8>>,
    p: Seq<u8>,
    a: ActivationModel,
)
    requires
        lifted(paths, p, a)(w),
        tends(w, v, paths),
    ensures
        ready(v, paths, p, a),
        turned::tree_reached(v, a.projection, a.baseline, a.root),
        v.at(paths.journal) == w.at(paths.journal) ==> leaving(v, paths, p, a),
{
    let root = path::components(a.root);
    lemma_ready(w, v, paths, p, a);
    lemma_tends_untouched(w, v, paths, root);
    assert(root.take(root.len() as int) =~= root);
    mounted::lemma_tree_reached_untouched(
        w,
        v,
        a.projection,
        a.baseline,
        a.root,
        root,
        path::components(paths.directory),
    );
}

/// While an activation is taken away its unmount is under way, and afterwards its managed paths
/// are turned back.
proof fn lemma_deactivate(
    base: Disk,
    w: Disk,
    paths: StatePaths<Seq<u8>>,
    p: Seq<u8>,
    a: ActivationModel,
)
    requires
        local(base, w, paths, a),
        mounted::are_places(paths),
        leaving(w, paths, p, a),
    ensures
        state::deactivate_program(a).upholds(
            w,
            |v: Disk| local(base, v, paths, a) && leaving(v, paths, p, a),
            |v: Disk, r: Result<(), Trouble>| r is Ok ==> lifted(paths, p, a)(v),
        ),
{
    let root = path::components(a.root);
    let q = state::deactivate_program(a);
    let inv = |v: Disk| local(base, v, paths, a) && leaving(v, paths, p, a);
    let post = |v: Disk, r: Result<(), Trouble>| r is Ok ==> lifted(paths, p, a)(v);
    let reached = turned::tree_turned(w, a.projection, a.baseline, a.root);
    assert(root.take(root.len() as int) =~= root);
    guarded::law_transition_spares(w, a.projection, a.baseline, a.root, a.projection, root);
    turned::law_tree_transition(w, a.projection, a.baseline, a.root, root);
    reason::lemma_upholds_both(q, w, guarded::sparing(w, a.projection, root), any(), reached);
    let both = |v: Disk, r: Result<(), Trouble>|
        any::<Disk, Result<(), Trouble>>()(v, r) && reached(v, r);
    assert forall|v: Disk| #[trigger] guarded::sparing(w, a.projection, root)(v) implies inv(v) by {
        lemma_root_away(w, v, paths, p, a);
        lemma_local_trans(base, w, v, paths, a);
    }
    assert forall|v: Disk, r: Result<(), Trouble>| #[trigger]
        both(v, r) && guarded::sparing(w, a.projection, root)(v) implies post(v, r) by {
        assert(inv(v));
    }
}

/// Writing down that nothing is mounted, and then that nothing is under way, ends an unmount.
proof fn lemma_depart(
    base: Disk,
    w: Disk,
    paths: StatePaths<Seq<u8>>,
    p: Seq<u8>,
    a: ActivationModel,
    q: Program<Result<(), Trouble>>,
)
    requires
        local(base, w, paths, a),
        mounted::are_places(paths),
        lifted(paths, p, a)(w),
        forall|v: Disk| #[trigger] v.sound() ==> q.upholds(
            v,
            steady(v, paths),
            sweeps(paths, None),
        ),
    ensures
        state::remove_current_program(paths).and_then(
            |u: ()| state::clear_transaction_program(paths).and_then(|u: ()| q),
        ).upholds(w, departing(base, paths, p, a), away(paths, p, a)),
{
    let inv = departing(base, paths, p, a);
    let post = away(paths, p, a);
    let none = whole::nothing();
    let c = path::components(paths.current);
    let to_none = flips(w, paths, paths.current, paths.journal, none);
    lemma_remove_current(w, paths);
    assert forall|v: Disk| #[trigger] to_none(v) implies local(base, v, paths, a) && lifted(
        paths,
        p,
        a,
    )(v) by {
        lemma_leaving_tends(w, v, paths, p, a);
        lemma_local_trans(base, w, v, paths, a);
    }
    assert forall|v: Disk, r: Result<(), Trouble>| #[trigger]
        whole::arrived(c, none)(v, r) && to_none(v)
            && r is Ok implies state::clear_transaction_program(paths).and_then(
        |u: ()| q,
    ).upholds(v, inv, post) by {
        assert(lifted(paths, p, a)(v));
        lemma_shut(base, v, paths, p, a, q);
    }
}

/// Writing down that nothing is under way ends an unmount.
proof fn lemma_shut(
    base: Disk,
    w: Disk,
    paths: StatePaths<Seq<u8>>,
    p: Seq<u8>,
    a: ActivationModel,
    q: Program<Result<(), Trouble>>,
)
    requires
        local(base, w, paths, a),
        mounted::are_places(paths),
        lifted(paths, p, a)(w),
        w.at(paths.current) is None,
        forall|v: Disk| #[trigger] v.sound() ==> q.upholds(
            v,
            steady(v, paths),
            sweeps(paths, None),
        ),
    ensures
        state::clear_transaction_program(paths).and_then(|u: ()| q).upholds(
            w,
            departing(base, paths, p, a),
            away(paths, p, a),
        ),
{
    let inv = departing(base, paths, p, a);
    let post = away(paths, p, a);
    let to_none = flips(w, paths, paths.journal, paths.current, whole::nothing());
    let cleared = |v: Disk, r: Result<(), Trouble>| r is Ok ==> v.at(paths.journal) is None;
    lemma_clear_transaction(w, paths);
    assert forall|v: Disk| #[trigger] to_none(v) implies inv(v) && (v.at(paths.journal) is None
        ==> vacated(v, paths, p, a)) by {
        lemma_local_trans(base, w, v, paths, a);
        lemma_leaving_tends(w, v, paths, p, a);
    }
    assert forall|v: Disk, r: Result<(), Trouble>| #[trigger]
        cleared(v, r) && to_none(v) && r is Ok implies q.upholds(v, inv, post) by {
        assert(vacated(v, paths, p, a));
        assert forall|u: Disk| #[trigger] steady(v, paths)(u) implies local(base, u, paths, a)
            && vacated(u, paths, p, a) by {
            lemma_vacated(v, u, paths, p, a);
            lemma_local_trans(base, v, u, paths, a);
        }
    }
}

/// Taking an activation away and writing that down brings its unmount to its end, whenever it is
/// interrupted and begun again.
pub proof fn lemma_backward(
    base: Disk,
    w: Disk,
    paths: StatePaths<Seq<u8>>,
    p: Seq<u8>,
    a: ActivationModel,
    q: Program<Result<(), Trouble>>,
)
    requires
        local(base, w, paths, a),
        mounted::are_places(paths),
        leaving(w, paths, p, a),
        forall|v: Disk| #[trigger] v.sound() ==> q.upholds(
            v,
            steady(v, paths),
            sweeps(paths, None),
        ),
    ensures
        state::deactivate_program(a).and_then(
            |u: ()|
                state::remove_current_program(paths).and_then(
                    |u: ()| state::clear_transaction_program(paths).and_then(|u: ()| q),
                ),
        ).upholds(w, departing(base, paths, p, a), away(paths, p, a)),
{
    let inv = departing(base, paths, p, a);
    let post = away(paths, p, a);
    let way = |v: Disk| local(base, v, paths, a) && leaving(v, paths, p, a);
    let there = |v: Disk, r: Result<(), Trouble>| r is Ok ==> lifted(paths, p, a)(v);
    lemma_deactivate(base, w, paths, p, a);
    assert forall|v: Disk| #[trigger] way(v) implies inv(v) by {}
    assert forall|v: Disk, r: Result<(), Trouble>| #[trigger]
        there(v, r) && way(v) && r is Ok implies state::remove_current_program(paths).and_then(
        |u: ()| state::clear_transaction_program(paths).and_then(|u: ()| q),
    ).upholds(v, inv, post) by {
        lemma_depart(base, v, paths, p, a, q);
    }
}

/// Removing what is left over is harmless, and leaves no roots but the current ones.
pub proof fn lemma_leftovers(w: Disk, paths: StatePaths<Seq<u8>>, current: Option<Seq<u8>>)
    requires
        w.sound(),
        mounted::are_places(paths),
        disk::apart(path::components(paths.directory), disk::vault()),
    ensures
        steady(w, paths)(w),
        state::clean_program(paths, current).upholds(w, steady(w, paths), sweeps(paths, current)),
        state::remove_preparing_program(paths).and_then(
            |u: ()| state::clean_program(paths, current),
        ).upholds(w, steady(w, paths), sweeps(paths, current)),
{
    let inv = steady(w, paths);
    assert(tends(w, w, paths));
    lemma_swept(w, w, paths, current);
    steady::lemma_remove_preparing(w, w, paths);
    assert forall|v: Disk| #[trigger] inv(v) implies state::clean_program(paths, current).upholds(
        v,
        inv,
        sweeps(paths, current),
    ) by {
        lemma_swept(w, v, paths, current);
    }
}

/// Removing roots is harmless, and leaves none but the current ones.
pub proof fn lemma_swept(w: Disk, v: Disk, paths: StatePaths<Seq<u8>>, current: Option<Seq<u8>>)
    requires
        steady(w, paths)(v),
        mounted::are_places(paths),
        disk::apart(path::components(paths.directory), disk::vault()),
    ensures
        state::clean_program(paths, current).upholds(v, steady(w, paths), sweeps(paths, current)),
{
    let q = state::clean_program(paths, current);
    let none = any::<Disk, Result<(), Trouble>>();
    let some = sweeps(paths, current);
    steady::lemma_clean(w, v, paths, current);
    swept::law_clean(v, paths, current);
    reason::lemma_upholds_both(q, v, steady(w, paths), none, some);
    let both = |x: Disk, r: Result<(), Trouble>| none(x, r) && some(x, r);
    assert forall|x: Disk, r: Result<(), Trouble>| #[trigger] both(x, r) implies some(x, r) by {}
}

/// Recovering where nothing is under way changes neither what is mounted nor what stands below
/// its root.
pub proof fn law_recover_idle(w: Disk, paths: StatePaths<Seq<u8>>)
    requires
        w.sound(),
        mounted::are_places(paths),
        disk::apart(path::components(paths.directory), disk::vault()),
        w.at(paths.journal) is None,
    ensures
        state::recover_program(paths).upholds(w, steady(w, paths), any()),
{
    let inv = steady(w, paths);
    let end = any::<Disk, Result<Option<(Seq<u8>, ActivationModel)>, Trouble>>();
    lemma_leftovers(w, paths, None);
    steady::lemma_remove_preparing(w, w, paths);
    quiet::lemma_load(paths);
    assert forall|v: Disk| #[trigger] inv(v) implies state::load_program(paths).upholds(
        v,
        inv,
        end,
    ) by {
        quiet::lemma_quiet(state::load_program(paths), v, inv);
    }
    assert forall|v: Disk, current: Option<Seq<u8>>|
        #![trigger inv(v), state::clean_program(paths, current)]
        inv(v) implies state::clean_program(paths, current).upholds(v, inv, any()) by {
        steady::lemma_clean(w, v, paths, current);
    }
    assert(state::tidy_program(paths).upholds(w, inv, any()));
}

/// Recovering where a mount is under way brings it to its end; when that is interrupted in turn,
/// the mount is still under way or done.
pub proof fn law_recover_mounting(
    base: Disk,
    w: Disk,
    paths: StatePaths<Seq<u8>>,
    p: Seq<u8>,
    a: ActivationModel,
)
    requires
        local(base, w, paths, a),
        mounted::are_places(paths),
        mounting(w, paths, p, a),
    ensures
        state::recover_program(paths).upholds(w, entering(base, paths, p, a), in_place(paths, p, a)),
{
    let inv = entering(base, paths, p, a);
    let post = in_place(paths, p, a);
    let t = choose|t: Transaction<Seq<u8>>| #[trigger] journal_is(w, paths, t) && brings(t, p);
    let q = state::remove_preparing_program(paths).and_then(
        |u: ()| state::clean_program(paths, Some(p)),
    );
    assert forall|v: Disk| #[trigger] v.sound() implies q.upholds(
        v,
        steady(v, paths),
        sweeps(paths, Some(p)),
    ) by {
        lemma_leftovers(v, paths, Some(p));
    }
    lemma_forward(base, w, paths, p, a, q);
    quiet::lemma_read(p);
    quiet::lemma_quiet(state::read_program(p), w, inv);
    mounted::law_read(w, p, a);
    reason::lemma_upholds_both(
        state::read_program(p),
        w,
        inv,
        quiet::still(w),
        mounted::gives(w, a),
    );
    assert(state::finish_program(paths, p).upholds(w, inv, post));
    assert(state::resume_program(paths, t).upholds(w, inv, post));
}

/// Recovering where an unmount is under way brings it to its end; when that is interrupted in
/// turn, the unmount is still under way or done.
pub proof fn law_recover_leaving(
    base: Disk,
    w: Disk,
    paths: StatePaths<Seq<u8>>,
    p: Seq<u8>,
    a: ActivationModel,
)
    requires
        local(base, w, paths, a),
        mounted::are_places(paths),
        leaving(w, paths, p, a),
    ensures
        state::recover_program(paths).upholds(w, departing(base, paths, p, a), away(paths, p, a)),
{
    let inv = departing(base, paths, p, a);
    let post = away(paths, p, a);
    let q = state::remove_preparing_program(paths).and_then(
        |u: ()| state::clean_program(paths, None),
    );
    assert forall|v: Disk| #[trigger] v.sound() implies q.upholds(
        v,
        steady(v, paths),
        sweeps(paths, None),
    ) by {
        lemma_leftovers(v, paths, None);
    }
    lemma_backward(base, w, paths, p, a, q);
    quiet::lemma_read(p);
    quiet::lemma_quiet(state::read_program(p), w, inv);
    mounted::law_read(w, p, a);
    reason::lemma_upholds_both(
        state::read_program(p),
        w,
        inv,
        quiet::still(w),
        mounted::gives(w, a),
    );
    assert(state::leave_program(paths, p).upholds(w, inv, post));
}

} // verus!
