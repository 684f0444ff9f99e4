//! That a mount that was interrupted and done again is undone as a whole.
use vstd::prelude::*;

use crate::backed;
use crate::backed::abides;
use crate::cycle;
use crate::disk;
use crate::disk::{Disk, Spot};
use crate::error::Trouble;
use crate::guarded;
use crate::interrupted;
use crate::managed;
use crate::managed::{lies_in, owned, owns};
use crate::mounted;
use crate::path;
use crate::path::Component;
use crate::placed;
use crate::reason;
use crate::recovered;
use crate::returned;
use crate::returned::{all_same, given_back, same, tree_given_back};
use crate::spared;
use crate::state;
use crate::state::{ActivationModel, StatePaths};
use crate::steady::steady;
use crate::tree;
use crate::tree::{Forest, Node};
use crate::turned;

verus! {

/// Whether what stood below a root on `u`, and does not belong to what `f` manages there, stands on `x`,
/// but for what lies in `zone`.
pub open spec fn retains(u: Disk, x: Disk, f: Forest, root: Spot, zone: Spot) -> bool {
    forall|j: Spot|
        #![trigger x.get(j)]
        lies_in(root, j) && u.get(j) is Some && !owned(f, root, j) && !lies_in(zone, j) ==> x.get(j)
            is Some
}

/// Whether what does not belong to the entries of a directory does not belong to what `f` manages.
spec fn alone(f: Forest, root: Spot, inner: Forest, c: Spot) -> bool {
    forall|j: Spot|
        #![trigger owned(inner, c, j)]
        lies_in(c, j) && !owned(inner, c, j) ==> !owned(f, root, j)
}

/// What is given back of what is given back is given back.
proof fn lemma_again(
    w: Disk,
    u: Disk,
    x: Disk,
    f: Forest,
    root: Spot,
    zone: Spot,
    all: Forest,
    node: Node,
    name: Seq<u8>,
    p: Seq<u8>,
)
    requires
        w.sound(),
        x.get(zone) is Some,
        retains(u, x, f, root, zone),
        disk::below(root, path::components(p)),
        placed::tree_proper(all),
        tree::lookup(all, name) == Some(node),
        path::is_plain(name),
        alone(f, root, all, path::components(p)),
        backed::avoids(node, path::components(path::join(p, name)), zone),
        placed::proper(node),
        given_back(w, u, node, path::join(p, name)),
        given_back(u, x, node, path::join(p, name)),
    ensures
        given_back(w, x, node, path::join(p, name)),
    decreases node, 1int,
{
    let q = path::join(p, name);
    let (d, c) = (path::components(p), path::components(q));
    path::lemma_entry(p, name);
    placed::lemma_below_push(d, Component::Normal(name));
    placed::lemma_below_trans(root, d, c);
    match node {
        Node::Directory { tree, .. } => {
            lemma_alone(f, root, all, d, name, node, tree);
            returned::lemma_lookups(tree);
            if w.at(q) is None {
                if u.at(q) is Some {
                    lemma_left_back(w, u, tree, q);
                    lemma_tree_again(w, u, x, f, root, zone, tree, tree, q);
                    returned::lemma_none_left(w, x, tree, q);
                    lemma_still_other(u, x, f, root, zone, tree, node, q);
                }
            } else if disk::is_directory(w.at(q)) {
                lemma_tree_again(w, u, x, f, root, zone, tree, tree, q);
            } else {
                lemma_same_again(w, u, x, c);
            }
        },
        _ => {
            if w.at(q) is Some {
                lemma_same_again(w, u, x, c);
            }
        },
    }
}

/// The same as the same is the same.
proof fn lemma_same_again(w: Disk, u: Disk, x: Disk, c: Spot)
    requires
        all_same(w, u, c),
        w.get(c) is Some,
    ensures
        u.get(c) is Some,
        disk::is_directory(u.get(c)) == disk::is_directory(w.get(c)),
        all_same(u, x, c) ==> all_same(w, x, c),
{
    let none = Seq::<Component<Seq<u8>>>::empty();
    assert(c + none =~= c);
    assert(same(w.get(c + none), u.get(c + none)));
    if all_same(u, x, c) {
        assert forall|rest: Spot| #![trigger x.get(c + rest)] same(
            w.get(c + rest),
            x.get(c + rest),
        ) by {
            assert(same(w.get(c + rest), u.get(c + rest)));
            assert(same(u.get(c + rest), x.get(c + rest)));
        }
    }
}

/// Where nothing stood, what left was given back.
proof fn lemma_left_back(w: Disk, u: Disk, f: Forest, p: Seq<u8>)
    requires
        w.sound(),
        path::components(p).len() > 0,
        w.at(p) is None,
        placed::tree_proper(f),
        turned::tree_left(u, f, p),
    ensures
        tree_given_back(w, u, f, p),
    decreases f.len(),
{
    if f.len() > 0 {
        let name = f[0].0;
        let c = path::components(p);
        path::lemma_entry(p, name);
        placed::lemma_below_push(c, Component::Normal(name));
        placed::lemma_void(w, c, c.push(Component::Normal(name)));
        assert(turned::left(u, f[0].1, path::join(p, name)));
        assert(given_back(w, u, f[0].1, path::join(p, name)));
        lemma_left_back(w, u, f.skip(1), p);
    }
}

/// What does not belong to the entries of a managed directory does not belong to what is managed.
proof fn lemma_alone(
    f: Forest,
    root: Spot,
    all: Forest,
    d: Spot,
    name: Seq<u8>,
    node: Node,
    inner: Forest,
)
    requires
        placed::tree_proper(all),
        tree::lookup(all, name) == Some(node),
        node matches Node::Directory { tree, .. } && tree == inner,
        alone(f, root, all, d),
    ensures
        alone(f, root, inner, d.push(Component::Normal(name))),
{
    let c = d.push(Component::Normal(name));
    guarded::lemma_lies_in(d, Component::Normal(name));
    assert forall|j: Spot|
        #![trigger owned(inner, c, j)]
        lies_in(c, j) && !owned(inner, c, j) implies !owned(f, root, j) by {
        assert(lies_in(d, j));
        if owned(all, d, j) {
            managed::lemma_owned_entry(all, d, name, j);
            assert(owns(node, c, j));
        }
    }
}

/// A directory that stayed for something else stays for it again.
proof fn lemma_still_other(
    u: Disk,
    x: Disk,
    f: Forest,
    root: Spot,
    zone: Spot,
    inner: Forest,
    node: Node,
    q: Seq<u8>,
)
    requires
        x.get(zone) is Some,
        retains(u, x, f, root, zone),
        disk::below(root, path::components(q)),
        alone(f, root, inner, path::components(q)),
        node matches Node::Directory { tree, .. } && tree == inner,
        backed::avoids(node, path::components(q), zone),
        !managed::only_managed(u, inner, path::components(q)),
    ensures
        !managed::only_managed(x, inner, path::components(q)),
{
    let c = path::components(q);
    let j = choose|j: Spot|
        #![trigger u.get(j)]
        lies_in(c, j) && u.get(j) is Some && !owned(inner, c, j);
    if lies_in(zone, j) {
        placed::lemma_below_both(zone, c, j);
        assert(zone != c);
        assert(lies_in(c, zone));
        assert(x.get(zone) is Some);
    } else {
        placed::lemma_below_trans(root, c, j);
        assert(!owned(f, root, j));
        assert(lies_in(root, j)) by {
            assert(c.len() >= root.len());
            if j == root {
                assert(j.take(c.len() as int) == c);
                assert(c =~= root.take(c.len() as int));
                assert(c.take(root.len() as int) == root);
            }
        }
        assert(x.get(j) is Some);
    }
}

proof fn lemma_tree_again(
    w: Disk,
    u: Disk,
    x: Disk,
    f: Forest,
    root: Spot,
    zone: Spot,
    all: Forest,
    some: Forest,
    p: Seq<u8>,
)
    requires
        w.sound(),
        x.get(zone) is Some,
        retains(u, x, f, root, zone),
        disk::below(root, path::components(p)),
        placed::tree_proper(all),
        placed::tree_proper(some),
        forall|i: int|
            0 <= i < some.len() ==> tree::lookup(all, (#[trigger] some[i]).0) == Some(some[i].1),
        alone(f, root, all, path::components(p)),
        backed::clear_of(some, path::components(p), zone),
        tree_given_back(w, u, some, p),
        tree_given_back(u, x, some, p),
    ensures
        tree_given_back(w, x, some, p),
    decreases some, 0int,
{
    if some.len() > 0 {
        let later = some.skip(1);
        let (name, node) = (some[0].0, some[0].1);
        path::lemma_entry(p, name);
        backed::lemma_avoids(some, path::components(p), zone);
        assert(tree::lookup(all, some[0].0) == Some(some[0].1));
        lemma_again(w, u, x, f, root, zone, all, node, name, p);
        assert forall|i: int| 0 <= i < later.len() implies tree::lookup(
            all,
            (#[trigger] later[i]).0,
        ) == Some(later[i].1) by {
            assert(later[i] == some[i + 1]);
        }
        lemma_tree_again(w, u, x, f, root, zone, all, later, p);
    }
}

/// What was mounted in place of an activation of the same tree, and then unmounted, is as it was before
/// that activation.
proof fn lemma_undone(
    w0: Disk,
    u0: Disk,
    u: Disk,
    u1: Disk,
    v: Disk,
    x: Disk,
    paths: StatePaths<Seq<u8>>,
    root: Seq<u8>,
    f: Forest,
    p: Seq<u8>,
    a: ActivationModel,
    p1: Seq<u8>,
    a1: ActivationModel,
)
    requires
        w0.sound(),
        u.sound(),
        backed::spread(f, path::components(root), path::components(paths.directory)),
        recovered::entering(u0, paths, p, a)(u),
        recovered::resting(u, paths, p, a),
        interrupted::taken(w0, paths, None, root, f, u0, a),
        recovered::entering(u1, paths, p1, a1)(v),
        recovered::resting(v, paths, p1, a1),
        interrupted::taken(u, paths, Some((p, a)), root, f, u1, a1),
        interrupted::unmount_done(v, paths, p1, a1)(x),
    ensures
        tree_given_back(w0, x, f, root),
{
    let (c, zone) = (path::components(root), path::components(paths.directory));
    assert(c.take(c.len() as int) =~= c);
    assert(u1.get(zone) is Some) by {
        assert(u.get(zone) is Some);
        assert(abides(u, u1, zone, zone));
    }
    returned::lemma_lookups(a.baseline);
    returned::lemma_lookups(a1.baseline);
    returned::lemma_lookups(f);
    mounted::lemma_preserved_trans(u0, u, u1);
    returned::lemma_tree_back(u0, u0, u1, f, a.baseline, a.baseline, root, c);
    assert forall|j: Spot|
        #![trigger u0.get(j)]
        disk::below(c, j) && !lies_in(zone, j) implies abides(w0, u0, zone, j) by {
        placed::lemma_apart_below(disk::vault(), c, j);
    }
    returned::lemma_tree_paved_back(w0, u0, u1, f, root, c, zone);
    mounted::lemma_preserved_trans(u1, v, x);
    returned::lemma_tree_back(u1, u1, x, f, a1.baseline, a1.baseline, root, c);
    assert(retains(u1, x, f, c, zone)) by {
        assert forall|j: Spot|
            #![trigger x.get(j)]
            lies_in(c, j) && u1.get(j) is Some && !owned(f, c, j) && !lies_in(
                zone,
                j,
            ) implies x.get(j) is Some by {
            placed::lemma_apart_below(disk::vault(), c, j);
            assert(abides(u1, v, zone, j));
            assert(v.get(j) == u1.get(j));
            assert(abides(v, x, zone, j));
        }
    }
    assert(alone(f, c, f, c));
    lemma_tree_again(w0, u1, x, f, c, zone, f, f, root);
}

/// That, if the operation succeeded, nothing is mounted or under way, and the managed paths are as they
/// were on `w`.
pub open spec fn undoes(w: Disk, paths: StatePaths<Seq<u8>>, root: Seq<u8>, f: Forest) -> spec_fn(
    Disk,
    Result<(), Trouble>,
) -> bool {
    |x: Disk, r: Result<(), Trouble>|
        r is Ok ==> {
            &&& x.at(paths.current) is None
            &&& x.at(paths.journal) is None
            &&& tree_given_back(w, x, f, root)
        }
}

/// Unmounting after a mount in place of an activation of the same tree.
proof fn lemma_unmount_undoes(
    w0: Disk,
    u0: Disk,
    u: Disk,
    v: Disk,
    paths: StatePaths<Seq<u8>>,
    image: Seq<u8>,
    root: Seq<u8>,
    f: Forest,
    p: Seq<u8>,
    a: ActivationModel,
)
    requires
        w0.sound(),
        u.sound(),
        mounted::are_places(paths),
        backed::spread(f, path::components(root), path::components(paths.directory)),
        recovered::entering(u0, paths, p, a)(u),
        recovered::resting(u, paths, p, a),
        interrupted::taken(w0, paths, None, root, f, u0, a),
        interrupted::mount_done(u, paths, root, f, Some((p, a)))(v),
    ensures
        state::unmount_program(paths, image).meets(v, undoes(w0, paths, root, f)),
{
    let post = undoes(w0, paths, root, f);
    let q = state::unmount_program(paths, image);
    let (u1, p1, a1) = choose|u1: Disk, p1: Seq<u8>, a1: ActivationModel| #[trigger]
        recovered::entering(u1, paths, p1, a1)(v) && recovered::resting(v, paths, p1, a1)
            && interrupted::taken(u, paths, Some((p, a)), root, f, u1, a1);
    let safe = interrupted::unmount_safe(v, paths, p1, a1);
    let end = interrupted::unmount_end(v, paths, p1, a1);
    interrupted::law_unmount_interrupted(v, paths, image, p1, a1);
    reason::lemma_upholds_meets(q, v, safe, end);
    let both = |x: Disk, r: Result<(), Trouble>| safe(x) && end(x, r);
    assert forall|x: Disk, r: Result<(), Trouble>| #[trigger] both(x, r) implies post(x, r) by {
        if r is Ok {
            lemma_undone(w0, u0, u, u1, v, x, paths, root, f, p, a, p1, a1);
        }
    }
    reason::lemma_weaken(q, v, both, post);
}

/// Unmounting after a mount where nothing was mounted.
proof fn lemma_unmount_first(
    w0: Disk,
    v: Disk,
    paths: StatePaths<Seq<u8>>,
    image: Seq<u8>,
    root: Seq<u8>,
    f: Forest,
)
    requires
        w0.sound(),
        mounted::are_places(paths),
        backed::spread(f, path::components(root), path::components(paths.directory)),
        interrupted::mount_done(w0, paths, root, f, None)(v),
    ensures
        state::unmount_program(paths, image).meets(v, undoes(w0, paths, root, f)),
{
    let q = state::unmount_program(paths, image);
    let post = undoes(w0, paths, root, f);
    let (u, p, a) = choose|u: Disk, p: Seq<u8>, a: ActivationModel| #[trigger]
        recovered::entering(u, paths, p, a)(v) && recovered::resting(v, paths, p, a)
            && interrupted::taken(w0, paths, None, root, f, u, a);
    interrupted::law_mount_done(w0, v, paths, root, f);
    spared::law_unmount_returns(w0, v, paths, image, root, f);
    let all = spared::returns_all(w0, v, paths, root, f);
    assert forall|x: Disk, r: Result<(), Trouble>| #[trigger] all(x, r) implies post(x, r) by {}
    reason::lemma_weaken(q, v, all, post);
}

/// Mounting again after recovery, and unmounting.
proof fn lemma_mount_again(
    w0: Disk,
    u: Disk,
    paths: StatePaths<Seq<u8>>,
    image: Seq<u8>,
    root: Seq<u8>,
    f: Forest,
)
    requires
        mounted::are_places(paths),
        backed::spread(f, path::components(root), path::components(paths.directory)),
        interrupted::quiescent(w0, paths, None),
        cycle::mountable(w0, root, f),
        interrupted::mount_rest(w0, paths, root, f, None)(u),
    ensures
        state::mount_program(paths, image, root, f).and_then(
            |x: ()| state::unmount_program(paths, image),
        ).meets(u, undoes(w0, paths, root, f)),
{
    let mount = state::mount_program(paths, image, root, f);
    let unmount = state::unmount_program(paths, image);
    let post = undoes(w0, paths, root, f);
    let none = None::<(Seq<u8>, ActivationModel)>;
    if steady(w0, paths)(u) {
        let safe = interrupted::mount_safe(u, paths, root, f, none);
        let end = interrupted::mount_end(u, paths, root, f, none);
        let both = |v: Disk, r: Result<(), Trouble>| safe(v) && end(v, r);
        interrupted::lemma_based(w0, u, paths, root, f, none);
        interrupted::law_mount_interrupted(u, paths, image, root, f, none);
        reason::lemma_upholds_meets(mount, u, safe, end);
        assert forall|v: Disk, r: Result<(), Trouble>| #[trigger] both(v, r) implies (match r {
            Ok(x) => unmount.meets(v, post),
            Err(e) => post(v, Err(e)),
        }) by {
            if r is Ok {
                assert(interrupted::mount_done(w0, paths, root, f, none)(v));
                lemma_unmount_first(w0, v, paths, image, root, f);
            }
        }
        reason::lemma_and_then(mount, |x: ()| unmount, u, both, post);
    } else {
        let (u0, p, a) = choose|u0: Disk, p: Seq<u8>, a: ActivationModel| #[trigger]
            recovered::entering(u0, paths, p, a)(u) && recovered::resting(u, paths, p, a)
                && interrupted::taken(w0, paths, none, root, f, u0, a);
        let former = Some((p, a));
        let safe = interrupted::mount_safe(u, paths, root, f, former);
        let end = interrupted::mount_end(u, paths, root, f, former);
        let both = |v: Disk, r: Result<(), Trouble>| safe(v) && end(v, r);
        assert(recovered::entering(u0, paths, p, a)(u));
        mounted::lemma_preserved_trans(w0, u0, u);
        mounted::lemma_tree_sourced_preserved(w0, u, f, path::components(root));
        assert(cycle::mountable(u, root, f));
        interrupted::law_mount_interrupted(u, paths, image, root, f, former);
        reason::lemma_upholds_meets(mount, u, safe, end);
        assert forall|v: Disk, r: Result<(), Trouble>| #[trigger] both(v, r) implies (match r {
            Ok(x) => unmount.meets(v, post),
            Err(e) => post(v, Err(e)),
        }) by {
            if r is Ok {
                lemma_unmount_undoes(w0, u0, u, v, paths, image, root, f, p, a);
            }
        }
        reason::lemma_and_then(mount, |x: ()| unmount, u, both, post);
    }
}

/// Whenever a mount is interrupted: recovering, mounting again and unmounting, if all succeed, leaves the
/// managed paths as they were before the first mount.
pub proof fn law_resumed(
    w0: Disk,
    w: Disk,
    paths: StatePaths<Seq<u8>>,
    image: Seq<u8>,
    root: Seq<u8>,
    f: Forest,
)
    requires
        mounted::are_places(paths),
        backed::spread(f, path::components(root), path::components(paths.directory)),
        interrupted::quiescent(w0, paths, None),
        cycle::mountable(w0, root, f),
        interrupted::mount_safe(w0, paths, root, f, None)(w),
    ensures
        state::recover_program(paths).and_then(
            |x: ()|
                state::mount_program(paths, image, root, f).and_then(
                    |x: ()| state::unmount_program(paths, image),
                ),
        ).meets(w, undoes(w0, paths, root, f)),
{
    let none = None::<(Seq<u8>, ActivationModel)>;
    let recover = state::recover_program(paths);
    let post = undoes(w0, paths, root, f);
    let safe = interrupted::mount_safe(w0, paths, root, f, none);
    let rest = |v: Disk, r: Result<(), Trouble>|
        r is Ok ==> interrupted::mount_rest(w0, paths, root, f, none)(v);
    let both = |v: Disk, r: Result<(), Trouble>| safe(v) && rest(v, r);
    let next = state::mount_program(paths, image, root, f).and_then(
        |x: ()| state::unmount_program(paths, image),
    );
    interrupted::law_mount_recovers(w0, w, paths, root, f, none);
    reason::lemma_upholds_meets(recover, w, safe, rest);
    assert forall|v: Disk, r: Result<(), Trouble>| #[trigger] both(v, r) implies (match r {
        Ok(x) => next.meets(v, post),
        Err(e) => post(v, Err(e)),
    }) by {
        if r is Ok {
            lemma_mount_again(w0, v, paths, image, root, f);
        }
    }
    reason::lemma_and_then(recover, |x: ()| next, w, both, post);
}

} // verus!
