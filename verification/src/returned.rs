//! What unmounting gives back.
use vstd::prelude::*;

use crate::backed;
use crate::cycle;
use crate::disk;
use crate::disk::{Disk, Object, Spot};
use crate::error::Trouble;
use crate::interrupted;
use crate::managed;
use crate::managed::lies_in;
use crate::mounted;
use crate::path;
use crate::path::Component;
use crate::placed;
use crate::standing;
use crate::state;
use crate::state::{ActivationModel, StatePaths};
use crate::tree;
use crate::tree::{Forest, Node};
use crate::turned;

verus! {

broadcast use crate::reason::group_reason;

/// Whether two objects are the same; the targets of symbolic links may be written differently.
pub open spec fn same(a: Option<Object>, b: Option<Object>) -> bool {
    match (a, b) {
        (Some(Object::Symlink(x)), Some(Object::Symlink(y))) => path::equal(x, y),
        _ => a == b,
    }
}

/// Whether the same stands at a place and below it on two disks.
pub open spec fn all_same(w: Disk, v: Disk, c: Spot) -> bool {
    forall|rest: Spot| #![trigger v.get(c + rest)] same(w.get(c + rest), v.get(c + rest))
}

/// Whether a managed path is on `v` as it was on `w`.
///
/// Where nothing stood, nothing stands, but for directories that stay for what else they hold;
/// where a directory stood in which entries are managed, it stands with its permissions, and
/// this holds of its managed entries; anything else that stood is back.
pub open spec fn given_back(w: Disk, v: Disk, node: Node, p: Seq<u8>) -> bool
    decreases node, 1int,
{
    match (w.at(p), node) {
        (None, _) => turned::left(v, node, p),
        (Some(Object::Directory(_)), Node::Directory { tree, .. }) => v.at(p) == w.at(p)
            && tree_given_back(w, v, tree, p),
        _ => all_same(w, v, path::components(p)),
    }
}

/// Whether the managed paths below a root are on `v` as they were on `w`.
pub open spec fn tree_given_back(w: Disk, v: Disk, f: Forest, root: Seq<u8>) -> bool
    decreases f, 0int,
{
    f.len() == 0 || (given_back(w, v, f[0].1, path::join(root, f[0].0)) && tree_given_back(
        w,
        v,
        f.skip(1),
        root,
    ))
}

/// Where the same stands, managed paths are as they were.
proof fn lemma_same_back(w: Disk, v: Disk, node: Node, p: Seq<u8>)
    requires
        placed::proper(node),
        all_same(w, v, path::components(p)),
    ensures
        given_back(w, v, node, p),
    decreases node, 1int,
{
    let c = path::components(p);
    assert(c + Seq::<Component<Seq<u8>>>::empty() =~= c);
    assert(same(w.get(c), v.get(c)));
    match node {
        Node::Directory { tree, .. } => {
            lemma_tree_same_back(w, v, tree, p);
        },
        _ => {},
    }
}

proof fn lemma_tree_same_back(w: Disk, v: Disk, f: Forest, p: Seq<u8>)
    requires
        placed::tree_proper(f),
        all_same(w, v, path::components(p)),
    ensures
        tree_given_back(w, v, f, p),
    decreases f, 0int,
{
    if f.len() > 0 {
        let c = path::components(p);
        let name = f[0].0;
        let d = c.push(Component::Normal(name));
        path::lemma_entry(p, name);
        assert forall|rest: Spot| #![trigger v.get(d + rest)] same(
            w.get(d + rest),
            v.get(d + rest),
        ) by {
            let all = seq![Component::Normal(name)] + rest;
            assert(c + all =~= d + rest);
            assert(same(w.get(c + all), v.get(c + all)));
        }
        lemma_same_back(w, v, f[0].1, path::join(p, name));
        lemma_tree_same_back(w, v, f.skip(1), p);
    }
}

/// Below what is no directory there is nothing.
proof fn lemma_bare(w: Disk, c: Spot, rest: Spot)
    requires
        w.sound(),
        c.len() > 0,
        rest.len() > 0,
        !disk::is_directory(w.get(c)),
    ensures
        w.get(c + rest) is None,
{
    assert((c + rest).take(c.len() as int) =~= c);
    assert(disk::below(c, c + rest));
}

/// A backup that stands on two disks gives the same.
proof fn lemma_snapshot_same(w: Disk, u: Disk, v: Disk, to: Node, p: Seq<u8>, root: Spot)
    requires
        w.sound(),
        v.sound(),
        mounted::preserved(u, v),
        path::components(p).len() > 0,
        disk::below(root, path::components(p)),
        forall|j: Spot| #![trigger u.get(j)] disk::below(root, j) ==> u.get(j) == w.get(j),
        standing::stands(u, to, p),
        standing::stands(v, to, p),
        placed::sourced(u, to, root),
        backed::stored(to),
        !(to is Absent),
        !(to is Directory),
    ensures
        all_same(w, v, path::components(p)),
        w.at(p) is Some,
{
    let c = path::components(p);
    let none = Seq::<Component<Seq<u8>>>::empty();
    assert forall|rest: Spot| disk::below(root, #[trigger] (c + rest)) by {
        assert((c + rest).take(c.len() as int) =~= c);
        placed::lemma_below_trans(root, c, c + rest);
    }
    assert(c + none =~= c);
    match to {
        Node::Snapshot { source, modes } => {
            let s = path::components(source);
            assert(s + none =~= s);
            assert forall|rest: Spot| #![trigger v.get(c + rest)] same(
                w.get(c + rest),
                v.get(c + rest),
            ) by {
                assert(rest.take(0) =~= none);
                assert(disk::below(none, rest));
                assert((s + rest).take(s.len() as int) =~= s);
                assert(disk::below(s, s + rest));
                assert(v.get(s + rest) == u.get(s + rest));
                assert(disk::below(root, c + rest));
                assert(u.get(c + rest) == w.get(c + rest));
            }
        },
        Node::Copy { source, .. } => {
            let s = path::components(source);
            assert(s.take(s.len() as int) =~= s);
            assert(disk::below(s, s));
            assert(v.get(s) == u.get(s));
            lemma_alone_same(w, v, c);
        },
        _ => {
            lemma_alone_same(w, v, c);
        },
    }
}

/// The same object that is no directory is all that stands at a place and below it.
proof fn lemma_alone_same(w: Disk, v: Disk, c: Spot)
    requires
        w.sound(),
        v.sound(),
        c.len() > 0,
        same(w.get(c), v.get(c)),
        !disk::is_directory(w.get(c)),
    ensures
        all_same(w, v, c),
{
    assert forall|rest: Spot| #![trigger v.get(c + rest)] same(w.get(c + rest), v.get(c + rest)) by {
        if rest.len() == 0 {
            assert(c + rest =~= c);
        } else {
            lemma_bare(w, c, rest);
            lemma_bare(v, c, rest);
        }
    }
}

/// A path that was turned from `from` into what stood there before is given back.
proof fn lemma_back(w: Disk, u: Disk, v: Disk, from: Node, to: Node, p: Seq<u8>, root: Spot)
    requires
        w.sound(),
        v.sound(),
        mounted::preserved(u, v),
        path::components(p).len() > 0,
        disk::below(root, path::components(p)),
        forall|j: Spot| #![trigger u.get(j)] disk::below(root, j) ==> u.get(j) == w.get(j),
        standing::stands(u, to, p),
        placed::proper(from),
        placed::proper(to),
        placed::sourced(u, to, root),
        backed::stored(to),
        backed::matched(from, to),
        turned::reached(v, from, to, p),
    ensures
        given_back(w, v, from, p),
    decreases from, 1int,
{
    assert(u.at(p) == w.at(p));
    match (from, to) {
        (
            Node::Directory { tree: from_tree, .. },
            Node::Directory { tree: to_tree, .. },
        ) => {
            lemma_lookups(to_tree);
            lemma_tree_back(w, u, v, from_tree, to_tree, to_tree, p, root);
        },
        (_, Node::Absent) => {},
        _ => {
            lemma_snapshot_same(w, u, v, to, p, root);
            lemma_same_back(w, v, from, p);
        },
    }
}

pub proof fn lemma_tree_back(
    w: Disk,
    u: Disk,
    v: Disk,
    f: Forest,
    to: Forest,
    h: Forest,
    p: Seq<u8>,
    root: Spot,
)
    requires
        w.sound(),
        v.sound(),
        mounted::preserved(u, v),
        disk::below(root, path::components(p)),
        forall|j: Spot| #![trigger u.get(j)] disk::below(root, j) ==> u.get(j) == w.get(j),
        standing::tree_stands(u, h, p),
        placed::tree_proper(f),
        placed::tree_proper(h),
        placed::tree_sourced(u, h, root),
        backed::tree_stored(h),
        backed::tree_matched(f, h),
        forall|i: int| 0 <= i < h.len() ==> tree::lookup(to, (#[trigger] h[i]).0) == Some(h[i].1),
        standing::tree_stands(v, h, p) || turned::tree_reached(v, f, to, p),
    ensures
        tree_given_back(w, v, f, p),
    decreases f, 0int,
{
    if f.len() > 0 {
        let name = f[0].0;
        let c = path::components(p);
        path::lemma_entry(p, name);
        placed::lemma_below_push(c, Component::Normal(name));
        placed::lemma_below_trans(root, c, c.push(Component::Normal(name)));
        assert(tree::lookup(to, h[0].0) == Some(h[0].1));
        lemma_back(w, u, v, f[0].1, h[0].1, path::join(p, name), root);
        let later = h.skip(1);
        assert forall|i: int| 0 <= i < later.len() implies tree::lookup(to, (#[trigger] later[i]).0)
            == Some(later[i].1) by {
            assert(later[i] == h[i + 1]);
        }
        lemma_tree_back(w, u, v, f.skip(1), to, later, p, root);
    }
}

/// What is given back as it was captured is given back as it was before directories were made on the
/// way to `zone`: where such a directory is a managed one, it stays for what it holds.
proof fn lemma_paved_back(w: Disk, u: Disk, v: Disk, node: Node, p: Seq<u8>, root: Spot, zone: Spot)
    requires
        w.sound(),
        u.sound(),
        v.get(zone) is Some,
        path::components(p).len() > 0,
        disk::below(root, path::components(p)),
        backed::avoids(node, path::components(p), zone),
        placed::proper(node),
        forall|j: Spot|
            #![trigger u.get(j)]
            disk::below(root, j) && !lies_in(zone, j) ==> backed::abides(w, u, zone, j),
        given_back(u, v, node, p),
    ensures
        given_back(w, v, node, p),
    decreases node, 1int,
{
    let c = path::components(p);
    assert(c.take(c.len() as int) =~= c);
    assert(backed::abides(w, u, zone, c));
    match node {
        Node::Directory { tree, .. } => {
            if disk::is_directory(u.at(p)) {
                lemma_tree_paved_back(w, u, v, tree, p, root, zone);
                if w.at(p) is None {
                    lemma_none_left(w, v, tree, p);
                    assert(lies_in(c, zone));
                    assert(!managed::only_managed(v, tree, c));
                }
            } else if u.at(p) is Some {
                assert forall|rest: Spot| #![trigger v.get(c + rest)] same(
                    w.get(c + rest),
                    v.get(c + rest),
                ) by {
                    assert(same(u.get(c + rest), v.get(c + rest)));
                    if rest.len() == 0 {
                        assert(c + rest =~= c);
                    } else {
                        lemma_bare(w, c, rest);
                        lemma_bare(u, c, rest);
                    }
                }
            }
        },
        _ => {
            if u.at(p) is Some {
                assert forall|rest: Spot| #![trigger v.get(c + rest)] same(
                    w.get(c + rest),
                    v.get(c + rest),
                ) by {
                    let j = c + rest;
                    assert(j.take(c.len() as int) =~= c);
                    placed::lemma_below_trans(root, c, j);
                    if disk::below(zone, j) {
                        placed::lemma_below_both(zone, c, j);
                    }
                    if disk::below(j, zone) {
                        placed::lemma_below_trans(c, j, zone);
                    }
                    assert(u.get(j) == w.get(j));
                }
            }
        },
    }
}

pub proof fn lemma_tree_paved_back(
    w: Disk,
    u: Disk,
    v: Disk,
    f: Forest,
    p: Seq<u8>,
    root: Spot,
    zone: Spot,
)
    requires
        w.sound(),
        u.sound(),
        v.get(zone) is Some,
        disk::below(root, path::components(p)),
        backed::clear_of(f, path::components(p), zone),
        placed::tree_proper(f),
        forall|j: Spot|
            #![trigger u.get(j)]
            disk::below(root, j) && !lies_in(zone, j) ==> backed::abides(w, u, zone, j),
        tree_given_back(u, v, f, p),
    ensures
        tree_given_back(w, v, f, p),
    decreases f, 0int,
{
    if f.len() > 0 {
        let name = f[0].0;
        let c = path::components(p);
        path::lemma_entry(p, name);
        placed::lemma_below_push(c, Component::Normal(name));
        placed::lemma_below_trans(root, c, c.push(Component::Normal(name)));
        backed::lemma_avoids(f, c, zone);
        lemma_paved_back(w, u, v, f[0].1, path::join(p, name), root, zone);
        lemma_tree_paved_back(w, u, v, f.skip(1), p, root, zone);
    }
}

/// Where nothing stood, what is given back left.
pub proof fn lemma_none_left(w: Disk, v: Disk, f: Forest, p: Seq<u8>)
    requires
        w.sound(),
        path::components(p).len() > 0,
        w.at(p) is None,
        placed::tree_proper(f),
        tree_given_back(w, v, f, p),
    ensures
        turned::tree_left(v, f, p),
    decreases f.len(),
{
    if f.len() > 0 {
        let name = f[0].0;
        let c = path::components(p);
        path::lemma_entry(p, name);
        placed::lemma_below_push(c, Component::Normal(name));
        placed::lemma_void(w, c, c.push(Component::Normal(name)));
        assert(given_back(w, v, f[0].1, path::join(p, name)));
        assert(turned::left(v, f[0].1, path::join(p, name)));
        lemma_none_left(w, v, f.skip(1), p);
    }
}

/// In a tree of distinct names each name finds its entry.
pub proof fn lemma_lookups(f: Forest)
    requires
        placed::tree_proper(f),
    ensures
        forall|i: int| 0 <= i < f.len() ==> tree::lookup(f, (#[trigger] f[i]).0) == Some(f[i].1),
    decreases f.len(),
{
    if f.len() > 0 {
        let later = f.skip(1);
        lemma_lookups(later);
        assert forall|i: int| 0 <= i < f.len() implies tree::lookup(f, (#[trigger] f[i]).0) == Some(
            f[i].1,
        ) by {
            if i > 0 {
                assert(later[i - 1] == f[i]);
                tree::lemma_slot(later, f[i].0);
            }
        }
    }
}

/// That a disk is sound and, if the operation succeeded, the managed paths are as they were on
/// `w`, and nothing is written down as mounted.
pub open spec fn returns_to(w: Disk, paths: StatePaths<Seq<u8>>, root: Seq<u8>, f: Forest) -> spec_fn(
    Disk,
    Result<(), Trouble>,
) -> bool {
    |v: Disk, r: Result<(), Trouble>|
        v.sound() && (r is Ok ==> tree_given_back(w, v, f, root) && v.at(paths.current) is None)
}

/// Unmounting what was mounted, if it succeeds, gives back what stood there before the mount.
pub proof fn law_given_back(
    w: Disk,
    v: Disk,
    paths: StatePaths<Seq<u8>>,
    image: Seq<u8>,
    root: Seq<u8>,
    f: Forest,
)
    requires
        w.sound(),
        v.sound(),
        mounted::are_places(paths),
        backed::spread(f, path::components(root), path::components(paths.directory)),
        cycle::mounted_from(w, v, paths, root, f),
    ensures
        state::unmount_program(paths, image).meets(v, returns_to(w, paths, root, f)),
{
    let post = returns_to(w, paths, root, f);
    let c = path::components(root);
    let (p, a, u) = choose|p: Seq<u8>, a: ActivationModel, u: Disk|
        #![trigger mounted::installed(v, paths, p, a), backed::is_capture(u, f, a.baseline, root, path::components(root))]
        {
            &&& mounted::installed(v, paths, p, a)
            &&& a.root == root
            &&& a.projection == f
            &&& backed::is_capture(u, f, a.baseline, root, path::components(root))
            &&& backed::clear_of(
                a.baseline,
                path::components(root),
                path::components(paths.directory),
            )
            &&& u.sound()
            &&& mounted::preserved(u, v)
            &&& forall|j: Spot|
                #![trigger u.get(j)]
                disk::below(path::components(root), j) && !lies_in(
                    path::components(paths.directory),
                    j,
                ) ==> backed::abides(w, u, path::components(paths.directory), j)
        };
    cycle::law_unmount(v, paths, image, p, a);
    lemma_lookups(a.baseline);
    assert(c.take(c.len() as int) =~= c);
    assert forall|x: Disk, r: Result<(), Trouble>| #[trigger]
        cycle::unmounts(v, paths, a)(x, r) implies post(x, r) by {
        if r is Ok {
            mounted::lemma_preserved_trans(u, v, x);
            lemma_tree_back(u, u, x, f, a.baseline, a.baseline, root, c);
            lemma_tree_paved_back(w, u, x, f, root, c, path::components(paths.directory));
        }
    }
}

/// Mounting an image that is not mounted and unmounting it, if both succeed, gives back what
/// stood at its managed paths.
pub proof fn law_round_trip(
    w: Disk,
    paths: StatePaths<Seq<u8>>,
    image: Seq<u8>,
    root: Seq<u8>,
    f: Forest,
)
    requires
        w.sound(),
        mounted::are_places(paths),
        backed::spread(f, path::components(root), path::components(paths.directory)),
        cycle::mountable(w, root, f),
        w.at(paths.current) is None,
    ensures
        state::mount_program(paths, image, root, f).and_then(
            |u: ()| state::unmount_program(paths, image),
        ).meets(w, returns_to(w, paths, root, f)),
{
    let post = returns_to(w, paths, root, f);
    cycle::law_mount(w, paths, image, root, f);
    assert forall|v: Disk, r: Result<(), Trouble>| #[trigger]
        cycle::mounts(w, paths, root, f)(v, r) && r is Ok implies state::unmount_program(
        paths,
        image,
    ).meets(v, post) by {
        law_given_back(w, v, paths, image, root, f);
    }
}

/// An unmount that is done, even if it was interrupted and recovered, gave back what stood there
/// before the mount.
pub proof fn law_recovered_given_back(
    w: Disk,
    v: Disk,
    paths: StatePaths<Seq<u8>>,
    root: Seq<u8>,
    f: Forest,
)
    requires
        w.sound(),
        v.sound(),
        backed::spread(f, path::components(root), path::components(paths.directory)),
        cycle::mounted_from(w, v, paths, root, f),
        v.at(paths.journal) is None,
    ensures
        exists|p: Seq<u8>, a: ActivationModel|
            #![trigger mounted::installed(v, paths, p, a)]
            {
                &&& interrupted::quiescent(v, paths, Some((p, a)))
                &&& mounted::installed(v, paths, p, a)
                &&& a.root == root
                &&& a.projection == f
                &&& forall|x: Disk| #[trigger]
                    interrupted::unmount_done(v, paths, p, a)(x) ==> tree_given_back(w, x, f, root)
            },
{
    let c = path::components(root);
    let (p, a, u) = choose|p: Seq<u8>, a: ActivationModel, u: Disk|
        #![trigger mounted::installed(v, paths, p, a), backed::is_capture(u, f, a.baseline, root, path::components(root))]
        {
            &&& mounted::installed(v, paths, p, a)
            &&& a.root == root
            &&& a.projection == f
            &&& backed::is_capture(u, f, a.baseline, root, path::components(root))
            &&& backed::clear_of(
                a.baseline,
                path::components(root),
                path::components(paths.directory),
            )
            &&& u.sound()
            &&& mounted::preserved(u, v)
            &&& forall|j: Spot|
                #![trigger u.get(j)]
                disk::below(path::components(root), j) && !lies_in(
                    path::components(paths.directory),
                    j,
                ) ==> backed::abides(w, u, path::components(paths.directory), j)
        };
    lemma_lookups(a.baseline);
    assert(c.take(c.len() as int) =~= c);
    assert forall|x: Disk| #[trigger]
        interrupted::unmount_done(v, paths, p, a)(x) implies tree_given_back(w, x, f, root) by {
        mounted::lemma_preserved_trans(u, v, x);
        lemma_tree_back(u, u, x, f, a.baseline, a.baseline, root, c);
        lemma_tree_paved_back(w, u, x, f, root, c, path::components(paths.directory));
    }
    assert(interrupted::quiescent(v, paths, Some((p, a))));
}

} // verus!
