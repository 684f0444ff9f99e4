//! That repairs and transitions leave on a disk what they should.
use vstd::prelude::*;

use crate::atomic;
use crate::disk;
use crate::disk::{Disk, Object, Spot};
use crate::entry;
use crate::error::Trouble;
use crate::host::Request;
use crate::managed;
use crate::path;
use crate::path::Component;
use crate::placed;
use crate::placing;
use crate::program::Program;
use crate::quiet;
use crate::session;
use crate::standing;
use crate::transition;
use crate::tree;
use crate::tree::{Forest, Node};

verus! {

broadcast use crate::reason::group_reason;

/// That a disk is sound and, if the operation succeeded, nothing stands at `p`, and nothing else
/// changed.
pub open spec fn cleared(w: Disk, p: Seq<u8>) -> spec_fn(Disk, Result<(), Trouble>) -> bool {
    |v: Disk, r: Result<(), Trouble>|
        v.sound() && (r is Ok ==> v.at(p) is None && w.same_but(path::components(p), v))
}

/// Removing leaves nothing.
pub proof fn lemma_remove(w: Disk, dir: Seq<u8>, name: Seq<u8>)
    requires
        w.sound(),
        path::is_plain(name),
    ensures
        placing::remove_program(path::join(dir, name)).meets(
            w,
            cleared(w, path::join(dir, name)),
        ),
{
    let p = path::join(dir, name);
    let c = path::components(p);
    path::lemma_parent(dir, name);
    assert(c.take(c.len() as int) =~= c);
}

/// That a disk is sound and, if the operation succeeded, a directory stands at `p`, and nothing
/// changed but what stood there.
pub open spec fn opened(w: Disk, p: Seq<u8>) -> spec_fn(Disk, Result<(), Trouble>) -> bool {
    |v: Disk, r: Result<(), Trouble>|
        v.sound() && (r is Ok ==> disk::is_directory(v.at(p)) && w.same_but(
            path::components(p),
            v,
        ))
}

/// Making a directory writable changes its permissions at most.
pub proof fn lemma_writable(w: Disk, p: Seq<u8>)
    requires
        w.sound(),
        disk::is_directory(w.at(p)),
    ensures
        placing::writable_program(p).meets(
            w,
            |v: Disk, r: Result<(), Trouble>|
                v.sound() && (r is Ok ==> disk::is_directory(v.at(p)) && forall|j: Spot|
                    #![trigger v.get(j)]
                    j != path::components(p) ==> v.get(j) == w.get(j)),
        ),
{
}

/// Making a directory ready leaves one.
pub proof fn lemma_ready(w: Disk, dir: Seq<u8>, name: Seq<u8>)
    requires
        w.sound(),
        path::is_plain(name),
    ensures
        placing::ready_program(path::join(dir, name)).meets(w, opened(w, path::join(dir, name))),
{
    let p = path::join(dir, name);
    let c = path::components(p);
    path::lemma_parent(dir, name);
    assert(c.take(c.len() as int) =~= c);
    if disk::is_directory(w.at(p)) {
        lemma_writable(w, p);
    }
    lemma_remove(w, dir, name);
    assert forall|w1: Disk, r: Result<(), Trouble>| #[trigger]
        cleared(w, p)(w1, r) && r is Ok implies placing::create_program(p).meets(
        w1,
        opened(w, p),
    ) by {}
}

/// Nothing below `c` having been kept, and `c` lying below `root`, nothing changed outside `root`.
pub proof fn lemma_same_but_root(w: Disk, c: Spot, root: Spot, v: Disk)
    requires
        w.same_but(c, v),
        disk::below(root, c),
    ensures
        w.same_but(root, v),
{
    assert forall|j: Spot| #![trigger v.get(j)] !disk::below(root, j) implies v.get(j) == w.get(
        j,
    ) by {
        if disk::below(c, j) {
            placed::lemma_below_trans(root, c, j);
        }
    }
}

/// Putting an entry where nothing changed but what stood there before.
proof fn lemma_put_after(w: Disk, w1: Disk, node: Node, dir: Seq<u8>, name: Seq<u8>, root: Spot)
    requires
        w1.sound(),
        path::is_plain(name),
        disk::below(root, path::components(path::join(dir, name))),
        placed::proper(node),
        placed::sourced(w, node, root),
        !(node is Absent),
        w.same_but(path::components(path::join(dir, name)), w1),
    ensures
        placing::materialise_program(node, path::join(dir, name)).meets(
            w1,
            placed::made(w, node, path::join(dir, name)),
        ),
{
    let p = path::join(dir, name);
    let c = path::components(p);
    path::lemma_entry(dir, name);
    placed::lemma_below_push(path::components(dir), Component::Normal(name));
    lemma_same_but_root(w, c, root, w1);
    placed::lemma_sourced_frame(w, w1, node, root);
    placed::law_materialise(w1, node, dir, name, root);
    assert forall|v: Disk, r: Result<(), Trouble>| #[trigger]
        placed::made(w1, node, p)(v, r) implies placed::made(w, node, p)(v, r) by {
        if r is Ok {
            assert forall|j: Spot| #![trigger v.get(j)] !disk::below(c, j) implies v.get(j)
                == w.get(j) by {
                assert(w1.get(j) == w.get(j));
            }
        }
    }
}

/// What is repaired stands, and nothing else changed; nothing at all where it stood before.
pub proof fn law_repair(w: Disk, node: Node, dir: Seq<u8>, name: Seq<u8>, root: Spot)
    requires
        w.sound(),
        path::is_plain(name),
        disk::below(root, path::components(path::join(dir, name))),
        placed::proper(node),
        placed::sourced(w, node, root),
    ensures
        placing::repair_program(node, path::join(dir, name)).meets(
            w,
            placed::made(w, node, path::join(dir, name)),
        ),
        standing::stands(w, node, path::join(dir, name)) ==> placing::repair_program(
            node,
            path::join(dir, name),
        ).meets(w, quiet::still(w)),
    decreases node, 1int,
{
    let p = path::join(dir, name);
    let c = path::components(p);
    let post = placed::made(w, node, p);
    path::lemma_entry(dir, name);
    placed::lemma_below_push(path::components(dir), Component::Normal(name));
    standing::law_matches(w, node, p);
    match node {
        Node::Absent => {
            lemma_remove(w, dir, name);
        },
        Node::Directory { mode, tree } => {
            lemma_ready(w, dir, name);
            assert forall|w1: Disk, r: Result<(), Trouble>| #[trigger]
                opened(w, p)(w1, r) && r is Ok implies placing::tree_repair_program(
                tree,
                p,
            ).and_then(|u: ()| placing::seal_program(p, mode)).meets(w1, post) by {
                lemma_repair_sealed(w, w1, mode, tree, p, root);
            }
        },
        _ => {
            placed::lemma_below_push(c, Component::Root);
            lemma_put_after(w, w, node, dir, name, root);
            assert forall|w1: Disk| #[trigger] w.without(c, w1) && w1.sound() implies placing::materialise_program(
                node,
                p,
            ).meets(w1, post) by {
                lemma_put_after(w, w1, node, dir, name, root);
            }
        },
    }
}

/// A directory whose entries are repaired and that gets its permissions stands.
proof fn lemma_repair_sealed(w: Disk, w1: Disk, mode: u32, tree: Forest, p: Seq<u8>, root: Spot)
    requires
        w1.sound(),
        disk::below(root, path::components(p)),
        placed::is_mode(mode),
        placed::tree_proper(tree),
        placed::tree_sourced(w, tree, root),
        disk::is_directory(w1.at(p)),
        w.same_but(path::components(p), w1),
    ensures
        placing::tree_repair_program(tree, p).and_then(
            |u: ()| placing::seal_program(p, mode),
        ).meets(w1, placed::made(w, Node::Directory { mode, tree }, p)),
    decreases tree, 1int,
{
    let post = placed::made(w, Node::Directory { mode, tree }, p);
    lemma_same_but_root(w, path::components(p), root, w1);
    placed::lemma_tree_sourced_frame(w, w1, tree, root);
    law_tree_repair(w1, tree, p, root);
    assert forall|w2: Disk, r: Result<(), Trouble>| #[trigger]
        placed::tree_made(w1, tree, p)(w2, r) && r is Ok implies placing::seal_program(
        p,
        mode,
    ).meets(w2, post) by {
        placed::lemma_sealed(w, w1, w2, mode, tree, p, root);
    }
}

/// The entries that are repaired below a directory stand, and nothing else changed; nothing at all
/// where they stood before, as after a repair.
pub proof fn law_tree_repair(w: Disk, f: Forest, p: Seq<u8>, root: Spot)
    requires
        w.sound(),
        disk::below(root, path::components(p)),
        placed::tree_proper(f),
        placed::tree_sourced(w, f, root),
    ensures
        placing::tree_repair_program(f, p).meets(w, placed::tree_made(w, f, p)),
        standing::tree_stands(w, f, p) ==> placing::tree_repair_program(f, p).meets(
            w,
            quiet::still(w),
        ),
    decreases f, 0int,
{
    let c = path::components(p);
    if f.len() > 0 {
        let (name, node) = (f[0].0, f[0].1);
        let x = Component::Normal(name);
        path::lemma_entry(p, name);
        placed::lemma_below_push(c, x);
        placed::lemma_below_trans(root, c, c.push(x));
        law_repair(w, node, p, name, root);
        let later = f.skip(1);
        let post = placed::tree_made(w, f, p);
        law_tree_repair(w, later, p, root);
        assert forall|w1: Disk, r: Result<(), Trouble>| #[trigger]
            placed::made(w, node, path::join(p, name))(w1, r)
                && r is Ok implies placing::tree_repair_program(later, p).meets(w1, post) by {
            lemma_same_but_root(w, c.push(x), root, w1);
            placed::lemma_tree_sourced_frame(w, w1, later, root);
            placed::lemma_sourced_frame(w, w1, node, root);
            law_tree_repair(w1, later, p, root);
            assert forall|v: Disk, q: Result<(), Trouble>| #[trigger]
                placed::tree_made(w1, later, p)(v, q) implies post(v, q) by {
                if q is Ok {
                    placed::lemma_first_stays(w, w1, v, f, p, root);
                }
            }
        }
    }
}

/// Whether a managed entry left `p`; a directory stays only where it holds something else.
pub open spec fn left(w: Disk, node: Node, p: Seq<u8>) -> bool
    decreases node, 1int,
{
    w.at(p) is None || match node {
        Node::Directory { tree, .. } => disk::is_directory(w.at(p)) && tree_left(w, tree, p)
            && !managed::only_managed(w, tree, path::components(p)),
        _ => false,
    }
}

/// Whether the managed entries left the directory at `p`.
pub open spec fn tree_left(w: Disk, f: Forest, p: Seq<u8>) -> bool
    decreases f, 0int,
{
    f.len() == 0 || (left(w, f[0].1, path::join(p, f[0].0)) && tree_left(w, f.skip(1), p))
}

/// Whether `p` was turned from `from` into `to`: `to` stands, but for directories that stay for
/// what else they hold.
pub open spec fn reached(w: Disk, from: Node, to: Node, p: Seq<u8>) -> bool
    decreases from, 1int,
{
    standing::stands(w, to, p) || match (from, to) {
        (
            Node::Directory { tree: from_tree, .. },
            Node::Directory { mode, tree: to_tree },
        ) => w.at(p) == Some(Object::Directory(mode)) && tree_reached(w, from_tree, to_tree, p),
        (Node::Directory { .. }, Node::Absent) => left(w, from, p),
        _ => false,
    }
}

/// Whether the entries below `p` were turned.
pub open spec fn tree_reached(w: Disk, from: Forest, to: Forest, p: Seq<u8>) -> bool
    decreases from, 0int,
{
    from.len() == 0 || {
        &&& tree::lookup(to, from[0].0) matches Some(node) && reached(
            w,
            from[0].1,
            node,
            path::join(p, from[0].0),
        )
        &&& tree_reached(w, from.skip(1), to, p)
    }
}

/// Whether nothing is on `v` that was not on `w`.
pub open spec fn shrunk(w: Disk, v: Disk) -> bool {
    forall|j: Spot| #![trigger v.get(j)] v.get(j) is Some ==> w.get(j) is Some
}

/// That a disk is sound and, if the operation succeeded, a managed entry left `p`, nothing changed
/// outside, and nothing is new.
pub open spec fn gone(w: Disk, node: Node, p: Seq<u8>) -> spec_fn(Disk, Result<(), Trouble>) -> bool {
    |v: Disk, r: Result<(), Trouble>|
        v.sound() && (r is Ok ==> left(v, node, p) && w.same_but(path::components(p), v) && shrunk(
            w,
            v,
        ))
}

/// That a disk is sound and, if the operation succeeded, the managed entries left `p`, nothing
/// changed outside, and nothing is new.
pub open spec fn tree_gone(w: Disk, f: Forest, p: Seq<u8>) -> spec_fn(
    Disk,
    Result<(), Trouble>,
) -> bool {
    |v: Disk, r: Result<(), Trouble>|
        v.sound() && (r is Ok ==> tree_left(v, f, p) && placed::same_but_tree(
            w,
            f,
            path::components(p),
            v,
        ) && shrunk(w, v))
}

/// That a disk is sound and, if the operation succeeded, `p` was turned, and nothing changed
/// outside.
pub open spec fn turned(w: Disk, from: Node, to: Node, p: Seq<u8>) -> spec_fn(
    Disk,
    Result<(), Trouble>,
) -> bool {
    |v: Disk, r: Result<(), Trouble>|
        v.sound() && (r is Ok ==> reached(v, from, to, p) && w.same_but(path::components(p), v))
}

/// That a disk is sound and, if the operation succeeded, the entries below `p` were turned, and
/// nothing changed outside.
pub open spec fn tree_turned(w: Disk, from: Forest, to: Forest, p: Seq<u8>) -> spec_fn(
    Disk,
    Result<(), Trouble>,
) -> bool {
    |v: Disk, r: Result<(), Trouble>|
        v.sound() && (r is Ok ==> tree_reached(v, from, to, p) && placed::same_but_tree(
            w,
            from,
            path::components(p),
            v,
        ))
}

/// What left is still gone where nothing changed.
pub proof fn lemma_left_frame(w: Disk, v: Disk, node: Node, p: Seq<u8>)
    requires
        placed::proper(node),
        forall|j: Spot|
            #![trigger v.get(j)]
            disk::below(path::components(p), j) ==> v.get(j) == w.get(j),
    ensures
        left(v, node, p) == left(w, node, p),
    decreases node, 1int,
{
    let c = path::components(p);
    assert(c.take(c.len() as int) =~= c);
    assert(v.at(p) == w.at(p));
    match node {
        Node::Directory { tree, .. } => {
            assert forall|j: Spot| #![trigger v.get(j)] placed::touches(tree, c, j) implies v.get(j)
                == w.get(j) by {
                placed::lemma_touches_below(tree, c, j);
            }
            lemma_tree_left_frame(w, v, tree, p);
            lemma_managed_frame(w, v, tree, c);
        },
        _ => {},
    }
}

/// What a directory holds is managed as before where nothing changed.
proof fn lemma_managed_frame(w: Disk, v: Disk, f: Forest, c: Spot)
    requires
        forall|j: Spot| #![trigger v.get(j)] disk::below(c, j) ==> v.get(j) == w.get(j),
    ensures
        managed::only_managed(v, f, c) == managed::only_managed(w, f, c),
{
    if managed::only_managed(v, f, c) {
        assert forall|j: Spot|
            #![trigger w.get(j)]
            managed::lies_in(c, j) && w.get(j) is Some implies managed::owned(f, c, j) by {
            assert(v.get(j) == w.get(j));
        }
    }
    if managed::only_managed(w, f, c) {
        assert forall|j: Spot|
            #![trigger v.get(j)]
            managed::lies_in(c, j) && v.get(j) is Some implies managed::owned(f, c, j) by {
            assert(v.get(j) == w.get(j));
        }
    }
}

/// The entry that is found under a name left with the others.
proof fn lemma_left_entry(w: Disk, f: Forest, p: Seq<u8>, name: Seq<u8>)
    requires
        tree_left(w, f, p),
        tree::lookup(f, name) is Some,
    ensures
        left(w, tree::lookup(f, name)->Some_0, path::join(p, name)),
    decreases f.len(),
{
    if f[0].0 != name {
        let i = tree::slot(f.skip(1), name);
        tree::lemma_slot(f.skip(1), name);
        assert(tree::slot(f, name) == 1 + i);
        assert(f.skip(1)[i] == f[i + 1]);
        lemma_left_entry(w, f.skip(1), p, name);
    }
}

/// A directory that its managed entries left and that is not empty holds something else.
proof fn lemma_not_empty(w: Disk, f: Forest, p: Seq<u8>, name: Seq<u8>)
    requires
        w.sound(),
        placed::tree_proper(f),
        tree_left(w, f, p),
        disk::is_directory(w.at(p)),
        w.get(path::components(p).push(Component::Normal(name))) is Some,
    ensures
        !managed::only_managed(w, f, path::components(p)),
{
    let c = path::components(p);
    let k = c.push(Component::Normal(name));
    if managed::only_managed(w, f, c) {
        assert(c =~= Seq::empty() || c.len() > 0);
        assert(k.last() == Component::Normal(name));
        assert(path::is_plain(name));
        path::lemma_entry(p, name);
        placed::lemma_below_push(c, Component::Normal(name));
        assert(k.take(k.len() as int) =~= k);
        managed::lemma_owned_entry(f, c, name, k);
        lemma_left_entry(w, f, p, name);
        let tree = tree::lookup(f, name)->Some_0->Directory_tree;
        let j = choose|j: Spot|
            #![trigger w.get(j)]
            managed::lies_in(k, j) && w.get(j) is Some && !managed::owned(tree, k, j);
        placed::lemma_below_trans(c, k, j);
        managed::lemma_owned_entry(f, c, name, j);
    }
}

proof fn lemma_tree_left_frame(w: Disk, v: Disk, f: Forest, p: Seq<u8>)
    requires
        placed::tree_proper(f),
        forall|j: Spot|
            #![trigger v.get(j)]
            placed::touches(f, path::components(p), j) ==> v.get(j) == w.get(j),
    ensures
        tree_left(v, f, p) == tree_left(w, f, p),
    decreases f, 0int,
{
    if f.len() > 0 {
        path::lemma_entry(p, f[0].0);
        lemma_left_frame(w, v, f[0].1, path::join(p, f[0].0));
        lemma_tree_left_frame(w, v, f.skip(1), p);
    }
}

/// What was turned is still turned where nothing changed.
proof fn lemma_reached_frame(w: Disk, v: Disk, from: Node, to: Node, p: Seq<u8>, root: Spot)
    requires
        placed::proper(from),
        placed::proper(to),
        placed::sourced(w, to, root),
        w.same_but(root, v),
        forall|j: Spot|
            #![trigger v.get(j)]
            disk::below(path::components(p), j) ==> v.get(j) == w.get(j),
    ensures
        reached(v, from, to, p) == reached(w, from, to, p),
    decreases from, 1int,
{
    let c = path::components(p);
    assert(c.take(c.len() as int) =~= c);
    assert(v.at(p) == w.at(p));
    placed::lemma_stands_frame(w, v, to, p, root);
    lemma_left_frame(w, v, from, p);
    match (from, to) {
        (
            Node::Directory { tree: from_tree, .. },
            Node::Directory { mode, tree: to_tree },
        ) => {
            assert forall|j: Spot|
                #![trigger v.get(j)]
                placed::touches(from_tree, c, j) implies v.get(j) == w.get(j) by {
                placed::lemma_touches_below(from_tree, c, j);
            }
            lemma_tree_reached_frame(w, v, from_tree, to_tree, p, root);
        },
        _ => {},
    }
}

proof fn lemma_tree_reached_frame(w: Disk, v: Disk, from: Forest, to: Forest, p: Seq<u8>, root: Spot)
    requires
        placed::tree_proper(from),
        placed::tree_proper(to),
        placed::tree_sourced(w, to, root),
        w.same_but(root, v),
        forall|j: Spot|
            #![trigger v.get(j)]
            placed::touches(from, path::components(p), j) ==> v.get(j) == w.get(j),
    ensures
        tree_reached(v, from, to, p) == tree_reached(w, from, to, p),
    decreases from, 0int,
{
    if from.len() > 0 {
        path::lemma_entry(p, from[0].0);
        if tree::lookup(to, from[0].0) is Some {
            let node = tree::lookup(to, from[0].0)->Some_0;
            lemma_lookup(w, to, from[0].0, root);
            lemma_reached_frame(w, v, from[0].1, node, path::join(p, from[0].0), root);
        }
        lemma_tree_reached_frame(w, v, from.skip(1), to, p, root);
    }
}

/// What is found in a proper tree is proper, and what it is made from is there.
pub proof fn lemma_lookup(w: Disk, f: Forest, name: Seq<u8>, root: Spot)
    requires
        placed::tree_proper(f),
        placed::tree_sourced(w, f, root),
        tree::lookup(f, name) is Some,
    ensures
        placed::proper(tree::lookup(f, name)->Some_0),
        placed::sourced(w, tree::lookup(f, name)->Some_0, root),
    decreases f.len(),
{
    if f.len() > 0 && f[0].0 != name {
        let i = tree::slot(f.skip(1), name);
        tree::lemma_slot(f.skip(1), name);
        assert(tree::slot(f, name) == 1 + i);
        assert(f.skip(1)[i] == f[i + 1]);
        lemma_lookup(w, f.skip(1), name, root);
    }
}

/// A managed entry that is removed leaves.
proof fn lemma_remove_entry(w: Disk, node: Node, dir: Seq<u8>, name: Seq<u8>)
    requires
        w.sound(),
        path::is_plain(name),
        placed::proper(node),
    ensures
        transition::remove_entry_program(node, dir, path::join(dir, name)).meets(
            w,
            gone(w, node, path::join(dir, name)),
        ),
    decreases node, 2int,
{
    let p = path::join(dir, name);
    lemma_remove(w, dir, name);
    match node {
        Node::Directory { tree, .. } => {
            if disk::is_directory(w.at(p)) {
                lemma_withdrawn(w, tree, node, p, atomic::sync_program(dir));
            }
        },
        _ => {},
    }
}

/// A directory whose managed entries are removed, and that is removed if it is empty, leaves.
proof fn lemma_withdrawn(
    w: Disk,
    tree: Forest,
    node: Node,
    p: Seq<u8>,
    after: Program<Result<(), Trouble>>,
)
    requires
        w.sound(),
        placed::tree_proper(tree),
        node matches Node::Directory { tree: found, .. } && found == tree,
        disk::is_directory(w.at(p)),
        forall|v: Disk| v.sound() ==> #[trigger] after.meets(v, quiet::still(v)),
    ensures
        transition::remove_managed_program(tree, p).and_then(
            |u: ()| transition::remove_empty_program(p, after),
        ).meets(w, gone(w, node, p)),
    decreases tree, 2int,
{
    let c = path::components(p);
    let post = gone(w, node, p);
    assert(c.take(c.len() as int) =~= c);
    lemma_remove_managed(w, tree, p);
    assert forall|w1: Disk, r: Result<(), Trouble>| #[trigger]
        managed_gone(w, tree, p)(w1, r) && r is Ok implies transition::remove_empty_program(
        p,
        after,
    ).meets(w1, post) by {
        assert forall|v: Disk| #[trigger] w1.without(c, v) && v.sound() implies after.meets(v, post) by {
            assert(after.meets(v, quiet::still(v)));
        }
        assert forall|name: Seq<u8>| #[trigger]
            w1.get(c.push(Component::Normal(name))) is Some implies left(w1, node, p) by {
            lemma_not_empty(w1, tree, p, name);
        }
    }
}

/// That a disk is sound and, if the operation succeeded, a directory stands at `p` that the
/// managed entries left, and nothing changed outside.
pub open spec fn managed_gone(w: Disk, f: Forest, p: Seq<u8>) -> spec_fn(
    Disk,
    Result<(), Trouble>,
) -> bool {
    |v: Disk, r: Result<(), Trouble>|
        v.sound() && (r is Ok ==> disk::is_directory(v.at(p)) && tree_left(v, f, p) && w.same_but(
            path::components(p),
            v,
        ) && shrunk(w, v))
}

proof fn lemma_remove_managed(w: Disk, f: Forest, p: Seq<u8>)
    requires
        w.sound(),
        placed::tree_proper(f),
        disk::is_directory(w.at(p)),
    ensures
        transition::remove_managed_program(f, p).meets(w, managed_gone(w, f, p)),
    decreases f, 1int,
{
    let c = path::components(p);
    let post = managed_gone(w, f, p);
    assert(c.take(c.len() as int) =~= c);
    let mid = |v: Disk, r: Result<(), Trouble>|
        v.sound() && (r is Ok ==> disk::is_directory(v.at(p)) && forall|j: Spot|
            #![trigger v.get(j)]
            j != c ==> v.get(j) == w.get(j));
    assert(placing::writable_program(p).meets(w, mid)) by {
        lemma_writable(w, p);
    }
    assert forall|w1: Disk, r: Result<(), Trouble>| #[trigger]
        mid(w1, r) && r is Ok implies transition::remove_entries_program(f, p).meets(w1, post) by {
        lemma_remove_entries(w1, f, p);
        assert forall|v: Disk, q: Result<(), Trouble>| #[trigger]
            tree_gone(w1, f, p)(v, q) implies post(v, q) by {
            if q is Ok {
                if placed::touches(f, c, c) {
                    placed::lemma_touches_below(f, c, c);
                }
                assert(v.get(c) == w1.get(c));
                assert forall|j: Spot| #![trigger v.get(j)] !disk::below(c, j) implies v.get(j)
                    == w.get(j) by {
                    if placed::touches(f, c, j) {
                        placed::lemma_touches_below(f, c, j);
                    }
                    assert(w1.get(j) == w.get(j));
                }
            }
        }
    }
}

proof fn lemma_remove_entries(w: Disk, f: Forest, p: Seq<u8>)
    requires
        w.sound(),
        placed::tree_proper(f),
    ensures
        transition::remove_entries_program(f, p).meets(w, tree_gone(w, f, p)),
    decreases f, 0int,
{
    if f.len() > 0 {
        let (name, node) = (f[0].0, f[0].1);
        let later = f.skip(1);
        let post = tree_gone(w, f, p);
        path::lemma_entry(p, name);
        lemma_remove_entry(w, node, p, name);
        assert forall|w1: Disk, r: Result<(), Trouble>| #[trigger]
            gone(w, node, path::join(p, name))(w1, r)
                && r is Ok implies transition::remove_entries_program(later, p).meets(w1, post) by {
            lemma_remove_entries(w1, later, p);
            assert forall|v: Disk, q: Result<(), Trouble>| #[trigger]
                tree_gone(w1, later, p)(v, q) implies post(v, q) by {
                if q is Ok {
                    lemma_unaffected(w, w1, v, f, p);
                    lemma_left_frame(w1, v, node, path::join(p, name));
                }
            }
        }
    }
}

/// What happens to the later entries of a tree does not affect the first.
proof fn lemma_unaffected(w: Disk, w1: Disk, v: Disk, f: Forest, p: Seq<u8>)
    requires
        f.len() > 0,
        placed::tree_proper(f),
        w.same_but(path::components(path::join(p, f[0].0)), w1),
        placed::same_but_tree(w1, f.skip(1), path::components(p), v),
    ensures
        placed::same_but_tree(w, f, path::components(p), v),
        forall|j: Spot|
            #![trigger v.get(j)]
            disk::below(path::components(path::join(p, f[0].0)), j) ==> v.get(j) == w1.get(j),
{
    let c = path::components(p);
    let x = Component::Normal(f[0].0);
    let later = f.skip(1);
    path::lemma_entry(p, f[0].0);
    assert forall|j: Spot| #![trigger v.get(j)] disk::below(c.push(x), j) implies v.get(j)
        == w1.get(j) by {
        if placed::touches(later, c, j) {
            placed::lemma_touches_other(later, c, f[0].0, j);
            let i = choose|i: int| 0 <= i < later.len() && (#[trigger] later[i]).0 == f[0].0;
            assert(later[i] == f[i + 1]);
        }
    }
    assert forall|j: Spot| #![trigger v.get(j)] !placed::touches(f, c, j) implies v.get(j)
        == w.get(j) by {
        assert(!placed::touches(later, c, j));
        assert(w1.get(j) == w.get(j));
    }
}

/// Turning what is no managed directory into something else.
proof fn lemma_swap(w: Disk, from: Node, to: Node, dir: Seq<u8>, name: Seq<u8>, root: Spot)
    requires
        w.sound(),
        path::is_plain(name),
        disk::below(root, path::components(path::join(dir, name))),
        placed::proper(to),
        placed::sourced(w, to, root),
        !(to is Absent),
    ensures
        transition::swap_program(from, to, path::join(dir, name)).meets(
            w,
            placed::made(w, to, path::join(dir, name)),
        ),
{
    let p = path::join(dir, name);
    quiet::lemma_matches(from, p);
    quiet::lemma_still(entry::matches_program(from, p), w);
    lemma_remove(w, dir, name);
    assert forall|w1: Disk, r: Result<(), Trouble>| #[trigger]
        cleared(w, p)(w1, r) && r is Ok implies placing::materialise_program(to, p).meets(
        w1,
        placed::made(w, to, p),
    ) by {
        lemma_put_after(w, w1, to, dir, name, root);
    }
}

/// Removing a directory with all in it and putting something else leaves that.
proof fn lemma_emptied(w: Disk, to: Node, dir: Seq<u8>, name: Seq<u8>, root: Spot)
    requires
        w.sound(),
        path::is_plain(name),
        disk::below(root, path::components(path::join(dir, name))),
        placed::proper(to),
        placed::sourced(w, to, root),
        !(to is Absent),
    ensures
        session::act(Request::RemoveTree(path::join(dir, name))).and_then(
            |u: ()|
                atomic::sync_parent_program(path::join(dir, name)).and_then(
                    |u: ()| placing::materialise_program(to, path::join(dir, name)),
                ),
        ).meets(w, placed::made(w, to, path::join(dir, name))),
{
    let p = path::join(dir, name);
    let c = path::components(p);
    path::lemma_parent(dir, name);
    assert forall|w1: Disk| #[trigger] w.without(c, w1) && w1.sound() implies placing::materialise_program(
        to,
        p,
    ).meets(w1, placed::made(w, to, p)) by {
        lemma_put_after(w, w1, to, dir, name, root);
    }
}

proof fn lemma_dissolve(
    w: Disk,
    from: Node,
    tree: Forest,
    to: Node,
    dir: Seq<u8>,
    name: Seq<u8>,
    root: Spot,
)
    requires
        w.sound(),
        path::is_plain(name),
        disk::below(root, path::components(path::join(dir, name))),
        placed::proper(to),
        placed::sourced(w, to, root),
        !(to is Absent),
    ensures
        transition::dissolve_program(from, tree, to, path::join(dir, name)).meets(
            w,
            placed::made(w, to, path::join(dir, name)),
        ),
{
    let p = path::join(dir, name);
    let c = path::components(p);
    placed::lemma_below_push(c, Component::Root);
    path::lemma_parent(dir, name);
    quiet::lemma_unmanaged(tree, p);
    quiet::lemma_still(transition::unmanaged_program(tree, p), w);
    lemma_swap(w, from, to, dir, name, root);
    lemma_put_after(w, w, to, dir, name, root);
    lemma_emptied(w, to, dir, name, root);
}

proof fn lemma_found(
    w: Disk,
    from: Node,
    mode: u32,
    tree: Forest,
    dir: Seq<u8>,
    name: Seq<u8>,
    root: Spot,
)
    requires
        w.sound(),
        path::is_plain(name),
        disk::below(root, path::components(path::join(dir, name))),
        placed::proper(Node::Directory { mode, tree }),
        placed::sourced(w, Node::Directory { mode, tree }, root),
    ensures
        transition::found_program(from, mode, tree, path::join(dir, name)).meets(
            w,
            placed::made(w, Node::Directory { mode, tree }, path::join(dir, name)),
        ),
{
    let p = path::join(dir, name);
    let c = path::components(p);
    let to = Node::Directory { mode, tree };
    let post = placed::made(w, to, p);
    path::lemma_entry(dir, name);
    placed::lemma_below_push(c, Component::Root);
    placed::lemma_below_push(path::components(dir), Component::Normal(name));
    lemma_swap(w, from, to, dir, name, root);
    lemma_put_after(w, w, to, dir, name, root);
    if disk::is_directory(w.at(p)) {
        let mid = opened(w, p);
        assert(placing::writable_program(p).meets(w, mid)) by {
            lemma_writable(w, p);
        }
        assert forall|w1: Disk, r: Result<(), Trouble>| #[trigger]
            mid(w1, r) && r is Ok implies placing::tree_repair_program(tree, p).and_then(
            |u: ()| placing::seal_program(p, mode),
        ).meets(w1, post) by {
            lemma_repair_sealed(w, w1, mode, tree, p, root);
        }
    }
}

proof fn lemma_exchange(w: Disk, from: Node, to: Node, dir: Seq<u8>, name: Seq<u8>, root: Spot)
    requires
        w.sound(),
        path::is_plain(name),
        disk::below(root, path::components(path::join(dir, name))),
        placed::proper(to),
        placed::sourced(w, to, root),
        !(to is Absent),
    ensures
        transition::exchange_program(from, to, path::join(dir, name)).meets(
            w,
            placed::made(w, to, path::join(dir, name)),
        ),
{
    let p = path::join(dir, name);
    let c = path::components(p);
    let post = placed::made(w, to, p);
    placed::lemma_below_push(c, Component::Root);
    quiet::lemma_matches(from, p);
    quiet::lemma_still(entry::matches_program(from, p), w);
    lemma_put_after(w, w, to, dir, name, root);
    lemma_remove(w, dir, name);
    assert forall|w1: Disk, r: Result<(), Trouble>| #[trigger]
        cleared(w, p)(w1, r) && r is Ok implies placing::materialise_program(to, p).meets(
        w1,
        post,
    ) by {
        lemma_put_after(w, w1, to, dir, name, root);
    }
    assert(transition::unfolds_program(to).meets(w, quiet::still(w)));
}

/// A transition that succeeds reaches what it turns to, and changes nothing else; where that
/// stands already nothing changes at all.
pub proof fn law_transition(w: Disk, from: Node, to: Node, dir: Seq<u8>, name: Seq<u8>, root: Spot)
    requires
        w.sound(),
        path::is_plain(name),
        disk::below(root, path::components(path::join(dir, name))),
        placed::proper(from),
        placed::proper(to),
        placed::sourced(w, to, root),
    ensures
        transition::transition_program(from, to, path::join(dir, name)).meets(
            w,
            turned(w, from, to, path::join(dir, name)),
        ),
        standing::stands(w, to, path::join(dir, name)) ==> transition::transition_program(
            from,
            to,
            path::join(dir, name),
        ).meets(w, quiet::still(w)),
    decreases from, 1int,
{
    let p = path::join(dir, name);
    let c = path::components(p);
    let post = turned(w, from, to, p);
    path::lemma_entry(dir, name);
    placed::lemma_below_push(c, Component::Root);
    placed::lemma_below_push(path::components(dir), Component::Normal(name));
    standing::law_matches(w, to, p);
    match (from, to) {
        (
            Node::Directory { tree: from_tree, .. },
            Node::Directory { mode, tree: to_tree },
        ) => {
            if disk::is_directory(w.at(p)) {
                let mid = opened(w, p);
                assert(placing::writable_program(p).meets(w, mid)) by {
                    lemma_writable(w, p);
                }
                assert forall|w1: Disk, r: Result<(), Trouble>| #[trigger]
                    mid(w1, r) && r is Ok implies transition::tree_transition_program(
                    from_tree,
                    to_tree,
                    p,
                ).and_then(|u: ()| placing::seal_program(p, mode)).meets(w1, post) by {
                    lemma_turned_sealed(w, w1, from, to, p, root);
                }
            }
        },
        (Node::Directory { tree, .. }, Node::Absent) => {
            path::lemma_parent(dir, name);
            if disk::is_directory(w.at(p)) {
                lemma_withdrawn(w, tree, from, p, atomic::sync_parent_program(p));
            }
        },
        (Node::Directory { tree, .. }, _) => {
            lemma_dissolve(w, from, tree, to, dir, name, root);
        },
        (_, Node::Directory { mode, tree }) => {
            lemma_found(w, from, mode, tree, dir, name, root);
        },
        (_, Node::Absent) => {
            quiet::lemma_matches(from, p);
            quiet::lemma_still(entry::matches_program(from, p), w);
            lemma_remove(w, dir, name);
        },
        _ => {
            lemma_exchange(w, from, to, dir, name, root);
        },
    }
}

/// A directory whose entries are turned and that gets its permissions is turned.
proof fn lemma_turned_sealed(w: Disk, w1: Disk, from: Node, to: Node, p: Seq<u8>, root: Spot)
    requires
        w1.sound(),
        disk::below(root, path::components(p)),
        placed::proper(from),
        placed::proper(to),
        placed::sourced(w, to, root),
        from is Directory,
        to is Directory,
        disk::is_directory(w1.at(p)),
        w.same_but(path::components(p), w1),
    ensures
        transition::tree_transition_program(
            from->Directory_tree,
            to->Directory_tree,
            p,
        ).and_then(|u: ()| placing::seal_program(p, to->Directory_mode)).meets(
            w1,
            turned(w, from, to, p),
        ),
    decreases from->Directory_tree, 1int,
{
    let c = path::components(p);
    let (f, g, mode) = (from->Directory_tree, to->Directory_tree, to->Directory_mode);
    let post = turned(w, from, to, p);
    assert(c.take(c.len() as int) =~= c);
    lemma_same_but_root(w, c, root, w1);
    placed::lemma_tree_sourced_frame(w, w1, g, root);
    law_tree_transition(w1, f, g, p, root);
    assert forall|w2: Disk, r: Result<(), Trouble>| #[trigger]
        tree_turned(w1, f, g, p)(w2, r) && r is Ok implies placing::seal_program(p, mode).meets(
        w2,
        post,
    ) by {
        if placed::touches(f, c, c) {
            placed::lemma_touches_below(f, c, c);
        }
        assert(w2.get(c) == w1.get(c));
        placed::lemma_seal(w2, p, mode);
        assert(w1.same_but(root, w2)) by {
            assert forall|j: Spot| #![trigger w2.get(j)] !disk::below(root, j) implies w2.get(j)
                == w1.get(j) by {
                if placed::touches(f, c, j) {
                    placed::lemma_touches_below(f, c, j);
                    placed::lemma_below_trans(root, c, j);
                }
            }
        }
        placed::lemma_tree_sourced_frame(w1, w2, g, root);
        assert forall|v: Disk| #[trigger] w2.with(c, Object::Directory(mode), v) && v.sound() implies post(
            v,
            Ok(()),
        ) by {
            assert(w2.same_but(root, v));
            assert forall|j: Spot| #![trigger v.get(j)] placed::touches(f, c, j) implies v.get(j)
                == w2.get(j) by {
                placed::lemma_touches_below(f, c, j);
            }
            lemma_tree_reached_frame(w2, v, f, g, p, root);
            assert forall|j: Spot| #![trigger v.get(j)] !disk::below(c, j) implies v.get(j)
                == w.get(j) by {
                if placed::touches(f, c, j) {
                    placed::lemma_touches_below(f, c, j);
                }
                assert(w2.get(j) == w1.get(j));
                assert(w1.get(j) == w.get(j));
            }
        }
    }
}

/// A transition of a tree that succeeds reaches what it turns to, and changes nothing else.
pub proof fn law_tree_transition(w: Disk, from: Forest, to: Forest, p: Seq<u8>, root: Spot)
    requires
        w.sound(),
        disk::below(root, path::components(p)),
        placed::tree_proper(from),
        placed::tree_proper(to),
        placed::tree_sourced(w, to, root),
    ensures
        transition::tree_transition_program(from, to, p).meets(w, tree_turned(w, from, to, p)),
    decreases from, 0int,
{
    let c = path::components(p);
    if from.len() > 0 && tree::lookup(to, from[0].0) is Some {
        let (name, node) = (from[0].0, from[0].1);
        let target = tree::lookup(to, name)->Some_0;
        let x = Component::Normal(name);
        let later = from.skip(1);
        let post = tree_turned(w, from, to, p);
        path::lemma_entry(p, name);
        lemma_lookup(w, to, name, root);
        placed::lemma_below_push(c, x);
        placed::lemma_below_trans(root, c, c.push(x));
        law_transition(w, node, target, p, name, root);
        assert forall|w1: Disk, r: Result<(), Trouble>| #[trigger]
            turned(w, node, target, path::join(p, name))(w1, r)
                && r is Ok implies transition::tree_transition_program(later, to, p).meets(
            w1,
            post,
        ) by {
            lemma_same_but_root(w, c.push(x), root, w1);
            placed::lemma_tree_sourced_frame(w, w1, to, root);
            placed::lemma_sourced_frame(w, w1, target, root);
            law_tree_transition(w1, later, to, p, root);
            assert forall|v: Disk, q: Result<(), Trouble>| #[trigger]
                tree_turned(w1, later, to, p)(v, q) implies post(v, q) by {
                if q is Ok {
                    lemma_unaffected(w, w1, v, from, p);
                    assert(w1.same_but(root, v)) by {
                        assert forall|j: Spot|
                            #![trigger v.get(j)]
                            !disk::below(root, j) implies v.get(j) == w1.get(j) by {
                            if placed::touches(later, c, j) {
                                placed::lemma_touches_below(later, c, j);
                                placed::lemma_below_trans(root, c, j);
                            }
                        }
                    }
                    lemma_reached_frame(w1, v, node, target, path::join(p, name), root);
                }
            }
        }
    }
}

/// Whether directories that are turned into directories have the same names.
pub open spec fn agree(from: Node, to: Node) -> bool
    decreases from, 1int,
{
    match (from, to) {
        (
            Node::Directory { tree: from_tree, .. },
            Node::Directory { tree: to_tree, .. },
        ) => tree_agree(from_tree, to_tree),
        _ => true,
    }
}

/// Whether two trees have the same names, and so on in their directories.
pub open spec fn tree_agree(from: Forest, to: Forest) -> bool
    decreases from, 0int,
{
    &&& from.len() == to.len()
    &&& forall|i: int|
        0 <= i < from.len() ==> (#[trigger] from[i]).0 == to[i].0 && agree(from[i].1, to[i].1)
}

/// Whether no directory that is to leave holds anything that is not managed.
pub open spec fn frees(w: Disk, from: Node, to: Node, p: Seq<u8>) -> bool
    decreases from, 1int,
{
    match (from, to) {
        (
            Node::Directory { tree: from_tree, .. },
            Node::Directory { tree: to_tree, .. },
        ) => tree_frees(w, from_tree, to_tree, p),
        (Node::Directory { tree, .. }, Node::Absent) => managed::only_managed(
            w,
            tree,
            path::components(p),
        ),
        _ => true,
    }
}

/// Whether no directory below `p` that is to leave holds anything that is not managed.
pub open spec fn tree_frees(w: Disk, from: Forest, to: Forest, p: Seq<u8>) -> bool
    decreases from, 0int,
{
    forall|i: int|
        0 <= i < from.len() ==> frees(
            w,
            (#[trigger] from[i]).1,
            to[i].1,
            path::join(p, from[i].0),
        )
}

/// What is to leave holds what it held where nothing changed.
proof fn lemma_frees_frame(w: Disk, v: Disk, from: Node, to: Node, p: Seq<u8>)
    requires
        placed::proper(from),
        frees(w, from, to, p),
        forall|j: Spot|
            #![trigger v.get(j)]
            managed::lies_in(path::components(p), j) ==> v.get(j) == w.get(j),
    ensures
        frees(v, from, to, p),
    decreases from, 1int,
{
    let c = path::components(p);
    match (from, to) {
        (
            Node::Directory { tree: f, .. },
            Node::Directory { tree: g, .. },
        ) => {
            placed::lemma_plain_names(f);
            assert forall|i: int| 0 <= i < f.len() implies frees(
                v,
                (#[trigger] f[i]).1,
                g[i].1,
                path::join(p, f[i].0),
            ) by {
                path::lemma_entry(p, f[i].0);
                let x = Component::Normal(f[i].0);
                placed::lemma_below_push(c, x);
                assert forall|j: Spot|
                    #![trigger v.get(j)]
                    managed::lies_in(c.push(x), j) implies v.get(j) == w.get(j) by {
                    placed::lemma_below_trans(c, c.push(x), j);
                }
                lemma_frees_frame(w, v, f[i].1, g[i].1, path::join(p, f[i].0));
            }
        },
        (Node::Directory { tree, .. }, Node::Absent) => {
            assert forall|j: Spot|
                #![trigger v.get(j)]
                managed::lies_in(c, j) && v.get(j) is Some implies managed::owned(tree, c, j) by {
                assert(v.get(j) == w.get(j));
            }
        },
        _ => {},
    }
}

/// A transition leaves what it turns to, if it succeeds, where no directory that is to leave holds
/// anything that is not managed.
pub proof fn law_transition_stands(
    w: Disk,
    from: Node,
    to: Node,
    dir: Seq<u8>,
    name: Seq<u8>,
    root: Spot,
)
    requires
        w.sound(),
        path::is_plain(name),
        disk::below(root, path::components(path::join(dir, name))),
        placed::proper(from),
        placed::proper(to),
        placed::sourced(w, to, root),
        agree(from, to),
        frees(w, from, to, path::join(dir, name)),
    ensures
        transition::transition_program(from, to, path::join(dir, name)).meets(
            w,
            placed::made(w, to, path::join(dir, name)),
        ),
    decreases from, 1int,
{
    let p = path::join(dir, name);
    let c = path::components(p);
    let post = placed::made(w, to, p);
    path::lemma_entry(dir, name);
    placed::lemma_below_push(c, Component::Root);
    standing::law_matches(w, to, p);
    match (from, to) {
        (
            Node::Directory { tree: f, .. },
            Node::Directory { mode, tree: g },
        ) => {
            if disk::is_directory(w.at(p)) {
                let mid = |v: Disk, r: Result<(), Trouble>|
                    v.sound() && (r is Ok ==> disk::is_directory(v.at(p)) && forall|j: Spot|
                        #![trigger v.get(j)]
                        j != c ==> v.get(j) == w.get(j));
                assert(placing::writable_program(p).meets(w, mid)) by {
                    lemma_writable(w, p);
                }
                assert forall|w1: Disk, r: Result<(), Trouble>| #[trigger]
                    mid(w1, r) && r is Ok implies transition::tree_transition_program(
                    f,
                    g,
                    p,
                ).and_then(|u: ()| placing::seal_program(p, mode)).meets(w1, post) by {
                    lemma_frees_frame(w, w1, from, to, p);
                    lemma_stands_sealed(w, w1, from, to, p, root);
                }
            }
        },
        (Node::Directory { tree, .. }, Node::Absent) => {
            path::lemma_parent(dir, name);
            if disk::is_directory(w.at(p)) {
                lemma_withdrawn(w, tree, from, p, atomic::sync_parent_program(p));
                assert forall|v: Disk, r: Result<(), Trouble>| #[trigger]
                    gone(w, from, p)(v, r) implies post(v, r) by {
                    if r is Ok && v.at(p) is Some {
                        let j = choose|j: Spot|
                            #![trigger v.get(j)]
                            managed::lies_in(c, j) && v.get(j) is Some && !managed::owned(tree, c, j);
                        assert(w.get(j) is Some);
                    }
                }
            }
        },
        _ => {
            law_transition(w, from, to, dir, name, root);
            assert forall|v: Disk, r: Result<(), Trouble>| #[trigger]
                turned(w, from, to, p)(v, r) implies post(v, r) by {}
        },
    }
}

/// A directory whose entries are turned and that gets its permissions stands.
proof fn lemma_stands_sealed(w: Disk, w1: Disk, from: Node, to: Node, p: Seq<u8>, root: Spot)
    requires
        w1.sound(),
        disk::below(root, path::components(p)),
        placed::proper(from),
        placed::proper(to),
        placed::sourced(w, to, root),
        from is Directory,
        to is Directory,
        agree(from, to),
        frees(w1, from, to, p),
        disk::is_directory(w1.at(p)),
        w.same_but(path::components(p), w1),
    ensures
        transition::tree_transition_program(
            from->Directory_tree,
            to->Directory_tree,
            p,
        ).and_then(|u: ()| placing::seal_program(p, to->Directory_mode)).meets(
            w1,
            placed::made(w, to, p),
        ),
    decreases from->Directory_tree, 1int,
{
    let c = path::components(p);
    let (f, g, mode) = (from->Directory_tree, to->Directory_tree, to->Directory_mode);
    let post = placed::made(w, to, p);
    lemma_same_but_root(w, c, root, w1);
    placed::lemma_tree_sourced_frame(w, w1, g, root);
    law_tree_transition_stands(w1, f, g, p, root);
    assert forall|w2: Disk, r: Result<(), Trouble>| #[trigger]
        placed::tree_made(w1, g, p)(w2, r) && r is Ok implies placing::seal_program(p, mode).meets(
        w2,
        post,
    ) by {
        placed::lemma_sealed(w, w1, w2, mode, g, p, root);
    }
}

/// The entries of `to` under the names of `from`, in the order of `from`.
pub open spec fn picked(from: Forest, to: Forest) -> Forest {
    Seq::new(from.len(), |i: int| (from[i].0, tree::lookup(to, from[i].0)->Some_0))
}

/// A transition of a tree leaves what it turns to, if it succeeds, where the names are the same and
/// no directory that is to leave holds anything that is not managed.
pub proof fn law_tree_transition_stands(w: Disk, from: Forest, to: Forest, p: Seq<u8>, root: Spot)
    requires
        w.sound(),
        disk::below(root, path::components(p)),
        placed::tree_proper(from),
        placed::tree_proper(to),
        placed::tree_sourced(w, to, root),
        tree_agree(from, to),
        tree_frees(w, from, to, p),
    ensures
        transition::tree_transition_program(from, to, p).meets(w, placed::tree_made(w, to, p)),
    decreases from, 0int, from.len() + 1,
{
    lemma_distinct(to);
    assert forall|i: int| 0 <= i < from.len() implies tree::lookup(to, (#[trigger] from[i]).0)
        == Some(to[i].1) by {
        tree::lemma_slot_is(to, to[i].0, i);
    }
    assert(picked(from, to) =~= to);
    lemma_picked(w, from, to, p, root);
}

/// The names of a proper tree are different.
proof fn lemma_distinct(f: Forest)
    requires
        placed::tree_proper(f),
    ensures
        forall|i: int, j: int|
            #![trigger f[i], f[j]]
            0 <= i < j < f.len() ==> f[i].0 != f[j].0,
    decreases f.len(),
{
    if f.len() > 0 {
        let later = f.skip(1);
        lemma_distinct(later);
        assert forall|i: int, j: int|
            #![trigger f[i], f[j]]
            0 <= i < j < f.len() implies f[i].0 != f[j].0 by {
            if i > 0 {
                assert(later[i - 1] == f[i] && later[j - 1] == f[j]);
            }
        }
    }
}

proof fn lemma_picked(w: Disk, from: Forest, to: Forest, p: Seq<u8>, root: Spot)
    requires
        w.sound(),
        disk::below(root, path::components(p)),
        placed::tree_proper(from),
        placed::tree_proper(to),
        placed::tree_sourced(w, to, root),
        forall|i: int|
            #![trigger from[i]]
            0 <= i < from.len() ==> (tree::lookup(to, from[i].0) matches Some(node) && agree(
                from[i].1,
                node,
            ) && frees(w, from[i].1, node, path::join(p, from[i].0))),
    ensures
        transition::tree_transition_program(from, to, p).meets(
            w,
            placed::tree_made(w, picked(from, to), p),
        ),
    decreases from, 0int, from.len(),
{
    let c = path::components(p);
    let g = picked(from, to);
    if from.len() > 0 {
        let (name, node) = (from[0].0, from[0].1);
        let target = tree::lookup(to, name)->Some_0;
        let x = Component::Normal(name);
        let later = from.skip(1);
        let post = placed::tree_made(w, g, p);
        path::lemma_entry(p, name);
        lemma_lookup(w, to, name, root);
        placed::lemma_below_push(c, x);
        placed::lemma_below_trans(root, c, c.push(x));
        law_transition_stands(w, node, target, p, name, root);
        lemma_picked_proper(w, from, to, root);
        assert(g.skip(1) =~= picked(later, to));
        assert forall|w1: Disk, r: Result<(), Trouble>| #[trigger]
            placed::made(w, target, path::join(p, name))(w1, r)
                && r is Ok implies transition::tree_transition_program(later, to, p).meets(
            w1,
            post,
        ) by {
            lemma_same_but_root(w, c.push(x), root, w1);
            placed::lemma_tree_sourced_frame(w, w1, to, root);
            placed::lemma_sourced_frame(w, w1, target, root);
            placed::lemma_plain_names(from);
            assert forall|i: int|
                #![trigger later[i]]
                0 <= i < later.len() implies (tree::lookup(to, later[i].0) matches Some(other)
                && agree(later[i].1, other) && frees(
                w1,
                later[i].1,
                other,
                path::join(p, later[i].0),
            )) by {
                assert(later[i] == from[i + 1]);
                let y = Component::Normal(later[i].0);
                path::lemma_entry(p, later[i].0);
                assert forall|j: Spot|
                    #![trigger w1.get(j)]
                    managed::lies_in(c.push(y), j) implies w1.get(j) == w.get(j) by {
                    if disk::below(c.push(x), j) {
                        placed::lemma_siblings(c, x, y, j);
                    }
                }
                lemma_frees_frame(
                    w,
                    w1,
                    later[i].1,
                    tree::lookup(to, later[i].0)->Some_0,
                    path::join(p, later[i].0),
                );
            }
            lemma_picked(w1, later, to, p, root);
            assert forall|v: Disk, q: Result<(), Trouble>| #[trigger]
                placed::tree_made(w1, g.skip(1), p)(v, q) implies post(v, q) by {
                if q is Ok {
                    placed::lemma_first_stays(w, w1, v, g, p, root);
                }
            }
        }
    }
}

/// What is picked from a proper tree is proper.
proof fn lemma_picked_proper(w: Disk, from: Forest, to: Forest, root: Spot)
    requires
        placed::tree_proper(from),
        placed::tree_proper(to),
        placed::tree_sourced(w, to, root),
        forall|i: int|
            #![trigger from[i]]
            0 <= i < from.len() ==> tree::lookup(to, from[i].0) is Some,
    ensures
        placed::tree_proper(picked(from, to)),
    decreases from.len(),
{
    let g = picked(from, to);
    if from.len() > 0 {
        let later = from.skip(1);
        assert forall|i: int|
            #![trigger later[i]]
            0 <= i < later.len() implies tree::lookup(to, later[i].0) is Some by {
            assert(later[i] == from[i + 1]);
        }
        lemma_picked_proper(w, later, to, root);
        lemma_lookup(w, to, from[0].0, root);
        assert(g.skip(1) =~= picked(later, to));
        assert forall|i: int| 0 < i < g.len() implies (#[trigger] g[i]).0 != g[0].0 by {
            assert(g[i].0 == from[i].0);
        }
    }
}

} // verus!
