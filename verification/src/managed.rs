//! What belongs to what is managed, and that looking tells it.
use vstd::prelude::*;

use crate::disk;
use crate::disk::{Disk, Spot};
use crate::error::{Error, Trouble};
use crate::host;
use crate::path;
use crate::path::Component;
use crate::placed;
use crate::quiet;
use crate::transition;
use crate::tree;
use crate::tree::{Forest, Node};

verus! {

broadcast use crate::reason::group_reason;

/// Whether a place lies in the directory `d`.
pub open spec fn lies_in(d: Spot, j: Spot) -> bool {
    disk::below(d, j) && j != d
}

/// Whether `j` belongs to a managed entry at `c`: to a managed directory belong its own place and
/// what belongs to its entries, to any other entry its place and all below.
pub open spec fn owns(node: Node, c: Spot, j: Spot) -> bool
    decreases node, 1int,
{
    match node {
        Node::Directory { tree, .. } => j == c || owned(tree, c, j),
        _ => disk::below(c, j),
    }
}

/// Whether `j` belongs to what `f` manages in the directory at `c`.
pub open spec fn owned(f: Forest, c: Spot, j: Spot) -> bool
    decreases f, 0int,
{
    f.len() > 0 && (owns(f[0].1, c.push(Component::Normal(f[0].0)), j) || owned(f.skip(1), c, j))
}

/// What belongs to what is managed in a directory lies in it.
pub proof fn lemma_owned_within(f: Forest, c: Spot, j: Spot)
    requires
        owned(f, c, j),
    ensures
        lies_in(c, j),
    decreases f, 0int,
{
    let k = c.push(Component::Normal(f[0].0));
    if owns(f[0].1, k, j) {
        lemma_owns_within(f[0].1, k, j);
        placed::lemma_below_push(c, Component::Normal(f[0].0));
        placed::lemma_below_trans(c, k, j);
    } else {
        lemma_owned_within(f.skip(1), c, j);
    }
}

/// What belongs to a managed entry stands at its place or below.
pub proof fn lemma_owns_within(node: Node, c: Spot, j: Spot)
    requires
        owns(node, c, j),
    ensures
        disk::below(c, j),
    decreases node, 1int,
{
    assert(c.take(c.len() as int) =~= c);
    match node {
        Node::Directory { tree, .. } => {
            if j != c {
                lemma_owned_within(tree, c, j);
            }
        },
        _ => {},
    }
}

/// Where a place does not belong to a managed entry, and the entry does not lie below it, nothing
/// below that place belongs to the entry.
pub proof fn lemma_owns_above(node: Node, c: Spot, z: Spot, j: Spot)
    requires
        !disk::below(z, c),
        !owns(node, c, z),
        disk::below(z, j),
    ensures
        !owns(node, c, j),
    decreases node, 1int,
{
    if owns(node, c, j) {
        lemma_owns_within(node, c, j);
        placed::lemma_below_both(c, z, j);
        match node {
            Node::Directory { tree, .. } => {
                lemma_owned_above(tree, c, z, j);
            },
            _ => {},
        }
    }
}

/// Where a place does not belong to what is managed in a directory, and the directory does not lie
/// below it, nothing below that place belongs to what is managed.
pub proof fn lemma_owned_above(f: Forest, c: Spot, z: Spot, j: Spot)
    requires
        !disk::below(z, c),
        !owned(f, c, z),
        disk::below(z, j),
    ensures
        !owned(f, c, j),
    decreases f, 0int,
{
    if owned(f, c, j) {
        let x = Component::Normal(f[0].0);
        let k = c.push(x);
        if owns(f[0].1, k, j) {
            placed::lemma_below_push(c, x);
            placed::lemma_below_push(k, x);
            if disk::below(z, k) {
                placed::lemma_below_both(c, z, k);
                assert(z.len() == k.len());
                assert(z =~= k);
                assert(owns(f[0].1, k, k));
            }
            lemma_owns_above(f[0].1, k, z, j);
        } else {
            lemma_owned_above(f.skip(1), c, z, j);
        }
    }
}

/// What belongs to the entry that is found under a name belongs to the tree.
pub proof fn lemma_owned_lookup(f: Forest, c: Spot, name: Seq<u8>, j: Spot)
    requires
        tree::lookup(f, name) is Some,
        owns(tree::lookup(f, name)->Some_0, c.push(Component::Normal(name)), j),
    ensures
        owned(f, c, j),
    decreases f.len(),
{
    if f.len() > 0 && f[0].0 != name {
        let i = tree::slot(f.skip(1), name);
        tree::lemma_slot(f.skip(1), name);
        assert(tree::slot(f, name) == 1 + i);
        assert(f.skip(1)[i] == f[i + 1]);
        lemma_owned_lookup(f.skip(1), c, name, j);
    }
}

/// What stands at the entry `name` or below belongs to a tree only if it belongs to the entry that
/// is found under that name.
pub proof fn lemma_owned_entry(f: Forest, c: Spot, name: Seq<u8>, j: Spot)
    requires
        placed::tree_proper(f),
        disk::below(c.push(Component::Normal(name)), j),
        owned(f, c, j),
    ensures
        tree::lookup(f, name) matches Some(node) && owns(
            node,
            c.push(Component::Normal(name)),
            j,
        ),
    decreases f.len(),
{
    let k = c.push(Component::Normal(f[0].0));
    tree::lemma_slot(f, name);
    if f[0].0 != name {
        if owns(f[0].1, k, j) {
            lemma_owns_within(f[0].1, k, j);
            placed::lemma_siblings(c, Component::Normal(f[0].0), Component::Normal(name), j);
        }
        let i = tree::slot(f.skip(1), name);
        lemma_owned_entry(f.skip(1), c, name, j);
        assert(tree::slot(f, name) == 1 + i);
        assert(f.skip(1)[i] == f[i + 1]);
    } else if !owns(f[0].1, k, j) {
        lemma_owned_entry(f.skip(1), c, name, j);
        let i = tree::slot(f.skip(1), name);
        tree::lemma_slot(f.skip(1), name);
        assert(f.skip(1)[i] == f[i + 1]);
    }
}

/// Whether all that lies in the directory at `c` belongs to what `f` manages.
pub open spec fn only_managed(w: Disk, f: Forest, c: Spot) -> bool {
    forall|j: Spot| #![trigger w.get(j)] lies_in(c, j) && w.get(j) is Some ==> owned(f, c, j)
}

/// Whether all that stands at the named entries of the directory at `c`, and below, belongs to what
/// `f` manages.
pub open spec fn names_managed(w: Disk, f: Forest, c: Spot, names: Seq<Seq<u8>>) -> bool {
    forall|i: int, j: Spot|
        #![trigger names[i], w.get(j)]
        0 <= i < names.len() && disk::below(c.push(Component::Normal(names[i])), j) && w.get(
            j,
        ) is Some ==> owned(f, c, j)
}

/// Whether a failure tells that something is not managed.
pub open spec fn tells_unmanaged(e: Trouble) -> bool {
    e matches Error::Refused(refusal, _) && refusal is Unmanaged
}

/// That a look changed nothing, succeeded only if all was managed, and told of something that is
/// not managed only if there is something.
pub open spec fn tells_managed(w: Disk, all: bool, those: bool) -> spec_fn(
    Disk,
    Result<(), Trouble>,
) -> bool {
    |v: Disk, r: Result<(), Trouble>|
        v == w && match r {
            Ok(u) => those,
            Err(e) => tells_unmanaged(e) ==> !all,
        }
}

/// Looking whether a directory holds managed entries only changes nothing. It succeeds only if all
/// that lies in the directory is managed, and tells of something that is not only if there is
/// something.
pub proof fn law_unmanaged(w: Disk, f: Forest, p: Seq<u8>)
    requires
        w.sound(),
        placed::tree_proper(f),
        disk::is_directory(w.at(p)),
    ensures
        transition::unmanaged_program(f, p).meets(
            w,
            tells_managed(
                w,
                only_managed(w, f, path::components(p)),
                only_managed(w, f, path::components(p)),
            ),
        ),
    decreases f, 1int, 0int,
{
    let c = path::components(p);
    let all = only_managed(w, f, c);
    assert forall|names: Seq<Seq<u8>>| #[trigger]
        w.lists(c, names) && host::all_plain(names) implies transition::unmanaged_names_program(
        f,
        p,
        names,
    ).meets(w, tells_managed(w, all, all)) by {
        assert forall|i: int|
            #![trigger names[i]]
            0 <= i < names.len() implies w.get(c.push(Component::Normal(names[i]))) is Some by {
            assert(path::is_plain(names[i]));
            assert(names.contains(names[i]));
        }
        assert(c =~= Seq::empty() || c.len() > 0);
        lemma_unmanaged_names(w, f, p, names);
        if names_managed(w, f, c, names) {
            assert forall|j: Spot|
                #![trigger w.get(j)]
                lies_in(c, j) && w.get(j) is Some implies owned(f, c, j) by {
                lemma_listed(w, c, names, j);
            }
        }
    }
}

/// What lies in a directory stands at a listed entry or below.
proof fn lemma_listed(w: Disk, c: Spot, names: Seq<Seq<u8>>, j: Spot)
    requires
        w.sound(),
        w.lists(c, names),
        c.len() > 0,
        lies_in(c, j),
        w.get(j) is Some,
    ensures
        exists|i: int|
            #![trigger names[i]]
            0 <= i < names.len() && disk::below(c.push(Component::Normal(names[i])), j),
{
    assert(j.len() > c.len()) by {
        if j.len() == c.len() {
            assert(j.take(c.len() as int) =~= j);
        }
    }
    let x = j[c.len() as int];
    let k = c.push(x);
    assert(j.take(k.len() as int) =~= k);
    assert(disk::below(k, j));
    assert(j.take(j.len() as int) =~= j);
    assert(w.get(k) is Some);
    assert(k.last() == x);
    let name = x->Normal_0;
    assert(names.contains(name));
    let i = choose|i: int| 0 <= i < names.len() && names[i] == name;
    assert(names[i] == name);
}

proof fn lemma_unmanaged_names(w: Disk, f: Forest, p: Seq<u8>, names: Seq<Seq<u8>>)
    requires
        w.sound(),
        placed::tree_proper(f),
        disk::is_directory(w.at(p)),
        host::all_plain(names),
        forall|i: int|
            #![trigger names[i]]
            0 <= i < names.len() ==> w.get(
                path::components(p).push(Component::Normal(names[i])),
            ) is Some,
    ensures
        transition::unmanaged_names_program(f, p, names).meets(
            w,
            tells_managed(
                w,
                only_managed(w, f, path::components(p)),
                names_managed(w, f, path::components(p), names),
            ),
        ),
    decreases f, 0int, names.len(),
{
    let c = path::components(p);
    let all = only_managed(w, f, c);
    if names.len() > 0 {
        let name = names[0];
        let later = names.skip(1);
        let k = c.push(Component::Normal(name));
        let at = tree::slot(f, name);
        assert(k.take(k.len() as int) =~= k);
        tree::lemma_slot(f, name);
        path::lemma_entry(p, name);
        placed::lemma_below_push(c, Component::Normal(name));
        assert forall|i: int| 0 <= i < later.len() implies path::is_plain(#[trigger] later[i]) by {
            assert(later[i] == names[i + 1]);
        }
        assert forall|i: int|
            #![trigger later[i]]
            0 <= i < later.len() implies w.get(c.push(Component::Normal(later[i]))) is Some by {
            assert(later[i] == names[i + 1]);
        }
        lemma_unmanaged_names(w, f, p, later);
        if 0 <= at < f.len() {
            let node = f[at].1;
            lemma_entry_proper(f, at);
            let whole = forall|j: Spot|
                #![trigger w.get(j)]
                disk::below(k, j) && w.get(j) is Some ==> owns(node, k, j);
            if whole && names_managed(w, f, c, later) {
                assert forall|i: int, j: Spot|
                    #![trigger names[i], w.get(j)]
                    0 <= i < names.len() && disk::below(c.push(Component::Normal(names[i])), j)
                        && w.get(j) is Some implies owned(f, c, j) by {
                    if i == 0 {
                        lemma_owned_lookup(f, c, name, j);
                    } else {
                        assert(later[i - 1] == names[i]);
                    }
                }
            }
            if !whole && all {
                let j = choose|j: Spot|
                    #![trigger w.get(j)]
                    disk::below(k, j) && w.get(j) is Some && !owns(node, k, j);
                placed::lemma_below_trans(c, k, j);
                lemma_owned_entry(f, c, name, j);
            }
            match node {
                Node::Directory { tree, .. } => {
                    if disk::is_directory(w.get(k)) {
                        law_unmanaged(w, tree, path::join(p, name));
                        assert(whole == only_managed(w, tree, k));
                    } else {
                        assert(whole);
                    }
                },
                _ => {
                    assert(whole);
                },
            }
        } else {
            if owned(f, c, k) {
                lemma_owned_entry(f, c, name, k);
            }
            assert(!all);
        }
    }
}

/// Whether what had stood at `p` can be put back: where a managed directory stands in its place, all
/// in it is managed.
pub open spec fn gives_way(w: Disk, node: Node, former: Node, p: Seq<u8>) -> bool
    decreases node, 1int,
{
    match (node, former) {
        (
            Node::Directory { tree, .. },
            Node::Directory { tree: former_tree, .. },
        ) => tree_gives_way(w, tree, former_tree, p),
        (Node::Directory { tree, .. }, Node::Snapshot { .. }) => disk::is_directory(w.at(p))
            ==> only_managed(w, tree, path::components(p)),
        _ => true,
    }
}

/// Whether what had stood below `root` can be put back.
pub open spec fn tree_gives_way(w: Disk, f: Forest, former: Forest, root: Seq<u8>) -> bool
    decreases f, 0int,
{
    f.len() == 0 || {
        &&& tree::lookup(former, f[0].0) matches Some(node) && gives_way(
            w,
            f[0].1,
            node,
            path::join(root, f[0].0),
        )
        &&& tree_gives_way(w, f.skip(1), former, root)
    }
}

/// That a look changed nothing, and succeeded only if `truth` holds.
pub open spec fn assures(w: Disk, truth: bool) -> spec_fn(Disk, Result<(), Trouble>) -> bool {
    |v: Disk, r: Result<(), Trouble>| v == w && (r is Ok ==> truth)
}

/// Looking whether what had stood at a path can be put back changes nothing, and succeeds only if
/// nothing that is not managed is in the way.
pub proof fn law_restorable(w: Disk, node: Node, former: Node, p: Seq<u8>)
    requires
        w.sound(),
        placed::proper(node),
    ensures
        transition::restorable_program(node, former, p).meets(
            w,
            assures(w, gives_way(w, node, former, p)),
        ),
    decreases node, 1int,
{
    match (node, former) {
        (
            Node::Directory { tree, .. },
            Node::Directory { tree: former_tree, .. },
        ) => {
            law_tree_restorable(w, tree, former_tree, p);
        },
        (Node::Directory { tree, .. }, Node::Snapshot { .. }) => {
            quiet::lemma_unmanaged(tree, p);
            quiet::lemma_still(transition::unmanaged_program(tree, p), w);
            if disk::is_directory(w.at(p)) {
                law_unmanaged(w, tree, p);
            }
        },
        _ => {},
    }
}

/// Looking whether what had stood below a root can be put back changes nothing, and succeeds only if
/// nothing that is not managed is in the way.
pub proof fn law_tree_restorable(w: Disk, f: Forest, former: Forest, root: Seq<u8>)
    requires
        w.sound(),
        placed::tree_proper(f),
    ensures
        transition::tree_restorable_program(f, former, root).meets(
            w,
            assures(w, tree_gives_way(w, f, former, root)),
        ),
    decreases f, 0int,
{
    if f.len() > 0 && tree::lookup(former, f[0].0) is Some {
        let node = tree::lookup(former, f[0].0)->Some_0;
        law_restorable(w, f[0].1, node, path::join(root, f[0].0));
        law_tree_restorable(w, f.skip(1), former, root);
    }
}

/// The entries of a proper tree are proper.
proof fn lemma_entry_proper(f: Forest, i: int)
    requires
        placed::tree_proper(f),
        0 <= i < f.len(),
    ensures
        placed::proper(f[i].1),
    decreases f.len(),
{
    if i > 0 {
        assert(f.skip(1)[i - 1] == f[i]);
        lemma_entry_proper(f.skip(1), i - 1);
    }
}

} // verus!
