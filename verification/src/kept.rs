//! That what an activation needs is kept in the store.
use vstd::prelude::*;

use crate::atomic;
use crate::backed;
use crate::backup;
use crate::bytes;
use crate::cycle;
use crate::disk;
use crate::disk::{Disk, Object, Spot};
use crate::error::Trouble;
use crate::guarded;
use crate::host;
use crate::host::{Answer, Request};
use crate::interrupted;
use crate::managed;
use crate::managed::lies_in;
use crate::mounted;
use crate::path;
use crate::path::Component;
use crate::placed;
use crate::program;
use crate::program::Program;
use crate::quiet;
use crate::reason;
use crate::reason::World;
use crate::recovered;
use crate::rooted;
use crate::session;
use crate::state;
use crate::state::{ActivationModel, StatePaths, Transaction};
use crate::steady;
use crate::store;
use crate::swept;
use crate::tree;
use crate::tree::{Forest, Node};

verus! {

broadcast use crate::reason::group_reason;

/// Whether an entry is one of a tree, or of a directory in it, and so on below.
pub open spec fn has_node(f: Forest, node: Node) -> bool
    decreases f,
{
    exists|i: int|
        0 <= i < f.len() && ((#[trigger] f[i]).1 == node || (f[i].1 matches Node::Directory {
            tree,
            ..
        } && has_node(tree, node)))
}

/// Whether an entry needs what is at `s` in the store: a link, a copy or a backup what it is made from,
/// and a symbolic link its target, if that is there.
pub open spec fn needs(node: Node, s: Seq<u8>) -> bool {
    match node {
        Node::Link { source } => s == source,
        Node::Copy { source, .. } => s == source,
        Node::Snapshot { source, .. } => s == source,
        Node::Symlink { target } => s == target && disk::below(
            path::components(bytes::text("/nix/store"@)),
            path::components(target),
        ),
        _ => false,
    }
}

/// What an entry of a tree needs is among the paths that the tree refers to.
pub proof fn law_sources(f: Forest, node: Node, s: Seq<u8>)
    requires
        has_node(f, node),
        needs(node, s),
    ensures
        tree::sources(f).contains(s),
    decreases f,
{
    let i = choose|i: int|
        0 <= i < f.len() && ((#[trigger] f[i]).1 == node || (f[i].1 matches Node::Directory {
            tree,
            ..
        } && has_node(tree, node)));
    assert(tree::node_sources(f[i].1).contains(s)) by {
        if f[i].1 == node {
            assert(tree::node_sources(node) =~= seq![s]);
            assert(seq![s][0] == s);
        } else {
            match f[i].1 {
                Node::Directory { tree, .. } => {
                    law_sources(tree, node, s);
                },
                _ => {},
            }
        }
    }
    lemma_sources_of(f, i, s);
}

proof fn lemma_sources_of(f: Forest, i: int, s: Seq<u8>)
    requires
        0 <= i < f.len(),
        tree::node_sources(f[i].1).contains(s),
    ensures
        tree::sources(f).contains(s),
    decreases f.len(),
{
    let before = f.drop_last();
    let (a, b) = (tree::sources(before), tree::node_sources(f.last().1));
    assert(tree::sources(f) == a + b);
    if i == f.len() - 1 {
        let k = choose|k: int| 0 <= k < b.len() && b[k] == s;
        assert((a + b)[a.len() + k] == s);
    } else {
        assert(before[i] == f[i]);
        lemma_sources_of(before, i, s);
        let k = choose|k: int| 0 <= k < a.len() && a[k] == s;
        assert((a + b)[k] == s);
    }
}

/// Whether `o` is the object of the store that holds what is at `s`.
pub open spec fn is_object(o: Seq<u8>, s: Seq<u8>) -> bool {
    &&& disk::below(disk::vault(), path::components(o))
    &&& path::components(o).len() == disk::vault().len() + 1
    &&& disk::below(path::components(o), path::components(s))
}

/// The object that is found for a path is the one that holds it.
pub proof fn law_object(s: Seq<u8>)
    ensures
        store::object_of(s) matches Ok(o) ==> is_object(o, s),
{
    if store::object_of(s) is Ok {
        let list = path::components(s);
        let v = disk::vault();
        let depth = v.len() as int;
        let x = list[depth];
        path::lemma_components_plain(s);
        match x {
            Component::Normal(name) => {
                assert(path::is_plain(name));
                path::lemma_entry(tree::store(), name);
                placed::lemma_below_push(v, x);
                assert(list.take(depth + 1) =~= v.push(x));
            },
            _ => {},
        }
    }
}

/// The objects that are found for paths are those that hold them, one for each.
proof fn lemma_objects(list: Seq<Seq<u8>>, i: int)
    requires
        0 <= i < list.len(),
        store::objects_of(list) is Ok,
    ensures
        store::objects_of(list)->Ok_0.len() == list.len(),
        is_object(store::objects_of(list)->Ok_0[i], list[i]),
    decreases list.len(),
{
    let before = list.drop_last();
    law_object(list.last());
    assert(before.len() == 0 ==> store::objects_of(before)->Ok_0.len() == 0);
    if before.len() > 0 {
        lemma_objects(before, if i < before.len() { i } else { 0 });
        if i < before.len() {
            assert(before[i] == list[i]);
        }
    }
}

/// Different numbers are written differently.
pub proof fn law_decimal(a: nat, b: nat)
    requires
        bytes::decimal(a) == bytes::decimal(b),
    ensures
        a == b,
    decreases a,
{
    let (x, y) = (bytes::decimal(a), bytes::decimal(b));
    lemma_decimal_len(a);
    lemma_decimal_len(b);
    assert(x.last() == y.last());
    if a >= 10 && b >= 10 {
        assert(x.drop_last() =~= bytes::decimal(a / 10));
        assert(y.drop_last() =~= bytes::decimal(b / 10));
        law_decimal(a / 10, b / 10);
    }
}

proof fn lemma_decimal_len(n: nat)
    ensures
        bytes::decimal(n).len() > 0,
        n >= 10 ==> bytes::decimal(n).len() > 1,
        n < 10 ==> bytes::decimal(n).len() == 1,
    decreases n,
{
    if n >= 10 {
        lemma_decimal_len(n / 10);
    }
}

/// The root with this number in a directory.
pub open spec fn root_at(dir: Spot, n: nat) -> Spot {
    dir.push(Component::Normal(bytes::decimal(n)))
}

/// Roots with different numbers are different entries.
proof fn lemma_root_at(dir: Spot, a: nat, b: nat)
    ensures
        a != b ==> disk::apart(root_at(dir, a), root_at(dir, b)),
        disk::below(dir, root_at(dir, a)),
{
    let (x, y) = (root_at(dir, a), root_at(dir, b));
    placed::lemma_below_push(dir, Component::Normal(bytes::decimal(a)));
    assert(x.take(x.len() as int) =~= x);
    assert(y.take(y.len() as int) =~= y);
    if x == y {
        assert(x.last() == y.last());
        law_decimal(a, b);
    }
}

/// That a disk is sound and, if the operation succeeded, the roots in a directory, from a number on, keep
/// the objects, and nothing changed outside the directory, nor at roots with lower numbers.
pub open spec fn all_rooted(w: Disk, dir: Spot, objects: Seq<Seq<u8>>, number: nat) -> spec_fn(
    Disk,
    Result<(), Trouble>,
) -> bool {
    |v: Disk, r: Result<(), Trouble>|
        v.sound() && (r is Ok ==> {
            &&& w.same_but(dir, v)
            &&& forall|n: nat|
                #![trigger v.get(root_at(dir, n))]
                n < number ==> v.get(root_at(dir, n)) == w.get(root_at(dir, n))
            &&& forall|i: int|
                #![trigger objects[i]]
                0 <= i < objects.len() ==> v.get(root_at(dir, (number + i) as nat)) == Some(
                    Object::Symlink(objects[i]),
                )
        })
}

/// Making roots keep objects leaves a root for each.
pub proof fn law_keep_all(w: Disk, dir: Seq<u8>, objects: Seq<Seq<u8>>, number: nat)
    requires
        w.sound(),
    ensures
        store::keep_all_program(dir, objects, number).meets(
            w,
            all_rooted(w, path::components(dir), objects, number),
        ),
    decreases objects.len(),
{
    let d = path::components(dir);
    let post = all_rooted(w, d, objects, number);
    if objects.len() > 0 {
        let name = bytes::decimal(number);
        let root = path::join(dir, name);
        let c = root_at(d, number);
        let later = objects.skip(1);
        let words = store::keep_words(root, objects[0]);
        backed::lemma_decimal(number);
        path::lemma_entry(dir, name);
        assert(words.len() == 5 && words[2] == root && words[4] == objects[0]);
        lemma_root_at(d, number, number);
        assert(c.take(c.len() as int) =~= c);
        assert forall|w1: Disk| #[trigger] w.same_but(c, w1) && w1.sound() && w1.get(c) == Some(
            Object::Symlink(objects[0]),
        ) implies store::keep_all_program(dir, later, number + 1).meets(w1, post) by {
            law_keep_all(w1, dir, later, number + 1);
            assert forall|v: Disk, r: Result<(), Trouble>| #[trigger]
                all_rooted(w1, d, later, number + 1)(v, r) implies post(v, r) by {
                if r is Ok {
                    assert forall|j: Spot| #![trigger v.get(j)] !disk::below(d, j) implies v.get(j)
                        == w.get(j) by {
                        if disk::below(c, j) {
                            placed::lemma_below_trans(d, c, j);
                        }
                        assert(w1.get(j) == w.get(j));
                    }
                    assert forall|n: nat|
                        #![trigger v.get(root_at(d, n))]
                        n < number implies v.get(root_at(d, n)) == w.get(root_at(d, n)) by {
                        lemma_root_at(d, number, n);
                        assert(w1.get(root_at(d, n)) == w.get(root_at(d, n)));
                    }
                    assert forall|i: int|
                        #![trigger objects[i]]
                        0 <= i < objects.len() implies v.get(root_at(d, (number + i) as nat))
                        == Some(Object::Symlink(objects[i])) by {
                        if i > 0 {
                            assert(later[i - 1] == objects[i]);
                            assert((number + 1 + (i - 1)) as nat == (number + i) as nat);
                        } else {
                            assert(v.get(root_at(d, number)) == w1.get(root_at(d, number)));
                        }
                    }
                }
            }
        }
    }
}

/// Whether a root in a directory keeps the object that holds what is at `s`.
pub open spec fn kept_in(v: Disk, dir: Spot, s: Seq<u8>) -> bool {
    exists|n: nat, o: Seq<u8>|
        #![trigger v.get(root_at(dir, n)), is_object(o, s)]
        v.get(root_at(dir, n)) == Some(Object::Symlink(o)) && is_object(o, s)
}

/// Whether roots in a directory keep the record of an activation, and all that the entries of its trees
/// need.
pub open spec fn keeps_all(v: Disk, dir: Spot, p: Seq<u8>, a: ActivationModel) -> bool {
    &&& kept_in(v, dir, p)
    &&& forall|node: Node, s: Seq<u8>| #[trigger]
        needs(node, s) && (has_node(a.projection, node) || has_node(a.baseline, node)) ==> kept_in(
            v,
            dir,
            s,
        )
}

/// What is kept stays so while the roots do not change.
pub proof fn lemma_keeps_frame(w: Disk, v: Disk, dir: Spot, p: Seq<u8>, a: ActivationModel)
    requires
        keeps_all(w, dir, p, a),
        forall|j: Spot| #![trigger v.get(j)] disk::below(dir, j) ==> v.get(j) == w.get(j),
    ensures
        keeps_all(v, dir, p, a),
{
    assert forall|s: Seq<u8>| #[trigger] kept_in(w, dir, s) implies kept_in(v, dir, s) by {
        let (n, o) = choose|n: nat, o: Seq<u8>|
            #![trigger w.get(root_at(dir, n)), is_object(o, s)]
            w.get(root_at(dir, n)) == Some(Object::Symlink(o)) && is_object(o, s);
        lemma_root_at(dir, n, n);
        assert(v.get(root_at(dir, n)) == w.get(root_at(dir, n)));
    }
}

/// Making new roots for an activation leaves roots that keep all it needs, and changes nothing else.
pub proof fn law_root(
    w: Disk,
    paths: StatePaths<Seq<u8>>,
    p: Seq<u8>,
    a: ActivationModel,
    root: Seq<u8>,
)
    requires
        w.sound(),
    ensures
        state::root_program(paths, p, a, root).meets(
            w,
            |v: Disk, r: Result<(), Trouble>|
                v.sound() && (r is Ok ==> w.same_but(path::components(root), v) && keeps_all(
                    v,
                    path::components(root),
                    p,
                    a,
                )),
        ),
{
    let c = path::components(root);
    let all = state::references(p, a);
    let found = store::objects_of(all);
    let post = |v: Disk, r: Result<(), Trouble>|
        v.sound() && (r is Ok ==> w.same_but(c, v) && keeps_all(v, c, p, a));
    assert(c.take(c.len() as int) =~= c);
    if found is Ok {
        let objects = found->Ok_0;
        let list = store::ordered(objects);
        assert forall|m: u32, w1: Disk|
            #![trigger w.with(c, Object::Directory(m), w1)]
            w.with(c, Object::Directory(m), w1) && w1.sound() implies store::keep_all_program(
            root,
            list,
            0,
        ).meets(w1, post) by {
            law_keep_all(w1, root, list, 0);
            assert(w.same_but(c, w1));
            assert forall|v: Disk, r: Result<(), Trouble>| #[trigger]
                all_rooted(w1, c, list, 0)(v, r) implies post(v, r) by {
                if r is Ok {
                    assert forall|j: Spot| #![trigger v.get(j)] !disk::below(c, j) implies v.get(j)
                        == w.get(j) by {
                        assert(w1.get(j) == w.get(j));
                    }
                    lemma_keeps_all(v, c, p, a);
                }
            }
        }
    }
}

/// Roots for the objects that hold all an activation refers to keep all it needs.
proof fn lemma_keeps_all(v: Disk, dir: Spot, p: Seq<u8>, a: ActivationModel)
    requires
        store::objects_of(state::references(p, a)) is Ok,
        forall|i: int|
            #![trigger store::ordered(store::objects_of(state::references(p, a))->Ok_0)[i]]
            0 <= i < store::ordered(store::objects_of(state::references(p, a))->Ok_0).len()
                ==> v.get(root_at(dir, i as nat)) == Some(
                Object::Symlink(store::ordered(store::objects_of(state::references(p, a))->Ok_0)[i]),
            ),
    ensures
        keeps_all(v, dir, p, a),
{
    let all = state::references(p, a);
    let objects = store::objects_of(all)->Ok_0;
    let list = store::ordered(objects);
    assert forall|i: int| #![trigger all[i]] 0 <= i < all.len() implies kept_in(v, dir, all[i]) by {
        lemma_objects(all, i);
        rooted::lemma_ordered(objects, i);
        let k = choose|k: int| 0 <= k < list.len() && path::equal(#[trigger] list[k], objects[i]);
        assert(is_object(list[k], all[i]));
        assert(v.get(root_at(dir, k as nat)) == Some(Object::Symlink(list[k])));
    }
    assert(all[0] == p);
    let (x, y) = (tree::sources(a.projection), tree::sources(a.baseline));
    assert forall|node: Node, s: Seq<u8>| #[trigger]
        needs(node, s) && (has_node(a.projection, node) || has_node(
            a.baseline,
            node,
        )) implies kept_in(v, dir, s) by {
        if has_node(a.projection, node) {
            law_sources(a.projection, node, s);
            let k = choose|k: int| 0 <= k < x.len() && x[k] == s;
            assert(all[1 + k] == s);
        } else {
            law_sources(a.baseline, node, s);
            let k = choose|k: int| 0 <= k < y.len() && y[k] == s;
            assert(all[1 + x.len() + k] == s);
        }
    }
}

/// The place of the roots of the activation that is recorded at `p`.
pub open spec fn home(paths: StatePaths<Seq<u8>>, p: Seq<u8>) -> Spot {
    swept::root_place(paths, path::file_name(p)->Some_0)
}

/// Whether a path is that of an object of the store.
pub open spec fn is_entry(p: Seq<u8>) -> bool {
    disk::in_vault(path::components(p)) && path::components(p).len() == disk::vault().len() + 1
}

/// Whether an activation has a name, and the roots under that name keep all it needs, if they are new;
/// and are as they were on `w`, if there were some.
pub open spec fn is_kept(
    w: Disk,
    v: Disk,
    paths: StatePaths<Seq<u8>>,
    p: Seq<u8>,
    a: ActivationModel,
) -> bool {
    &&& is_entry(p)
    &&& path::file_name(p) is Some
    &&& keeps_all(v, home(paths, p), p, a) || (w.get(home(paths, p)) is Some && forall|j: Spot|
        #![trigger v.get(j)]
        disk::below(home(paths, p), j) ==> v.get(j) == w.get(j))
}

/// Whether nothing differs among the roots.
pub open spec fn same_roots(w: Disk, v: Disk, paths: StatePaths<Seq<u8>>) -> bool {
    forall|j: Spot|
        #![trigger v.get(j)]
        lies_in(path::components(paths.gc_roots), j) ==> v.get(j) == w.get(j)
}

/// The directory of the roots is apart from what else is kept for an image, and from the store.
proof fn lemma_roots_apart(paths: StatePaths<Seq<u8>>)
    requires
        mounted::are_places(paths),
        disk::apart(path::components(paths.directory), disk::vault()),
    ensures
        disk::apart(path::components(paths.gc_roots), path::components(paths.preparing)),
        disk::apart(path::components(paths.gc_roots), path::components(paths.journal)),
        disk::apart(path::components(paths.gc_roots), path::components(paths.current)),
        disk::apart(path::components(paths.gc_roots), disk::vault()),
        forall|n: Seq<u8>| #[trigger]
            disk::is_temporary(n) ==> disk::apart(
                path::components(paths.gc_roots),
                path::components(paths.directory).push(Component::Normal(n)),
            ),
{
    let d = path::components(paths.directory);
    let (a, b, x, y, z) = (
        bytes::text("current"@),
        bytes::text("transaction"@),
        bytes::text("preparing"@),
        bytes::text("gc-roots"@),
        bytes::text(".tmp"@),
    );
    let g = d.push(Component::Normal(y));
    mounted::lemma_state_names();
    mounted::lemma_places(paths);
    path::lemma_entry(paths.directory, a);
    path::lemma_entry(paths.directory, b);
    path::lemma_entry(paths.directory, x);
    path::lemma_entry(paths.directory, y);
    reveal_strlit("current");
    reveal_strlit("transaction");
    reveal_strlit("preparing");
    reveal_strlit("gc-roots");
    reveal_strlit(".tmp");
    vstd::utf8::is_ascii_chars_encode_utf8("current"@);
    vstd::utf8::is_ascii_chars_encode_utf8("transaction"@);
    vstd::utf8::is_ascii_chars_encode_utf8("preparing"@);
    vstd::utf8::is_ascii_chars_encode_utf8("gc-roots"@);
    vstd::utf8::is_ascii_chars_encode_utf8(".tmp"@);
    assert(a.len() == 7 && b.len() == 11 && x.len() == 9 && y.len() == 8 && z.len() == 4);
    assert(y[0] == 'g' as u8 && z[0] == '.' as u8);
    placed::lemma_apart_below(disk::vault(), d, g);
    assert forall|n: Seq<u8>| n != y implies #[trigger] disk::apart(
        g,
        d.push(Component::Normal(n)),
    ) by {
        let k = d.push(Component::Normal(n));
        assert(k.take(k.len() as int) =~= k);
        assert(g.take(g.len() as int) =~= g);
        if k == g {
            assert(k.last() == g.last());
        }
    }
    assert forall|n: Seq<u8>| #[trigger] disk::is_temporary(n) implies disk::apart(
        g,
        d.push(Component::Normal(n)),
    ) by {
        assert(n.take(4)[0] == n[0]);
    }
}

/// A change apart from the roots leaves them as they are.
proof fn lemma_same_roots(w: Disk, v: Disk, paths: StatePaths<Seq<u8>>, c: Spot)
    requires
        w.same_but(c, v),
        disk::apart(path::components(paths.gc_roots), c),
    ensures
        same_roots(w, v, paths),
{
    let g = path::components(paths.gc_roots);
    assert forall|j: Spot| #![trigger v.get(j)] disk::below(g, j) implies v.get(j) == w.get(j) by {
        if disk::below(c, j) {
            placed::lemma_below_both(g, c, j);
        }
    }
}

/// What grows in the directory of what is being prepared leaves the roots as they are.
proof fn lemma_grown_roots(w: Disk, v: Disk, paths: StatePaths<Seq<u8>>)
    requires
        mounted::are_places(paths),
        disk::apart(path::components(paths.directory), disk::vault()),
        backed::grown(w, v, path::components(paths.preparing)),
    ensures
        same_roots(w, v, paths),
{
    let g = path::components(paths.gc_roots);
    lemma_roots_apart(paths);
    assert forall|j: Spot| #![trigger v.get(j)] disk::below(g, j) implies v.get(j) == w.get(j) by {
        placed::lemma_apart_below(disk::vault(), g, j);
        placed::lemma_apart_below(path::components(paths.preparing), g, j);
    }
}

/// That a disk is sound and, if the operation succeeded, an activation was recorded and is kept.
pub open spec fn keeps_record(w: Disk, paths: StatePaths<Seq<u8>>, a: ActivationModel) -> spec_fn(
    Disk,
    Result<Seq<u8>, Trouble>,
) -> bool {
    |v: Disk, r: Result<Seq<u8>, Trouble>|
        v.sound() && (r matches Ok(p) ==> is_kept(w, v, paths, p, a))
}

/// The roots of an activation lie among the roots.
proof fn lemma_home(paths: StatePaths<Seq<u8>>, p: Seq<u8>)
    requires
        path::file_name(p) is Some,
    ensures
        disk::below(path::components(paths.gc_roots), home(paths, p)),
        forall|j: Spot| #[trigger]
            disk::below(home(paths, p), j) ==> lies_in(path::components(paths.gc_roots), j),
        lies_in(path::components(paths.gc_roots), home(paths, p)),
        state::gc_root_of(p, paths) matches Ok(root) && path::components(root) == home(paths, p),
{
    let name = path::file_name(p)->Some_0;
    mounted::lemma_file_name(p);
    path::lemma_entry(paths.gc_roots, name);
    placed::lemma_below_push(path::components(paths.gc_roots), Component::Normal(name));
    guarded::lemma_lies_in(path::components(paths.gc_roots), Component::Normal(name));
}

/// What is kept is kept, where the roots were the same before.
proof fn lemma_kept_since(
    w: Disk,
    u: Disk,
    v: Disk,
    paths: StatePaths<Seq<u8>>,
    p: Seq<u8>,
    a: ActivationModel,
)
    requires
        same_roots(w, u, paths),
        is_kept(u, v, paths, p, a),
    ensures
        is_kept(w, v, paths, p, a),
{
    let (g, h) = (path::components(paths.gc_roots), home(paths, p));
    lemma_home(paths, p);
    assert(u.get(h) == w.get(h));
    if !keeps_all(v, h, p, a) {
        assert forall|j: Spot| #![trigger v.get(j)] disk::below(h, j) implies v.get(j) == w.get(
            j,
        ) by {
            placed::lemma_below_trans(g, h, j);
            assert(u.get(j) == w.get(j));
        }
    }
}

/// What is kept stays kept while its roots do not change.
proof fn lemma_kept_until(
    w: Disk,
    u: Disk,
    v: Disk,
    paths: StatePaths<Seq<u8>>,
    p: Seq<u8>,
    a: ActivationModel,
)
    requires
        is_kept(w, u, paths, p, a),
        forall|j: Spot|
            #![trigger v.get(j)]
            disk::below(home(paths, p), j) ==> v.get(j) == u.get(j),
    ensures
        is_kept(w, v, paths, p, a),
{
    let h = home(paths, p);
    if keeps_all(u, h, p, a) {
        lemma_keeps_frame(u, v, h, p, a);
    } else {
        assert forall|j: Spot| #![trigger v.get(j)] disk::below(h, j) implies v.get(j) == w.get(
            j,
        ) by {
            assert(u.get(j) == w.get(j));
        }
    }
}

/// Adding the record of an activation to the store, and making roots for it, keeps all it needs.
#[verifier::rlimit(30)]
proof fn lemma_add_kept(
    w: Disk,
    w1: Disk,
    a: ActivationModel,
    paths: StatePaths<Seq<u8>>,
    temporary: Seq<u8>,
)
    requires
        w1.sound(),
        same_roots(w, w1, paths),
        mounted::are_places(paths),
        disk::apart(path::components(paths.directory), disk::vault()),
        disk::apart(path::components(temporary), path::components(paths.preparing)),
        disk::apart(path::components(temporary), disk::vault()),
    ensures
        store::add_program(
            temporary,
            bytes::text("text"@),
            bytes::text("tohru-activation"@),
            path::join(paths.preparing, bytes::text("activation"@)),
            u64::MAX as nat,
        ).and_then(
            |activation: Seq<u8>|
                match state::gc_root_of(activation, paths) {
                    Ok(root) => session::exists_at(root).and_then(
                        |there: bool|
                            if there {
                                program::give(activation)
                            } else {
                                state::root_program(paths, activation, a, root).and_then(
                                    |u: ()| program::give(activation),
                                )
                            },
                    ),
                    Err(e) => program::fail(e),
                },
        ).meets(w1, keeps_record(w, paths, a)),
{
    let k = path::components(temporary);
    let g = path::components(paths.preparing);
    let post = keeps_record(w, paths, a);
    let keeper = path::join(paths.preparing, bytes::text("activation"@));
    mounted::lemma_places(paths);
    mounted::lemma_state_names();
    placed::lemma_apart_below(disk::vault(), path::components(paths.directory), g);
    path::lemma_entry(paths.preparing, bytes::text("activation"@));
    placed::lemma_below_push(g, Component::Normal(bytes::text("activation"@)));
    backed::lemma_add(
        w1,
        temporary,
        bytes::text("text"@),
        bytes::text("tohru-activation"@),
        keeper,
        u64::MAX as nat,
        g,
    );
    assert forall|v: Disk, r: Result<Seq<u8>, Trouble>| #[trigger]
        backed::added(w1, k, g)(v, r) && r is Ok implies (match state::gc_root_of(r->Ok_0, paths) {
        Ok(root) => session::exists_at(root).and_then(
            |there: bool|
                if there {
                    program::give(r->Ok_0)
                } else {
                    state::root_program(paths, r->Ok_0, a, root).and_then(
                        |u: ()| program::give(r->Ok_0),
                    )
                },
        ),
        Err(e) => program::fail(e),
    }).meets(v, post) by {
        if state::gc_root_of(r->Ok_0, paths) is Ok {
            lemma_grown_roots(w1, v, paths);
            lemma_added_kept(w, v, a, paths, r->Ok_0);
        }
    }
}

/// Recording an activation by way of a temporary file keeps all it needs.
proof fn lemma_persist_body(
    w: Disk,
    a: ActivationModel,
    paths: StatePaths<Seq<u8>>,
    temporary: Seq<u8>,
)
    requires
        w.sound(),
        mounted::are_places(paths),
        disk::apart(path::components(paths.directory), disk::vault()),
        disk::apart(path::components(temporary), path::components(paths.preparing)),
        disk::apart(path::components(temporary), disk::vault()),
        disk::apart(path::components(paths.gc_roots), path::components(temporary)),
        disk::is_file(w.at(temporary)),
    ensures
        state::persist_body(a, paths, temporary).meets(w, keeps_record(w, paths, a)),
{
    let k = path::components(temporary);
    let post = keeps_record(w, paths, a);
    assert(k.take(k.len() as int) =~= k);
    assert forall|w1: Disk| #[trigger] w1.sound() && w.same_but(k, w1) implies store::add_program(
            temporary,
            bytes::text("text"@),
            bytes::text("tohru-activation"@),
            path::join(paths.preparing, bytes::text("activation"@)),
            u64::MAX as nat,
        ).and_then(
            |activation: Seq<u8>|
                match state::gc_root_of(activation, paths) {
                    Ok(root) => session::exists_at(root).and_then(
                        |there: bool|
                            if there {
                                program::give(activation)
                            } else {
                                state::root_program(paths, activation, a, root).and_then(
                                    |u: ()| program::give(activation),
                                )
                            },
                    ),
                    Err(e) => program::fail(e),
                },
        ).meets(w1, post) by {
        lemma_same_roots(w, w1, paths, k);
        lemma_add_kept(w, w1, a, paths, temporary);
    }
}

/// Making roots for what was recorded, unless there are some, keeps all it needs.
proof fn lemma_added_kept(
    w: Disk,
    v: Disk,
    a: ActivationModel,
    paths: StatePaths<Seq<u8>>,
    p: Seq<u8>,
)
    requires
        v.sound(),
        same_roots(w, v, paths),
        is_entry(p),
        state::gc_root_of(p, paths) is Ok,
    ensures
        session::exists_at(state::gc_root_of(p, paths)->Ok_0).and_then(
            |there: bool|
                if there {
                    program::give(p)
                } else {
                    state::root_program(
                        paths,
                        p,
                        a,
                        state::gc_root_of(p, paths)->Ok_0,
                    ).and_then(|u: ()| program::give(p))
                },
        ).meets(v, keeps_record(w, paths, a)),
{
    let root = state::gc_root_of(p, paths)->Ok_0;
    let h = home(paths, p);
    let post = keeps_record(w, paths, a);
    lemma_home(paths, p);
    law_root(v, paths, p, a, root);
    assert(v.get(h) == w.get(h)) by {
        lemma_home(paths, p);
    }
    assert forall|j: Spot| #![trigger v.get(j)] disk::below(h, j) implies v.get(j) == w.get(j) by {
        placed::lemma_below_trans(path::components(paths.gc_roots), h, j);
    }
    assert(v.get(h) is Some ==> post(v, Ok(p)));
    assert forall|u: Disk| u.sound() && #[trigger] keeps_all(u, h, p, a) implies post(u, Ok(p)) by {}
}

/// Recording an activation keeps all it needs.
pub proof fn law_persist_kept(w: Disk, a: ActivationModel, paths: StatePaths<Seq<u8>>)
    requires
        w.sound(),
        mounted::are_places(paths),
        disk::apart(path::components(paths.directory), disk::vault()),
    ensures
        state::persist_program(a, paths).meets(w, keeps_record(w, paths, a)),
{
    let d = path::components(paths.directory);
    let post = keeps_record(w, paths, a);
    mounted::lemma_places(paths);
    lemma_roots_apart(paths);
    assert forall|t: Seq<u8>, m: u32, w1: Disk| #[trigger]
        disk::creates(w, paths.directory, t, Object::File(Seq::empty(), m), w1)
            && w1.sound() implies atomic::cleaned(t, state::persist_body(a, paths, t)).meets(
        w1,
        post,
    ) by {
        let k = path::components(t);
        let n = choose|n: Seq<u8>| #[trigger]
            path::is_plain(n) && disk::is_temporary(n) && k == d.push(Component::Normal(n));
        steady::lemma_kept_harmless(paths);
        placed::lemma_below_push(d, Component::Normal(n));
        placed::lemma_apart_below(disk::vault(), d, k);
        assert(k.take(k.len() as int) =~= k);
        assert(disk::apart(k, path::components(paths.preparing))) by {
            lemma_temporary_apart(paths, n);
        }
        assert(w.same_but(k, w1));
        lemma_same_roots(w, w1, paths, k);
        lemma_persist_body(w1, a, paths, t);
        assert forall|v: Disk, r: Result<Seq<u8>, Trouble>, u: Disk|
            #![trigger keeps_record(w1, paths, a)(v, r), v.without(k, u)]
            keeps_record(w1, paths, a)(v, r) && v.without(k, u) && u.sound() implies post(u, r) by {
            if r is Ok {
                let p = r->Ok_0;
                assert(v.same_but(k, u));
                lemma_same_roots(v, u, paths, k);
                lemma_kept_since(w, w1, v, paths, p, a);
                lemma_home(paths, p);
                assert forall|j: Spot| #![trigger u.get(j)] disk::below(home(paths, p), j) implies u.get(
                    j,
                ) == v.get(j) by {
                    placed::lemma_below_trans(path::components(paths.gc_roots), home(paths, p), j);
                }
                lemma_kept_until(w, v, u, paths, p, a);
            }
        }
    }
}

/// A temporary object beside what is being prepared is apart from it.
proof fn lemma_temporary_apart(paths: StatePaths<Seq<u8>>, n: Seq<u8>)
    requires
        mounted::are_places(paths),
        disk::is_temporary(n),
    ensures
        disk::apart(
            path::components(paths.directory).push(Component::Normal(n)),
            path::components(paths.preparing),
        ),
{
    let d = path::components(paths.directory);
    let (x, z) = (bytes::text("preparing"@), bytes::text(".tmp"@));
    mounted::lemma_state_names();
    path::lemma_entry(paths.directory, x);
    reveal_strlit("preparing");
    reveal_strlit(".tmp");
    vstd::utf8::is_ascii_chars_encode_utf8("preparing"@);
    vstd::utf8::is_ascii_chars_encode_utf8(".tmp"@);
    assert(x[0] == 'p' as u8 && z[0] == '.' as u8);
    assert(n.take(4)[0] == n[0]);
    let (k, g) = (d.push(Component::Normal(n)), d.push(Component::Normal(x)));
    assert(k.take(k.len() as int) =~= k);
    assert(g.take(g.len() as int) =~= g);
    if k == g {
        assert(k.last() == g.last());
    }
}

/// That a disk is sound, and the roots of an activation did not change.
pub open spec fn spares_home<R>(w: Disk, paths: StatePaths<Seq<u8>>, p: Seq<u8>) -> spec_fn(Disk, R) -> bool {
    |v: Disk, r: R|
        v.sound() && forall|j: Spot|
            #![trigger v.get(j)]
            disk::below(home(paths, p), j) ==> v.get(j) == w.get(j)
}

proof fn lemma_clean_names(
    w: Disk,
    paths: StatePaths<Seq<u8>>,
    names: Seq<Seq<u8>>,
    p: Seq<u8>,
)
    requires
        w.sound(),
        host::all_plain(names),
        path::file_name(p) is Some,
    ensures
        state::clean_names_program(
            paths,
            names,
            Some(state::gc_root_of(p, paths)->Ok_0),
        ).meets(w, spares_home(w, paths, p)),
    decreases names.len(),
{
    let post = spares_home::<Result<(), Trouble>>(w, paths, p);
    let keep = state::gc_root_of(p, paths)->Ok_0;
    let h = home(paths, p);
    lemma_home(paths, p);
    if names.len() > 0 {
        let later = names.skip(1);
        let q = path::join(paths.gc_roots, names[0]);
        let c = path::components(q);
        assert(path::is_plain(names[0]));
        path::lemma_entry(paths.gc_roots, names[0]);
        assert forall|i: int| 0 <= i < later.len() implies path::is_plain(#[trigger] later[i]) by {
            assert(later[i] == names[i + 1]);
        }
        lemma_clean_names(w, paths, later, p);
        assert(c.take(c.len() as int) =~= c);
        assert(h.take(h.len() as int) =~= h);
        if !state::is_kept(q, Some(keep)) {
            assert(c != h);
            assert(disk::apart(c, h));
            assert forall|v: Disk| #[trigger] w.same_but(c, v) && v.sound() implies post(
                v,
                Err(crate::error::unexpected()),
            ) && state::clean_names_program(paths, later, Some(keep)).meets(v, post) by {
                assert forall|j: Spot| #![trigger v.get(j)] disk::below(h, j) implies v.get(j)
                    == w.get(j) by {
                    placed::lemma_apart_below(c, h, j);
                }
                lemma_clean_names(v, paths, later, p);
                assert forall|u: Disk, r: Result<(), Trouble>| #[trigger]
                    spares_home::<Result<(), Trouble>>(v, paths, p)(u, r) implies post(u, r) by {
                    assert forall|j: Spot| #![trigger u.get(j)] disk::below(h, j) implies u.get(j)
                        == w.get(j) by {
                        assert(v.get(j) == w.get(j));
                    }
                }
            }
            assert forall|v: Disk| #[trigger] w.without(c, v) implies w.same_but(c, v) by {}
        }
    }
}

/// Removing the roots of other activations leaves those of the current one as they are.
pub proof fn law_clean_keeps(w: Disk, paths: StatePaths<Seq<u8>>, p: Seq<u8>)
    requires
        w.sound(),
        path::file_name(p) is Some,
    ensures
        state::clean_program(paths, Some(p)).meets(w, spares_home(w, paths, p)),
{
    let post = spares_home::<Result<(), Trouble>>(w, paths, p);
    lemma_home(paths, p);
    assert forall|x: Answer|
        #![trigger x.names()]
        x.names() is Ok implies state::clean_names_program(
        paths,
        x.names()->Ok_0,
        Some(state::gc_root_of(p, paths)->Ok_0),
    ).meets(w, post) by {
        lemma_clean_names(w, paths, x.names()->Ok_0, p);
    }
}

/// A change of one of the two files leaves the roots as they are.
proof fn lemma_file_spares(
    q: Program<Result<(), Trouble>>,
    w: Disk,
    paths: StatePaths<Seq<u8>>,
    p: Seq<u8>,
    c: Spot,
)
    requires
        q.meets(w, mounted::changed(w, c)),
        path::file_name(p) is Some,
        disk::apart(path::components(paths.gc_roots), c),
    ensures
        q.meets(w, leaves_home(w, paths, p)),
{
    let post = leaves_home(w, paths, p);
    let h = home(paths, p);
    lemma_home(paths, p);
    assert forall|v: Disk, r: Result<(), Trouble>| #[trigger]
        mounted::changed::<()>(w, c)(v, r) implies post(v, r) by {
        if r is Ok {
            lemma_same_roots(w, v, paths, c);
            assert forall|j: Spot| #![trigger v.get(j)] disk::below(h, j) implies v.get(j) == w.get(
                j,
            ) by {
                placed::lemma_below_trans(path::components(paths.gc_roots), h, j);
            }
        }
    }
    reason::lemma_weaken(q, w, mounted::changed::<()>(w, c), post);
}

/// That a disk is sound and, if the operation succeeded, the roots of an activation did not change.
pub open spec fn leaves_home(w: Disk, paths: StatePaths<Seq<u8>>, p: Seq<u8>) -> spec_fn(
    Disk,
    Result<(), Trouble>,
) -> bool {
    |v: Disk, r: Result<(), Trouble>|
        v.sound() && (r is Ok ==> spares_home::<Result<(), Trouble>>(w, paths, p)(v, r))
}

/// Roots that did not change, and did not again, did not change.
proof fn lemma_home_again(
    w: Disk,
    u: Disk,
    v: Disk,
    r: Result<(), Trouble>,
    paths: StatePaths<Seq<u8>>,
    p: Seq<u8>,
)
    requires
        spares_home::<Result<(), Trouble>>(w, paths, p)(u, Ok(())),
        leaves_home(u, paths, p)(v, r),
    ensures
        leaves_home(w, paths, p)(v, r),
{
    if r is Ok {
        assert forall|i: Spot| #![trigger v.get(i)] disk::below(home(paths, p), i) implies v.get(i)
            == w.get(i) by {
            assert(u.get(i) == w.get(i));
        }
    }
}

/// Removing other roots leaves the roots of an activation.
proof fn lemma_clean_leaves(w: Disk, u: Disk, paths: StatePaths<Seq<u8>>, p: Seq<u8>)
    requires
        spares_home::<Result<(), Trouble>>(w, paths, p)(u, Ok(())),
        path::file_name(p) is Some,
    ensures
        state::clean_program(paths, Some(p)).meets(u, leaves_home(w, paths, p)),
{
    let clean = state::clean_program(paths, Some(p));
    let kept = spares_home::<Result<(), Trouble>>(u, paths, p);
    let post = leaves_home(w, paths, p);
    law_clean_keeps(u, paths, p);
    assert forall|x: Disk, r: Result<(), Trouble>| #[trigger] kept(x, r) implies post(x, r) by {
        assert(leaves_home(u, paths, p)(x, r));
        lemma_home_again(w, u, x, r, paths, p);
    }
    reason::lemma_weaken(clean, u, kept, post);
}

/// Writing down that nothing is under way, and removing other roots, leaves the roots of an activation.
proof fn lemma_tidy_leaves(w: Disk, u: Disk, paths: StatePaths<Seq<u8>>, p: Seq<u8>)
    requires
        spares_home::<Result<(), Trouble>>(w, paths, p)(u, Ok(())),
        mounted::are_places(paths),
        disk::apart(path::components(paths.directory), disk::vault()),
        path::file_name(p) is Some,
    ensures
        state::clear_transaction_program(paths).and_then(
            |x: ()| state::clean_program(paths, Some(p)),
        ).meets(u, leaves_home(w, paths, p)),
{
    let clear = state::clear_transaction_program(paths);
    let post = leaves_home(w, paths, p);
    lemma_roots_apart(paths);
    mounted::lemma_clear_transaction(u, paths, path::components(paths.directory));
    lemma_file_spares(clear, u, paths, p, path::components(paths.journal));
    assert forall|x: Disk, r: Result<(), Trouble>| #[trigger]
        leaves_home(u, paths, p)(x, r) && r is Ok implies state::clean_program(
        paths,
        Some(p),
    ).meets(x, post) by {
        lemma_home_again(w, u, x, r, paths, p);
        lemma_clean_leaves(w, x, paths, p);
    }
}

/// Writing down what is mounted, and that nothing is under way, and removing other roots leaves the
/// roots of an activation.
proof fn lemma_settle_spares(w: Disk, u: Disk, paths: StatePaths<Seq<u8>>, p: Seq<u8>)
    requires
        spares_home::<Result<(), Trouble>>(w, paths, p)(u, Ok(())),
        mounted::are_places(paths),
        disk::apart(path::components(paths.directory), disk::vault()),
        path::file_name(p) is Some,
    ensures
        state::write_current_program(paths, p).and_then(
            |x: ()|
                state::clear_transaction_program(paths).and_then(
                    |x: ()| state::clean_program(paths, Some(p)),
                ),
        ).meets(u, leaves_home(w, paths, p)),
{
    let post = leaves_home(w, paths, p);
    let c = path::components(paths.current);
    let write = state::write_current_program(paths, p);
    mounted::lemma_state_names();
    lemma_roots_apart(paths);
    mounted::law_write(u, paths.directory, bytes::text("current"@), state::line_of(p));
    assert(write.meets(u, mounted::changed(u, c)));
    lemma_file_spares(write, u, paths, p, c);
    assert forall|x: Disk, r: Result<(), Trouble>| #[trigger]
        leaves_home(u, paths, p)(x, r) && r is Ok implies state::clear_transaction_program(
        paths,
    ).and_then(|y: ()| state::clean_program(paths, Some(p))).meets(x, post) by {
        lemma_home_again(w, u, x, r, paths, p);
        lemma_tidy_leaves(w, x, paths, p);
    }
}

/// Mounting a prepared activation leaves its roots as they are.
pub proof fn law_enter_keeps(
    w: Disk,
    paths: StatePaths<Seq<u8>>,
    previous: Option<Seq<u8>>,
    p: Seq<u8>,
    a: ActivationModel,
)
    requires
        w.sound(),
        mounted::are_places(paths),
        mounted::housed(paths, a),
        mounted::genuine(w, a),
        w.at(paths.directory) is Some,
        path::file_name(p) is Some,
    ensures
        state::enter_program(paths, previous, (p, a)).meets(w, leaves_home(w, paths, p)),
{
    let post = leaves_home(w, paths, p);
    let (root, zone) = (path::components(a.root), path::components(paths.directory));
    let j = path::components(paths.journal);
    let t = Transaction::Mount { previous, next: Some(p) };
    let note = state::write_transaction_program(paths, t);
    let noted = |v: Disk, r: Result<(), Trouble>|
        leaves_home(w, paths, p)(v, r) && mounted::tended::<()>(w, zone)(v, r);
    mounted::lemma_state_names();
    mounted::lemma_places(paths);
    lemma_roots_apart(paths);
    assert(note.meets(w, mounted::changed(w, j))) by {
        assert forall|form: Seq<u8>|
            #![trigger atomic::write_program(paths.journal, form)]
            atomic::write_program(paths.journal, form).meets(w, mounted::changed(w, j)) by {
            mounted::law_write(w, paths.directory, bytes::text("transaction"@), form);
        }
    }
    lemma_file_spares(note, w, paths, p, j);
    mounted::lemma_write_transaction(w, paths, t, zone);
    reason::lemma_both(note, w, leaves_home(w, paths, p), mounted::tended(w, zone));
    assert forall|v: Disk, r: Result<(), Trouble>| #[trigger]
        noted(v, r) && r is Ok implies state::activate_program(a).and_then(
        |x: ()|
            state::write_current_program(paths, p).and_then(
                |x: ()|
                    state::clear_transaction_program(paths).and_then(
                        |x: ()| state::clean_program(paths, Some(p)),
                    ),
            ),
    ).meets(v, post) by {
        lemma_activate_spares(w, v, paths, p, a);
    }
}

proof fn lemma_activate_spares(
    w: Disk,
    v: Disk,
    paths: StatePaths<Seq<u8>>,
    p: Seq<u8>,
    a: ActivationModel,
)
    requires
        mounted::are_places(paths),
        mounted::housed(paths, a),
        mounted::genuine(w, a),
        w.at(paths.directory) is Some,
        path::file_name(p) is Some,
        spares_home::<Result<(), Trouble>>(w, paths, p)(v, Ok(())),
        backed::grown(w, v, path::components(paths.directory)),
    ensures
        state::activate_program(a).and_then(
            |x: ()|
                state::write_current_program(paths, p).and_then(
                    |x: ()|
                        state::clear_transaction_program(paths).and_then(
                            |x: ()| state::clean_program(paths, Some(p)),
                        ),
                ),
        ).meets(v, leaves_home(w, paths, p)),
{
    let (root, zone) = (path::components(a.root), path::components(paths.directory));
    let act = state::activate_program(a);
    let inv = guarded::sparing(v, a.projection, root);
    let none = quiet::any::<Disk, Result<(), Trouble>>();
    let h = home(paths, p);
    assert(root.take(root.len() as int) =~= root);
    mounted::lemma_genuine_grown(w, v, a, zone);
    mounted::lemma_places(paths);
    lemma_home(paths, p);
    placed::lemma_below_trans(zone, path::components(paths.gc_roots), h);
    guarded::law_transition_spares(v, a.baseline, a.projection, a.root, a.projection, root);
    reason::lemma_upholds_meets(act, v, inv, none);
    let kept = |u: Disk, r: Result<(), Trouble>| inv(u) && none(u, r);
    assert(v.get(zone) == w.get(zone));
    assert forall|u: Disk, r: Result<(), Trouble>| #[trigger]
        kept(u, r) && r is Ok implies state::write_current_program(paths, p).and_then(
        |x: ()|
            state::clear_transaction_program(paths).and_then(
                |x: ()| state::clean_program(paths, Some(p)),
            ),
    ).meets(u, leaves_home(w, paths, p)) by {
        mounted::lemma_zone_spared(v, u, paths, a);
        assert forall|i: Spot| #![trigger u.get(i)] disk::below(h, i) implies u.get(i) == w.get(
            i,
        ) by {
            placed::lemma_below_trans(zone, h, i);
            assert(v.get(i) == w.get(i));
        }
        lemma_settle_spares(w, u, paths, p);
    }
}

/// That a disk is sound and, if the operation succeeded, an activation was prepared and is kept.
pub open spec fn keeps_prepared(w: Disk, paths: StatePaths<Seq<u8>>) -> spec_fn(
    Disk,
    Result<(Seq<u8>, ActivationModel), Trouble>,
) -> bool {
    |v: Disk, r: Result<(Seq<u8>, ActivationModel), Trouble>|
        v.sound() && (r matches Ok(t) ==> is_kept(w, v, paths, t.0, t.1))
}

/// Recording a captured activation keeps all it needs.
proof fn lemma_record_kept(w: Disk, v: Disk, paths: StatePaths<Seq<u8>>, a: ActivationModel)
    requires
        v.sound(),
        same_roots(w, v, paths),
        mounted::are_places(paths),
        disk::apart(path::components(paths.directory), disk::vault()),
    ensures
        state::record_program(paths, a).meets(v, keeps_prepared(w, paths)),
{
    let post = keeps_prepared(w, paths);
    let g = path::components(paths.preparing);
    law_persist_kept(v, a, paths);
    lemma_roots_apart(paths);
    assert forall|u: Disk, r: Result<Seq<u8>, Trouble>| #[trigger]
        keeps_record(v, paths, a)(u, r) && r is Ok implies state::remove_preparing_program(
        paths,
    ).meets(
        u,
        |x: Disk, q: Result<(), Trouble>| x.sound() && (q is Ok ==> post(x, Ok((r->Ok_0, a)))),
    ) by {
        let p = r->Ok_0;
        lemma_kept_since(w, v, u, paths, p, a);
        lemma_home(paths, p);
        mounted::lemma_remove_preparing(u, paths, path::components(paths.directory));
        assert forall|x: Disk, q: Result<(), Trouble>| #[trigger]
            mounted::changed::<()>(u, g)(x, q) && q is Ok implies post(x, Ok((p, a))) by {
            lemma_same_roots(u, x, paths, g);
            lemma_kept_until(w, u, x, paths, p, a);
        }
    }
}

/// Preparing an activation keeps all it needs.
#[verifier::rlimit(30)]
pub proof fn law_prepare_kept(w: Disk, paths: StatePaths<Seq<u8>>, root: Seq<u8>, f: Forest)
    requires
        w.sound(),
        mounted::are_places(paths),
        backed::spread(f, path::components(root), path::components(paths.directory)),
        placed::tree_proper(f),
        tree::orderly(f),
    ensures
        state::prepare_program(paths, root, f).meets(w, keeps_prepared(w, paths)),
{
    let post = keeps_prepared(w, paths);
    let zone = path::components(paths.directory);
    let (c, g) = (path::components(root), path::components(paths.preparing));
    mounted::lemma_places(paths);
    mounted::lemma_remove_preparing(w, paths, zone);
    lemma_roots_apart(paths);
    assert(c.take(c.len() as int) =~= c);
    assert(g.take(g.len() as int) =~= g);
    assert(backed::spread(f, c, g)) by {
        if disk::below(g, c) {
            placed::lemma_below_trans(zone, g, c);
        }
        managed::lemma_owned_above(f, c, zone, g);
        placed::lemma_apart_below(disk::vault(), zone, g);
    }
    assert forall|w1: Disk, r: Result<(), Trouble>, m: u32, w2: Disk|
        #![trigger mounted::changed::<()>(w, g)(w1, r), w1.with(g, Object::Directory(m), w2)]
        mounted::changed::<()>(w, g)(w1, r) && r is Ok && w1.with(g, Object::Directory(m), w2)
            && w2.sound() implies backup::tree_capture_program(
        f,
        root,
        paths.preparing,
        0,
        Seq::empty(),
    ).and_then(
        |captured: (Forest, usize)|
            state::record_program(
                paths,
                ActivationModel { root, projection: f, baseline: captured.0 },
            ),
    ).meets(w2, post) by {
        let none = Seq::<(Seq<u8>, Node)>::empty();
        lemma_same_roots(w, w1, paths, g);
        assert(w1.same_but(g, w2));
        lemma_same_roots(w1, w2, paths, g);
        backed::law_tree_capture(w2, f, root, paths.preparing, 0, none, c);
        assert forall|v: Disk, q: Result<(Forest, usize), Trouble>| #[trigger]
            backed::tree_captured(w2, f, none, root, c, g)(v, q)
                && q is Ok implies state::record_program(
            paths,
            ActivationModel { root, projection: f, baseline: (q->Ok_0).0 },
        ).meets(v, post) by {
            lemma_grown_roots(w2, v, paths);
            assert forall|j: Spot|
                #![trigger v.get(j)]
                lies_in(path::components(paths.gc_roots), j) implies v.get(j) == w.get(j) by {
                assert(w2.get(j) == w1.get(j));
                assert(w1.get(j) == w.get(j));
            }
            lemma_record_kept(
                w,
                v,
                paths,
                ActivationModel { root, projection: f, baseline: (q->Ok_0).0 },
            );
        }
    }
}

/// That a disk is sound and, if the operation succeeded, `f` is mounted below `root`, and all that is
/// needed is kept.
pub open spec fn mounts_kept(w: Disk, paths: StatePaths<Seq<u8>>, root: Seq<u8>, f: Forest) -> spec_fn(
    Disk,
    Result<(), Trouble>,
) -> bool {
    |v: Disk, r: Result<(), Trouble>|
        v.sound() && (r is Ok ==> exists|p: Seq<u8>, a: ActivationModel|
            {
                &&& #[trigger] mounted::installed(v, paths, p, a)
                &&& a.root == root
                &&& a.projection == f
                &&& is_kept(w, v, paths, p, a)
            })
}

/// Preparing an activation and mounting it keeps all it needs.
proof fn lemma_renew_kept(
    w: Disk,
    u: Disk,
    paths: StatePaths<Seq<u8>>,
    previous: Option<Seq<u8>>,
    root: Seq<u8>,
    f: Forest,
)
    requires
        u.sound(),
        same_roots(w, u, paths),
        mounted::are_places(paths),
        backed::spread(f, path::components(root), path::components(paths.directory)),
        cycle::mountable(u, root, f),
    ensures
        state::prepare_program(paths, root, f).and_then(
            |next: (Seq<u8>, ActivationModel)| state::enter_program(paths, previous, next),
        ).meets(u, mounts_kept(w, paths, root, f)),
{
    let post = mounts_kept(w, paths, root, f);
    let zone = path::components(paths.directory);
    let c = path::components(root);
    let prepare = state::prepare_program(paths, root, f);
    let (made, kept) = (mounted::prepared(u, root, f, zone), keeps_prepared(u, paths));
    mounted::lemma_prepare(u, paths, root, f, zone);
    law_prepare_kept(u, paths, root, f);
    reason::lemma_both(prepare, u, made, kept);
    let both = |v: Disk, r: Result<(Seq<u8>, ActivationModel), Trouble>| made(v, r) && kept(v, r);
    assert forall|v: Disk, r: Result<(Seq<u8>, ActivationModel), Trouble>| #[trigger]
        both(v, r) && r is Ok implies state::enter_program(paths, previous, r->Ok_0).meets(
        v,
        post,
    ) by {
        let (p, a) = r->Ok_0;
        let enter = state::enter_program(paths, previous, (p, a));
        backed::lemma_tree_sourced_grown(u, v, f, c, zone);
        assert(mounted::genuine(v, a));
        mounted::lemma_enter(v, paths, previous, p, a, zone);
        law_enter_keeps(v, paths, previous, p, a);
        let (there, stays) = (mounted::settled(v, paths, p, a), leaves_home(v, paths, p));
        reason::lemma_both(enter, v, there, stays);
        let all = |x: Disk, q: Result<(), Trouble>| there(x, q) && stays(x, q);
        lemma_kept_since(w, u, v, paths, p, a);
        assert forall|x: Disk, q: Result<(), Trouble>| #[trigger] all(x, q) implies post(x, q) by {
            if q is Ok {
                lemma_kept_until(w, v, x, paths, p, a);
                assert(mounted::installed(x, paths, p, a));
            }
        }
        reason::lemma_weaken(enter, v, all, post);
    }
}

/// Taking an activation away leaves all roots as they are.
proof fn lemma_retire_roots(w: Disk, paths: StatePaths<Seq<u8>>, p: Seq<u8>, a: ActivationModel)
    requires
        w.sound(),
        mounted::are_places(paths),
        mounted::housed(paths, a),
        mounted::genuine(w, a),
        w.at(paths.directory) is Some,
    ensures
        state::retire_program(paths, Some((p, a))).meets(
            w,
            |v: Disk, r: Result<(), Trouble>| v.sound() && (r is Ok ==> same_roots(w, v, paths)),
        ),
{
    let post = |v: Disk, r: Result<(), Trouble>| v.sound() && (r is Ok ==> same_roots(w, v, paths));
    let zone = path::components(paths.directory);
    let g = path::components(paths.gc_roots);
    let j = path::components(paths.journal);
    let t = Transaction::Mount { previous: Some(p), next: None };
    let note = state::write_transaction_program(paths, t);
    mounted::lemma_state_names();
    mounted::lemma_places(paths);
    lemma_roots_apart(paths);
    assert(note.meets(w, mounted::changed(w, j))) by {
        assert forall|form: Seq<u8>|
            #![trigger atomic::write_program(paths.journal, form)]
            atomic::write_program(paths.journal, form).meets(w, mounted::changed(w, j)) by {
            mounted::law_write(w, paths.directory, bytes::text("transaction"@), form);
        }
    }
    mounted::lemma_write_transaction(w, paths, t, zone);
    reason::lemma_both(note, w, mounted::changed(w, j), mounted::tended(w, zone));
    let both = |v: Disk, r: Result<(), Trouble>|
        mounted::changed::<()>(w, j)(v, r) && mounted::tended::<()>(w, zone)(v, r);
    assert forall|v: Disk, r: Result<(), Trouble>| #[trigger]
        both(v, r) && r is Ok implies state::deactivate_program(a).meets(v, post) by {
        mounted::lemma_genuine_grown(w, v, a, zone);
        mounted::lemma_deactivate(v, a);
        lemma_same_roots(w, v, paths, j);
        assert(v.get(zone) == w.get(zone));
        let back = |x: Disk, q: Result<(), Trouble>|
            mounted::turned_back(v, a)(x, q) && (q is Ok ==> v.same_but(
                path::components(a.root),
                x,
            )) && guarded::sparing(v, a.projection, path::components(a.root))(x);
        assert forall|x: Disk, q: Result<(), Trouble>| #[trigger] back(x, q) implies post(x, q) by {
            mounted::lemma_zone_spared(v, x, paths, a);
            assert forall|i: Spot| #![trigger x.get(i)] lies_in(g, i) implies x.get(i) == w.get(
                i,
            ) by {
                placed::lemma_below_trans(zone, g, i);
                assert(v.get(i) == w.get(i));
            }
        }
    }
}

/// Replacing what is mounted keeps all that is needed.
proof fn lemma_body_kept(
    w: Disk,
    u: Disk,
    paths: StatePaths<Seq<u8>>,
    root: Seq<u8>,
    f: Forest,
    former: Option<(Seq<u8>, ActivationModel)>,
)
    requires
        same_roots(w, u, paths),
        mounted::are_places(paths),
        backed::spread(f, path::components(root), path::components(paths.directory)),
        interrupted::quiescent(u, paths, former),
        cycle::mountable(u, root, f),
    ensures
        state::retire_program(paths, former).and_then(
            |x: ()|
                state::prepare_program(paths, root, f).and_then(
                    |next: (Seq<u8>, ActivationModel)|
                        state::enter_program(paths, state::path_of(former), next),
                ),
        ).meets(u, mounts_kept(w, paths, root, f)),
{
    let post = mounts_kept(w, paths, root, f);
    let zone = path::components(paths.directory);
    match former {
        None => {
            lemma_renew_kept(w, u, paths, None, root, f);
        },
        Some(found) => {
            let (p, a) = found;
            let retire = state::retire_program(paths, former);
            mounted::lemma_zone_stands(u, paths);
            lemma_retire_roots(u, paths, p, a);
            cycle::lemma_retire(u, paths, p, a, zone);
            let same = |v: Disk, r: Result<(), Trouble>|
                v.sound() && (r is Ok ==> same_roots(u, v, paths));
            reason::lemma_both(retire, u, same, cycle::retired(u, a));
            let both = |v: Disk, r: Result<(), Trouble>|
                same(v, r) && cycle::retired(u, a)(v, r);
            assert forall|v: Disk, r: Result<(), Trouble>| #[trigger]
                both(v, r) && r is Ok implies state::prepare_program(paths, root, f).and_then(
                |next: (Seq<u8>, ActivationModel)|
                    state::enter_program(paths, state::path_of(former), next),
            ).meets(v, post) by {
                mounted::lemma_tree_sourced_preserved(u, v, f, path::components(root));
                assert forall|j: Spot|
                    #![trigger v.get(j)]
                    lies_in(path::components(paths.gc_roots), j) implies v.get(j) == w.get(j) by {
                    assert(u.get(j) == w.get(j));
                }
                lemma_renew_kept(w, v, paths, state::path_of(former), root, f);
            }
        },
    }
}

/// Mounting an image, if it succeeds, leaves an activation of it mounted of which all is kept that it
/// needs: by roots under its name, one for the record of the activation, and one for the object of the
/// store that holds what an entry of its trees is made from, or links to there.
#[verifier::rlimit(30)]
pub proof fn law_mount_kept(
    w: Disk,
    paths: StatePaths<Seq<u8>>,
    image: Seq<u8>,
    root: Seq<u8>,
    f: Forest,
    former: Option<(Seq<u8>, ActivationModel)>,
)
    requires
        mounted::are_places(paths),
        backed::spread(f, path::components(root), path::components(paths.directory)),
        interrupted::quiescent(w, paths, former),
        cycle::mountable(w, root, f),
    ensures
        state::mount_program(paths, image, root, f).meets(w, mounts_kept(w, paths, root, f)),
{
    let post = mounts_kept(w, paths, root, f);
    let make = Request::CreateDirs(paths.gc_roots);
    assert forall|w1: Disk| #[trigger]
        disk::changes(w, make, w1) && w1.sound() && w1.records == w.records && w1.journals
            == w.journals implies state::available_program(paths.state_root, image, root).and_then(
        |u: ()|
            state::mount_body(paths, root, f).bind(
                |r: Result<(), Trouble>|
                    match r {
                        Ok(u) => program::give(()),
                        Err(e) => state::fall_back_program(paths, e),
                    },
            ),
    ).meets(w1, post) by {
        lemma_paved_kept(w, w1, paths, root, f, former);
        quiet::lemma_available(paths.state_root, image, root);
        quiet::lemma_still(state::available_program(paths.state_root, image, root), w1);
        lemma_mount_body(w, w1, paths, root, f, former);
        assert forall|v: Disk, e: Trouble|
            #![trigger post(v, Err(e))]
            post(v, Err(e)) implies state::fall_back_program(paths, e).meets(v, post) by {
            cycle::lemma_fall_back(v, paths, e, post);
        }
    }
}

/// Creating the directories of the state leaves what is mounted, and all roots.
proof fn lemma_paved_kept(
    w: Disk,
    w1: Disk,
    paths: StatePaths<Seq<u8>>,
    root: Seq<u8>,
    f: Forest,
    former: Option<(Seq<u8>, ActivationModel)>,
)
    requires
        mounted::are_places(paths),
        backed::spread(f, path::components(root), path::components(paths.directory)),
        interrupted::quiescent(w, paths, former),
        cycle::mountable(w, root, f),
        disk::paves(w, paths.gc_roots, w1),
        w1.sound(),
        w1.records == w.records,
        w1.journals == w.journals,
    ensures
        interrupted::quiescent(w1, paths, former),
        cycle::mountable(w1, root, f),
        same_roots(w, w1, paths),
{
    let g = path::components(paths.gc_roots);
    interrupted::lemma_paved(w, w1, paths);
    interrupted::lemma_based(w, w1, paths, root, f, former);
    assert forall|j: Spot| #![trigger w1.get(j)] lies_in(g, j) implies w1.get(j) == w.get(j) by {
        if disk::below(j, g) {
            assert(j.len() == g.len());
            assert(j =~= g.take(j.len() as int));
            assert(g.take(g.len() as int) =~= g);
        }
    }
}

proof fn lemma_mount_body(
    w: Disk,
    u: Disk,
    paths: StatePaths<Seq<u8>>,
    root: Seq<u8>,
    f: Forest,
    former: Option<(Seq<u8>, ActivationModel)>,
)
    requires
        same_roots(w, u, paths),
        mounted::are_places(paths),
        backed::spread(f, path::components(root), path::components(paths.directory)),
        interrupted::quiescent(u, paths, former),
        cycle::mountable(u, root, f),
    ensures
        state::mount_body(paths, root, f).meets(u, mounts_kept(w, paths, root, f)),
{
    let post = mounts_kept(w, paths, root, f);
    match former {
        Some(found) => {
            mounted::law_load(u, paths, found.0, found.1);
        },
        None => {
            mounted::law_load_nothing(u, paths);
        },
    }
    quiet::lemma_checked(former);
    quiet::lemma_still(state::checked_program(former), u);
    lemma_body_kept(w, u, paths, root, f, former);
    assert forall|v: Disk, r: Result<Option<(Seq<u8>, ActivationModel)>, Trouble>| #[trigger]
        mounted::gives(u, former)(v, r) && r is Ok implies state::checked_program(
        r->Ok_0,
    ).and_then(
        |x: ()|
            state::retire_program(paths, r->Ok_0).and_then(
                |x: ()|
                    state::prepare_program(paths, root, f).and_then(
                        |next: (Seq<u8>, ActivationModel)|
                            state::enter_program(paths, state::path_of(r->Ok_0), next),
                    ),
            ),
    ).meets(v, post) by {}
}

/// Paths of objects of the store with the same last name are the same.
proof fn lemma_same_entry(p: Seq<u8>, q: Seq<u8>)
    requires
        is_entry(p),
        is_entry(q),
        path::file_name(p) is Some,
        path::file_name(p) == path::file_name(q),
    ensures
        path::components(p) == path::components(q),
{
    let (x, y) = (path::components(p), path::components(q));
    let v = disk::vault();
    assert(x =~= v.push(x.last())) by {
        assert(x.take(v.len() as int) == v);
    }
    assert(y =~= v.push(y.last())) by {
        assert(y.take(v.len() as int) == v);
    }
}

/// Whether the only roots are those of what is mounted, and they keep all it needs.
pub open spec fn all_kept(
    w: Disk,
    paths: StatePaths<Seq<u8>>,
    former: Option<(Seq<u8>, ActivationModel)>,
) -> bool {
    &&& swept::only_roots(w, paths, state::path_of(former))
    &&& former matches Some(found) ==> is_entry(found.0) && keeps_all(
        w,
        home(paths, found.0),
        found.0,
        found.1,
    )
}

/// Mounting an image, if it succeeds, leaves only roots of what is mounted, and they keep all it needs,
/// where that was so before.
pub proof fn law_mount_keeps_all(
    w: Disk,
    paths: StatePaths<Seq<u8>>,
    image: Seq<u8>,
    root: Seq<u8>,
    f: Forest,
    former: Option<(Seq<u8>, ActivationModel)>,
)
    requires
        mounted::are_places(paths),
        backed::spread(f, path::components(root), path::components(paths.directory)),
        interrupted::quiescent(w, paths, former),
        cycle::mountable(w, root, f),
        all_kept(w, paths, former),
    ensures
        state::mount_program(paths, image, root, f).meets(
            w,
            |v: Disk, r: Result<(), Trouble>|
                r is Ok ==> exists|p: Seq<u8>, a: ActivationModel|
                    {
                        &&& #[trigger] mounted::installed(v, paths, p, a)
                        &&& a.root == root
                        &&& a.projection == f
                        &&& all_kept(v, paths, Some((p, a)))
                    },
        ),
{
    let mount = state::mount_program(paths, image, root, f);
    let post = |v: Disk, r: Result<(), Trouble>|
        r is Ok ==> exists|p: Seq<u8>, a: ActivationModel|
            {
                &&& #[trigger] mounted::installed(v, paths, p, a)
                &&& a.root == root
                &&& a.projection == f
                &&& all_kept(v, paths, Some((p, a)))
            };
    let safe = interrupted::mount_safe(w, paths, root, f, former);
    let end = interrupted::mount_end(w, paths, root, f, former);
    let kept = mounts_kept(w, paths, root, f);
    let whole = |v: Disk, r: Result<(), Trouble>| safe(v) && end(v, r);
    let both = |v: Disk, r: Result<(), Trouble>| whole(v, r) && kept(v, r);
    law_mount_kept(w, paths, image, root, f, former);
    interrupted::law_mount_interrupted(w, paths, image, root, f, former);
    reason::lemma_upholds_meets(mount, w, safe, end);
    reason::lemma_both(mount, w, whole, kept);
    assert forall|v: Disk, r: Result<(), Trouble>| #[trigger] both(v, r) implies post(v, r) by {
        if r is Ok {
            let (p, a) = choose|p: Seq<u8>, a: ActivationModel|
                {
                    &&& #[trigger] mounted::installed(v, paths, p, a)
                    &&& a.root == root
                    &&& a.projection == f
                    &&& is_kept(w, v, paths, p, a)
                };
            lemma_none_left(w, v, paths, root, f, former, p, a);
            assert(mounted::installed(v, paths, p, a));
        }
    }
    reason::lemma_weaken(mount, w, both, post);
}

/// Roots that were there before are those of the same activation.
proof fn lemma_none_left(
    w: Disk,
    v: Disk,
    paths: StatePaths<Seq<u8>>,
    root: Seq<u8>,
    f: Forest,
    former: Option<(Seq<u8>, ActivationModel)>,
    p: Seq<u8>,
    a: ActivationModel,
)
    requires
        interrupted::quiescent(w, paths, former),
        all_kept(w, paths, former),
        interrupted::mount_done(w, paths, root, f, former)(v),
        swept::tidy(v, paths),
        mounted::installed(v, paths, p, a),
        is_kept(w, v, paths, p, a),
    ensures
        all_kept(v, paths, Some((p, a))),
{
    let h = home(paths, p);
    mounted::lemma_line(p);
    if !keeps_all(v, h, p, a) {
        assert(w.get(swept::root_place(paths, path::file_name(p)->Some_0)) is Some);
        let (q, b) = former->Some_0;
        assert(path::file_name(q) == path::file_name(p));
        lemma_same_entry(p, q);
        lemma_same_record(w, v, paths, root, f, q, b, p, a);
        lemma_keeps_frame(w, v, h, q, b);
        let (n, o) = choose|n: nat, o: Seq<u8>|
            #![trigger v.get(root_at(h, n)), is_object(o, q)]
            v.get(root_at(h, n)) == Some(Object::Symlink(o)) && is_object(o, q);
        assert(v.get(root_at(h, n)) == Some(Object::Symlink(o)) && is_object(o, p));
    }
}

/// The record of what is mounted is the same where its path is.
proof fn lemma_same_record(
    w: Disk,
    v: Disk,
    paths: StatePaths<Seq<u8>>,
    root: Seq<u8>,
    f: Forest,
    q: Seq<u8>,
    b: ActivationModel,
    p: Seq<u8>,
    a: ActivationModel,
)
    requires
        interrupted::quiescent(w, paths, Some((q, b))),
        interrupted::mount_done(w, paths, root, f, Some((q, b)))(v),
        mounted::installed(v, paths, p, a),
        path::components(p) == path::components(q),
    ensures
        a == b,
{
    let (u, p1, a1) = choose|u: Disk, p1: Seq<u8>, a1: ActivationModel| #[trigger]
        recovered::entering(u, paths, p1, a1)(v) && recovered::resting(v, paths, p1, a1)
            && interrupted::taken(w, paths, Some((q, b)), root, f, u, a1);
    let s = path::components(q);
    mounted::lemma_preserved_trans(w, u, v);
    assert(s.take(s.len() as int) =~= s);
    assert(disk::below(s, s));
    assert(v.get(s) == w.get(s));
}

} // verus!
