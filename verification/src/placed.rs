//! That what is put on a disk stands there, and nothing else changes.
use vstd::prelude::*;

use crate::atomic;
use crate::bytes;
use crate::disk;
use crate::disk::{Disk, Object, Spot};
use crate::entry;
use crate::error::Trouble;
use crate::path;
use crate::path::Component;
use crate::placing;
use crate::standing;
use crate::tree::{Forest, Modes, Node};

verus! {

broadcast use crate::reason::group_reason;

/// Whether the number holds permissions and nothing else.
pub open spec fn is_mode(mode: u32) -> bool {
    mode & 0o7777 == mode
}

/// Whether recorded permissions are of different relative paths.
pub open spec fn modes_proper(modes: Modes) -> bool {
    &&& forall|i: int|
        #![trigger modes[i]]
        0 <= i < modes.len() ==> path::relative(modes[i].0) && is_mode(modes[i].1)
    &&& forall|i: int, j: int|
        #![trigger modes[i], modes[j]]
        0 <= i < j < modes.len() ==> !path::equal(modes[i].0, modes[j].0)
}

/// Whether an entry is of the form that mounting records.
pub open spec fn proper(node: Node) -> bool
    decreases node, 1int,
{
    match node {
        Node::Directory { mode, tree } => is_mode(mode) && tree_proper(tree),
        Node::Copy { mode, .. } => is_mode(mode),
        Node::Snapshot { modes, .. } => modes_proper(modes),
        _ => true,
    }
}

/// Whether a tree is of the form that mounting records: its names are different names of entries.
pub open spec fn tree_proper(f: Forest) -> bool
    decreases f, 0int,
{
    f.len() == 0 || {
        &&& path::is_plain(f[0].0)
        &&& proper(f[0].1)
        &&& forall|i: int| 0 < i < f.len() ==> (#[trigger] f[i]).0 != f[0].0
        &&& tree_proper(f.skip(1))
    }
}

/// Whether a backup is there, away from `root`, and its permissions are those of its files and
/// directories.
pub open spec fn kept(w: Disk, source: Seq<u8>, modes: Modes, root: Spot) -> bool {
    let s = path::components(source);
    &&& disk::apart(s, root)
    &&& w.get(s) is Some
    &&& forall|rest: Spot|
        #![trigger w.get(s + rest)]
        match w.get(s + rest) {
            Some(Object::Directory(_)) => standing::mode_of(modes, rest) is Some,
            Some(Object::File(_, _)) => standing::mode_of(modes, rest) is Some,
            Some(Object::Symlink(_)) => standing::mode_of(modes, rest) is None,
            Some(Object::Other(_)) => false,
            None => standing::mode_of(modes, rest) is None,
        }
}

/// Whether what an entry is made from is there, away from `root`.
pub open spec fn sourced(w: Disk, node: Node, root: Spot) -> bool
    decreases node, 1int,
{
    match node {
        Node::Directory { tree, .. } => tree_sourced(w, tree, root),
        Node::Copy { source, .. } => disk::is_file(w.at(source)) && disk::apart(
            path::components(source),
            root,
        ),
        Node::Snapshot { source, modes } => kept(w, source, modes, root),
        _ => true,
    }
}

/// Whether what the entries of a tree are made from is there, away from `root`.
pub open spec fn tree_sourced(w: Disk, f: Forest, root: Spot) -> bool
    decreases f, 0int,
{
    f.len() == 0 || (sourced(w, f[0].1, root) && tree_sourced(w, f.skip(1), root))
}

/// Whether a place belongs to an entry of a tree at `c`.
pub open spec fn touches(f: Forest, c: Spot, j: Spot) -> bool
    decreases f.len(),
{
    f.len() > 0 && (disk::below(c.push(Component::Normal(f[0].0)), j) || touches(f.skip(1), c, j))
}

/// Whether `v` differs from `w` only where entries of a tree at `c` belong.
pub open spec fn same_but_tree(w: Disk, f: Forest, c: Spot, v: Disk) -> bool {
    forall|j: Spot| #![trigger v.get(j)] !touches(f, c, j) ==> v.get(j) == w.get(j)
}

/// That a disk is sound and, if the operation succeeded, an entry stands at `p` and nothing
/// changed outside.
pub open spec fn made(w: Disk, node: Node, p: Seq<u8>) -> spec_fn(Disk, Result<(), Trouble>) -> bool {
    |v: Disk, r: Result<(), Trouble>|
        v.sound() && (r is Ok ==> standing::stands(v, node, p) && w.same_but(
            path::components(p),
            v,
        ))
}

/// That a disk is sound and, if the operation succeeded, a tree stands at `p` and nothing
/// changed outside its entries.
pub open spec fn tree_made(w: Disk, f: Forest, p: Seq<u8>) -> spec_fn(
    Disk,
    Result<(), Trouble>,
) -> bool {
    |v: Disk, r: Result<(), Trouble>|
        v.sound() && (r is Ok ==> standing::tree_stands(v, f, p) && same_but_tree(
            w,
            f,
            path::components(p),
            v,
        ))
}

/// Two places in line with a third are in line with each other.
pub proof fn lemma_below_both(a: Spot, b: Spot, k: Spot)
    requires
        disk::below(a, k),
        disk::below(b, k),
    ensures
        disk::below(a, b) || disk::below(b, a),
{
    if a.len() <= b.len() {
        assert(b.take(a.len() as int) =~= k.take(b.len() as int).take(a.len() as int));
        assert(k.take(b.len() as int).take(a.len() as int) =~= k.take(a.len() as int));
    } else {
        assert(a.take(b.len() as int) =~= k.take(a.len() as int).take(b.len() as int));
        assert(k.take(a.len() as int).take(b.len() as int) =~= k.take(b.len() as int));
    }
}

pub proof fn lemma_below_trans(a: Spot, b: Spot, k: Spot)
    requires
        disk::below(a, b),
        disk::below(b, k),
    ensures
        disk::below(a, k),
{
    assert(k.take(a.len() as int) =~= k.take(b.len() as int).take(a.len() as int));
}

pub proof fn lemma_below_push(c: Spot, x: Component<Seq<u8>>)
    ensures
        disk::below(c, c.push(x)),
        disk::below(c, c),
{
    assert(c.push(x).take(c.len() as int) =~= c);
    assert(c.take(c.len() as int) =~= c);
}

/// Places below different entries are different.
pub proof fn lemma_siblings(c: Spot, x: Component<Seq<u8>>, y: Component<Seq<u8>>, j: Spot)
    requires
        disk::below(c.push(x), j),
        disk::below(c.push(y), j),
    ensures
        x == y,
{
    lemma_below_both(c.push(x), c.push(y), j);
    assert(c.push(x).take(c.push(x).len() as int) =~= c.push(x));
    assert(c.push(y).take(c.push(y).len() as int) =~= c.push(y));
    assert(c.push(x).last() == c.push(y).last());
}

/// Where nothing stands, nothing stands below.
pub proof fn lemma_void(w: Disk, k: Spot, j: Spot)
    requires
        w.sound(),
        k.len() > 0,
        w.get(k) is None,
        disk::below(k, j),
    ensures
        w.get(j) is None,
{
}

/// What an entry is made from is not touched by what happens below `root`.
pub proof fn lemma_sourced_frame(w: Disk, v: Disk, node: Node, root: Spot)
    requires
        w.same_but(root, v),
        sourced(w, node, root),
    ensures
        sourced(v, node, root),
    decreases node, 1int,
{
    match node {
        Node::Directory { tree, .. } => {
            lemma_tree_sourced_frame(w, v, tree, root);
        },
        Node::Copy { source, .. } => {
            assert(v.at(source) == w.at(source));
        },
        Node::Snapshot { source, modes } => {
            let s = path::components(source);
            assert forall|rest: Spot| #![trigger v.get(s + rest)] v.get(s + rest) == w.get(
                s + rest,
            ) by {
                lemma_away(s, root, rest);
            }
            assert(s + Seq::empty() =~= s);
            assert(v.get(s + Seq::empty()) == w.get(s + Seq::empty()));
        },
        _ => {},
    }
}

pub proof fn lemma_tree_sourced_frame(w: Disk, v: Disk, f: Forest, root: Spot)
    requires
        w.same_but(root, v),
        tree_sourced(w, f, root),
    ensures
        tree_sourced(v, f, root),
    decreases f, 0int,
{
    if f.len() > 0 {
        lemma_sourced_frame(w, v, f[0].1, root);
        lemma_tree_sourced_frame(w, v, f.skip(1), root);
    }
}

/// Below a place apart from `root` nothing is below `root`.
pub proof fn lemma_away(s: Spot, root: Spot, rest: Spot)
    requires
        disk::apart(s, root),
    ensures
        !disk::below(root, s + rest),
{
    assert((s + rest).take(s.len() as int) =~= s);
    if disk::below(root, s + rest) {
        lemma_below_both(s, root, s + rest);
    }
}

/// An entry that stands still stands where nothing changed at it and at what it is made from.
pub proof fn lemma_stands_frame(w: Disk, v: Disk, node: Node, p: Seq<u8>, root: Spot)
    requires
        proper(node),
        sourced(w, node, root),
        w.same_but(root, v),
        forall|j: Spot|
            #![trigger v.get(j)]
            disk::below(path::components(p), j) ==> v.get(j) == w.get(j),
    ensures
        standing::stands(v, node, p) == standing::stands(w, node, p),
    decreases node, 1int,
{
    let c = path::components(p);
    assert(c.take(c.len() as int) =~= c);
    assert(v.at(p) == w.at(p));
    match node {
        Node::Directory { tree, .. } => {
            assert forall|j: Spot| #![trigger v.get(j)] touches(tree, c, j) implies v.get(j)
                == w.get(j) by {
                lemma_touches_below(tree, c, j);
            }
            lemma_tree_stands_frame(w, v, tree, p, root);
        },
        Node::Copy { source, .. } => {
            assert(v.at(source) == w.at(source));
        },
        Node::Snapshot { source, modes } => {
            let s = path::components(source);
            assert forall|rest: Spot| #![trigger v.get(s + rest)] v.get(s + rest) == w.get(
                s + rest,
            ) by {
                lemma_away(s, root, rest);
            }
            assert forall|rest: Spot| #![trigger v.get(c + rest)] v.get(c + rest) == w.get(
                c + rest,
            ) by {
                assert((c + rest).take(c.len() as int) =~= c);
            }
            assert(standing::alike(v, s, c, Seq::empty(), modes) == standing::alike(
                w,
                s,
                c,
                Seq::empty(),
                modes,
            ));
        },
        _ => {},
    }
}

pub proof fn lemma_tree_stands_frame(w: Disk, v: Disk, f: Forest, p: Seq<u8>, root: Spot)
    requires
        tree_proper(f),
        tree_sourced(w, f, root),
        w.same_but(root, v),
        forall|j: Spot|
            #![trigger v.get(j)]
            touches(f, path::components(p), j) ==> v.get(j) == w.get(j),
    ensures
        standing::tree_stands(v, f, p) == standing::tree_stands(w, f, p),
    decreases f, 0int,
{
    if f.len() > 0 {
        path::lemma_entry(p, f[0].0);
        lemma_stands_frame(w, v, f[0].1, path::join(p, f[0].0), root);
        lemma_tree_stands_frame(w, v, f.skip(1), p, root);
    }
}

/// Where an entry of a tree at `c` belongs is below `c`.
pub proof fn lemma_touches_below(f: Forest, c: Spot, j: Spot)
    requires
        touches(f, c, j),
    ensures
        disk::below(c, j),
        j != c,
    decreases f.len(),
{
    if f.len() > 0 {
        let x = Component::Normal(f[0].0);
        if disk::below(c.push(x), j) {
            lemma_below_push(c, x);
            lemma_below_trans(c, c.push(x), j);
        } else {
            lemma_touches_below(f.skip(1), c, j);
        }
    }
}

/// Where an entry with another name belongs, no entry of the tree belongs.
pub proof fn lemma_touches_other(f: Forest, c: Spot, name: Seq<u8>, j: Spot)
    requires
        disk::below(c.push(Component::Normal(name)), j),
        touches(f, c, j),
    ensures
        exists|i: int| 0 <= i < f.len() && (#[trigger] f[i]).0 == name,
    decreases f.len(),
{
    let x = Component::Normal(f[0].0);
    if disk::below(c.push(x), j) {
        lemma_siblings(c, x, Component::Normal(name), j);
        assert(f[0].0 == name);
    } else {
        lemma_touches_other(f.skip(1), c, name, j);
        let i = choose|i: int| 0 <= i < f.skip(1).len() && (#[trigger] f.skip(1)[i]).0 == name;
        assert(f[i + 1].0 == name);
    }
}

/// The names of what is staged are names of entries.
pub proof fn lemma_staged_names()
    ensures
        path::is_plain(bytes::text("link"@)),
        path::is_plain(bytes::text("snapshot"@)),
{
    reveal_strlit("link");
    reveal_strlit("snapshot");
    vstd::utf8::is_ascii_chars_encode_utf8("link"@);
    vstd::utf8::is_ascii_chars_encode_utf8("snapshot"@);
    let (a, b) = (bytes::text("link"@), bytes::text("snapshot"@));
    assert(a.len() == 4 && b.len() == 8);
    assert forall|i: int| 0 <= i < a.len() implies a[i] != bytes::SLASH by {
        assert(a[i] == "link"@[i] as u8);
    }
    assert forall|i: int| 0 <= i < b.len() implies b[i] != bytes::SLASH by {
        assert(b[i] == "snapshot"@[i] as u8);
    }
}

/// Putting a link at an entry of a directory leaves it there.
proof fn lemma_link(w: Disk, target: Seq<u8>, dir: Seq<u8>, name: Seq<u8>)
    requires
        w.sound(),
        path::is_plain(name),
    ensures
        atomic::link_program(target, path::join(dir, name)).meets(
            w,
            |v: Disk, r: Result<(), Trouble>|
                v.sound() && (r is Ok ==> v.at(path::join(dir, name)) == Some(
                    Object::Symlink(target),
                ) && w.same_but(path::components(path::join(dir, name)), v)),
        ),
{
    let p = path::join(dir, name);
    let c = path::components(p);
    path::lemma_parent(dir, name);
    path::lemma_entry(dir, name);
    lemma_staged_names();
    let d = path::parent(p)->Some_0;
    let post = |v: Disk, r: Result<(), Trouble>|
        v.sound() && (r is Ok ==> v.at(p) == Some(Object::Symlink(target)) && w.same_but(c, v));
    assert forall|t: Seq<u8>, mode: u32, w1: Disk| #[trigger]
        disk::creates(w, d, t, Object::Directory(mode), w1)
            && w1.sound() implies atomic::cleaned(
        t,
        atomic::link_body(target, p, d, t),
    ).meets(w1, post) by {
        let staged = atomic::staged_link(t);
        path::lemma_entry(t, bytes::text("link"@));
        let a = path::components(staged);
        let k = path::components(t);
        lemma_below_push(k, Component::Normal(bytes::text("link"@)));
        let n = choose|n: Seq<u8>| #[trigger]
            path::is_plain(n) && k == path::components(d).push(Component::Normal(n));
        let mid = |v: Disk, r: Result<(), Trouble>|
            v.sound() && (r is Ok ==> !disk::below(k, c) && v.get(c) == Some(Object::Symlink(target)) && forall|
                j: Spot,
            |
                #![trigger v.get(j)]
                !disk::below(c, j) && !disk::below(k, j) ==> v.get(j) == w.get(j));
        assert(atomic::link_body(target, p, d, t).meets(w1, mid)) by {
            assert forall|w2: Disk, w3: Disk|
                w1.with(a, Object::Symlink(target), w2) && #[trigger] disk::renames(w2, a, c, w3)
                    && w3.sound() implies mid(w3, Ok(())) by {
                assert(a != c) by {
                    assert(a.len() == c.len() + 1);
                }
                assert(a + c.skip(c.len() as int) =~= a);
                assert(c.take(c.len() as int) =~= c);
                assert(w3.get(c) == w2.get(a + c.skip(c.len() as int)));
                if disk::below(k, c) {
                    assert(c.take(k.len() as int) =~= c);
                    assert(disk::below(c, a));
                }
                assert forall|j: Spot|
                    #![trigger w3.get(j)]
                    !disk::below(c, j) && !disk::below(k, j) implies w3.get(j) == w.get(j) by {
                    if disk::below(a, j) {
                        lemma_below_trans(k, a, j);
                    }
                    assert(j != a);
                    assert(j != k) by {
                        lemma_below_push(j, Component::Root);
                    }
                }
            }
        }
        assert forall|v: Disk, r: Result<(), Trouble>, u: Disk|
            #![trigger mid(v, r), v.without(k, u)]
            mid(v, r) && v.without(k, u) && u.sound() implies post(u, r) by {
            assert forall|j: Spot|
                #![trigger u.get(j)]
                r is Ok && !disk::below(c, j) implies u.get(j) == w.get(j) by {
                if disk::below(k, j) {
                    lemma_void(w, k, j);
                }
            }
        }
    }
}

/// Putting a copy at an entry of a directory leaves it there.
proof fn lemma_copy(w: Disk, source: Seq<u8>, mode: u32, dir: Seq<u8>, name: Seq<u8>, root: Spot)
    requires
        w.sound(),
        path::is_plain(name),
        is_mode(mode),
        disk::is_file(w.at(source)),
        disk::apart(path::components(source), root),
        disk::below(root, path::components(path::join(dir, name))),
    ensures
        atomic::copy_program(source, path::join(dir, name), mode).meets(
            w,
            made(w, Node::Copy { source, mode }, path::join(dir, name)),
        ),
{
    let p = path::join(dir, name);
    let c = path::components(p);
    let s = path::components(source);
    path::lemma_parent(dir, name);
    path::lemma_entry(dir, name);
    let d = path::parent(p)->Some_0;
    let node = Node::Copy { source, mode };
    let post = made(w, node, p);
    lemma_below_push(path::components(dir), Component::Normal(name));
    assert(c.take(c.len() as int) =~= c);
    assert forall|t: Seq<u8>, m: u32, w1: Disk| #[trigger]
        disk::creates(w, d, t, Object::File(Seq::empty(), m), w1)
            && w1.sound() implies atomic::cleaned_on_failure(
        t,
        atomic::copy_body(source, p, mode, t),
        atomic::sync_program(d),
    ).meets(w1, post) by {
        let k = path::components(t);
        let n = choose|n: Seq<u8>| #[trigger]
            path::is_plain(n) && k == path::components(d).push(Component::Normal(n));
        lemma_apart_fresh(w, dir, name, Component::Normal(n), s, root);
        lemma_apart_below(s, root, c);
        assert(s.take(s.len() as int) =~= s);
        assert(s != k && s != c);
        assert forall|data: Seq<u8>, m: u32, w2: Disk, w3: Disk, w4: Disk|
            #![trigger w1.with(k, Object::File(data, m), w2), w2.with(k, Object::File(data, mode), w3), disk::renames(w3, k, c, w4)]
            w1.with(k, Object::File(data, m), w2) && w2.with(k, Object::File(data, mode), w3)
                && disk::renames(w3, k, c, w4) && w4.sound() && (w1.at(source) matches Some(
                Object::File(found, _),
            ) ==> data == found) implies post(w4, Ok(())) by {
            assert(k + c.skip(c.len() as int) =~= k);
            if k != c {
                assert(w4.get(c) == w3.get(k + c.skip(c.len() as int)));
            }
            assert(w4.at(source) == w.at(source));
            assert forall|j: Spot|
                #![trigger w4.get(j)]
                !disk::below(c, j) implies w4.get(j) == w.get(j) by {
                if disk::below(k, j) {
                    lemma_void(w, k, j);
                }
                if j == k {
                    assert(j.take(j.len() as int) =~= j);
                }
            }
        }
    }
}

/// Giving a directory its permissions changes nothing else.
pub proof fn lemma_seal(w: Disk, p: Seq<u8>, mode: u32)
    requires
        w.sound(),
        is_mode(mode),
        disk::is_directory(w.at(p)),
    ensures
        placing::seal_program(p, mode).meets(
            w,
            |v: Disk, r: Result<(), Trouble>|
                v.sound() && (r is Ok ==> w.with(
                    path::components(p),
                    Object::Directory(mode),
                    v,
                )),
        ),
{
}

/// Whether nothing but files, directories and symbolic links stands at `s` and below.
pub open spec fn ordinary(w: Disk, s: Spot) -> bool {
    forall|rest: Spot| #![trigger w.get(s + rest)] !(w.get(s + rest) matches Some(Object::Other(_)))
}

/// Whether a place belongs to one of the named entries at `c`.
pub open spec fn named_below(names: Seq<Seq<u8>>, c: Spot, j: Spot) -> bool {
    exists|i: int|
        #![trigger names[i]]
        0 <= i < names.len() && disk::below(c.push(Component::Normal(names[i])), j)
}

/// That a disk is sound and, if the operation succeeded, a copy of what stands at `s` stands at
/// `t`, and nothing changed outside.
pub open spec fn copied(w: Disk, s: Spot, t: Spot) -> spec_fn(Disk, Result<(), Trouble>) -> bool {
    |v: Disk, r: Result<(), Trouble>|
        v.sound() && (r is Ok ==> disk::mirrored(w, s, v, t) && w.same_but(t, v))
}

/// That a disk is sound and, if the operation succeeded, copies of the named entries at `s` stand
/// at `t`, and nothing changed outside.
pub open spec fn names_copied(w: Disk, s: Spot, t: Spot, names: Seq<Seq<u8>>) -> spec_fn(
    Disk,
    Result<(), Trouble>,
) -> bool {
    |v: Disk, r: Result<(), Trouble>|
        v.sound() && (r is Ok ==> {
            &&& forall|i: int|
                #![trigger names[i]]
                0 <= i < names.len() ==> disk::mirrored(
                    w,
                    s.push(Component::Normal(names[i])),
                    v,
                    t.push(Component::Normal(names[i])),
                )
            &&& forall|j: Spot|
                #![trigger v.get(j)]
                !named_below(names, t, j) ==> v.get(j) == w.get(j)
        })
}

/// What stands where no directory stands is a copy if its object is.
proof fn lemma_mirror_leaf(w: Disk, s: Spot, v: Disk, t: Spot)
    requires
        w.sound(),
        v.sound(),
        s.len() > 0,
        t.len() > 0,
        !disk::is_directory(w.get(s)),
        !disk::is_directory(v.get(t)),
        disk::mirror(w.get(s), v.get(t)),
    ensures
        disk::mirrored(w, s, v, t),
{
    let none = Seq::<Component<Seq<u8>>>::empty();
    assert(s + none =~= s);
    assert(t + none =~= t);
    assert forall|rest: Spot| #![trigger v.get(t + rest)] disk::mirror(
        w.get(s + rest),
        v.get(t + rest),
    ) by {
        if rest.len() == 0 {
            assert(rest =~= none);
        } else {
            assert(rest.take(0) =~= none);
            standing::lemma_leaf(w, s, none, rest);
            standing::lemma_leaf(v, t, none, rest);
        }
    }
}

/// What stands at an entry and below is ordinary if all is.
proof fn lemma_ordinary_entry(w: Disk, s: Spot, x: Component<Seq<u8>>)
    requires
        ordinary(w, s),
    ensures
        ordinary(w, s.push(x)),
{
    assert forall|rest: Spot|
        #![trigger w.get(s.push(x) + rest)]
        !(w.get(s.push(x) + rest) matches Some(Object::Other(_))) by {
        assert(s.push(x) + rest =~= s + (seq![x] + rest));
        assert(!(w.get(s + (seq![x] + rest)) matches Some(Object::Other(_))));
    }
}

/// Entries of places that are apart are apart.
proof fn lemma_apart_entries(s: Spot, t: Spot, x: Component<Seq<u8>>)
    requires
        disk::apart(s, t),
    ensures
        disk::apart(s.push(x), t.push(x)),
        disk::apart(s, t.push(x)),
{
    lemma_below_push(s, x);
    lemma_below_push(t, x);
    if disk::below(s.push(x), t.push(x)) {
        lemma_below_trans(s, s.push(x), t.push(x));
        lemma_below_both(s, t, t.push(x));
    }
    if disk::below(t.push(x), s.push(x)) {
        lemma_below_trans(t, t.push(x), s.push(x));
        lemma_below_both(s, t, s.push(x));
    }
    if disk::below(s, t.push(x)) {
        lemma_below_both(s, t, t.push(x));
    }
    if disk::below(t.push(x), s) {
        lemma_below_trans(t, t.push(x), s);
    }
}

/// Copying leaves a copy.
pub proof fn lemma_copy_entry(w: Disk, source: Seq<u8>, target: Seq<u8>)
    requires
        w.sound(),
        path::components(source).len() > 0,
        path::components(target).len() > 0,
        disk::apart(path::components(source), path::components(target)),
        w.at(target) is None,
        ordinary(w, path::components(source)),
    ensures
        placing::copy_entry_program(source, target).meets(
            w,
            copied(w, path::components(source), path::components(target)),
        ),
    decreases usize::MAX - source.len(), 1int, 0int,
{
    let (s, t) = (path::components(source), path::components(target));
    let none = Seq::<Component<Seq<u8>>>::empty();
    let post = copied(w, s, t);
    assert(s + none =~= s);
    assert(t.take(t.len() as int) =~= t);
    assert(!(w.get(s + none) matches Some(Object::Other(_))));
    assert forall|o: Object, v: Disk|
        #![trigger w.with(t, o, v)]
        w.with(t, o, v) && v.sound() && !(o is Directory) && disk::mirror(w.get(s), Some(o)) implies post(
        v,
        Ok(()),
    ) by {
        assert(v.get(t) == Some(o));
        lemma_mirror_leaf(w, s, v, t);
    }
    if disk::is_directory(w.get(s)) {
        assert forall|mode: u32, w1: Disk, names: Seq<Seq<u8>>|
            #![trigger w.with(t, Object::Directory(mode), w1), w1.lists(s, names)]
            w.with(t, Object::Directory(mode), w1) && w1.sound() && w1.lists(s, names)
                && crate::host::all_plain(names) implies placing::copy_names_program(
            source,
            target,
            names,
        ).meets(w1, post) by {
            assert forall|rest: Spot| #![trigger w1.get(s + rest)] w1.get(s + rest) == w.get(
                s + rest,
            ) by {
                lemma_away(s, t, rest);
                if s + rest == t {
                    assert(disk::below(t, s + rest));
                }
            }
            assert(w1.get(s + none) == w.get(s + none));
            assert forall|i: int|
                #![trigger names[i]]
                0 <= i < names.len() implies w1.get(t.push(Component::Normal(names[i]))) is None by {
                let x = Component::Normal(names[i]);
                lemma_below_push(t, x);
                lemma_void(w, t, t.push(x));
                assert(t.push(x).len() != t.len());
            }
            assert forall|rest: Spot|
                #![trigger w1.get(t + rest)]
                rest.len() > 0 implies w1.get(t + rest) is None by {
                assert((t + rest).take(t.len() as int) =~= t);
                lemma_void(w, t, t + rest);
                assert(t + rest != t) by {
                    assert((t + rest).len() > t.len());
                }
            }
            lemma_copy_names(w1, source, target, names);
            assert forall|v: Disk, r: Result<(), Trouble>| #[trigger]
                names_copied(w1, s, t, names)(v, r) implies post(v, r) by {
                if r is Ok {
                    lemma_directory_mirrored(w1, s, v, t, names);
                    assert forall|rest: Spot| #![trigger v.get(t + rest)] disk::mirror(
                        w.get(s + rest),
                        v.get(t + rest),
                    ) by {
                        assert(w1.get(s + rest) == w.get(s + rest));
                    }
                    assert forall|j: Spot|
                        #![trigger v.get(j)]
                        !disk::below(t, j) implies v.get(j) == w.get(j) by {
                        if named_below(names, t, j) {
                            let i = choose|i: int|
                                #![trigger names[i]]
                                0 <= i < names.len() && disk::below(
                                    t.push(Component::Normal(names[i])),
                                    j,
                                );
                            lemma_below_push(t, Component::Normal(names[i]));
                            lemma_below_trans(t, t.push(Component::Normal(names[i])), j);
                        }
                        assert(j != t);
                        assert(w1.get(j) == w.get(j));
                    }
                }
            }
        }
    }
}

/// A directory with copies of all entries is a copy.
proof fn lemma_directory_mirrored(w: Disk, s: Spot, v: Disk, t: Spot, names: Seq<Seq<u8>>)
    requires
        w.sound(),
        v.sound(),
        s.len() > 0,
        t.len() > 0,
        w.lists(s, names),
        crate::host::all_plain(names),
        disk::is_directory(w.get(s)),
        disk::is_directory(w.get(t)),
        forall|rest: Spot|
            #![trigger w.get(t + rest)]
            rest.len() > 0 ==> w.get(t + rest) is None,
        names_copied(w, s, t, names)(v, Ok(())),
    ensures
        disk::mirrored(w, s, v, t),
{
    assert forall|rest: Spot| #![trigger v.get(t + rest)] disk::mirror(
        w.get(s + rest),
        v.get(t + rest),
    ) by {
        if rest.len() == 0 {
            assert(s + rest =~= s);
            assert(t + rest =~= t);
            if named_below(names, t, t) {
                let i = choose|i: int|
                    #![trigger names[i]]
                    0 <= i < names.len() && disk::below(t.push(Component::Normal(names[i])), t);
                assert(t.push(Component::Normal(names[i])).len() <= t.len());
            }
        } else {
            let x = rest[0];
            let tail = rest.skip(1);
            assert(s.push(x) + tail =~= s + rest);
            assert(t.push(x) + tail =~= t + rest);
            if exists|i: int|
                #![trigger names[i]]
                0 <= i < names.len() && Component::Normal(names[i]) == x {
                let i = choose|i: int|
                    #![trigger names[i]]
                    0 <= i < names.len() && Component::Normal(names[i]) == x;
                assert(disk::mirrored(w, s.push(x), v, t.push(x)));
                assert(disk::mirror(w.get(s.push(x) + tail), v.get(t.push(x) + tail)));
            } else {
                if w.get(s + rest) is Some {
                    assert(rest.take(1) =~= seq![x]);
                    standing::lemma_ancestor(w, s, seq![x], rest);
                    assert(s + seq![x] =~= s.push(x));
                    let name = x->Normal_0;
                    assert(names.contains(name));
                    let i = choose|i: int| 0 <= i < names.len() && names[i] == name;
                    assert(Component::Normal(names[i]) == x);
                }
                if named_below(names, t, t + rest) {
                    let i = choose|i: int|
                        #![trigger names[i]]
                        0 <= i < names.len() && disk::below(
                            t.push(Component::Normal(names[i])),
                            t + rest,
                        );
                    assert((t + rest).take(t.push(x).len() as int) =~= t.push(x));
                    assert(t.push(Component::Normal(names[i])).last() == x);
                }
                assert(w.get(t + rest) is None);
            }
        }
    }
}

#[verifier::rlimit(30)]
proof fn lemma_copy_names(w: Disk, source: Seq<u8>, target: Seq<u8>, names: Seq<Seq<u8>>)
    requires
        w.sound(),
        path::components(source).len() > 0,
        path::components(target).len() > 0,
        disk::apart(path::components(source), path::components(target)),
        ordinary(w, path::components(source)),
        crate::host::all_plain(names),
        names.no_duplicates(),
        forall|i: int|
            #![trigger names[i]]
            0 <= i < names.len() ==> w.get(
                path::components(target).push(Component::Normal(names[i])),
            ) is None,
    ensures
        placing::copy_names_program(source, target, names).meets(
            w,
            names_copied(w, path::components(source), path::components(target), names),
        ),
    decreases usize::MAX - source.len(), 0int, names.len(),
{
    let (s, t) = (path::components(source), path::components(target));
    let post = names_copied(w, s, t, names);
    if names.len() > 0 {
        let x = Component::Normal(names[0]);
        assert(path::is_plain(names[0]));
        path::lemma_entry(source, names[0]);
        path::lemma_entry(target, names[0]);
        lemma_apart_entries(s, t, x);
        lemma_ordinary_entry(w, s, x);
        let child = path::join(source, names[0]);
        if entry::deeper(source, child) {
            lemma_copy_entry(w, child, path::join(target, names[0]));
        }
        let later = names.skip(1);
        assert forall|w1: Disk, r: Result<(), Trouble>|
            #![trigger copied(w, s.push(x), t.push(x))(w1, r)]
            copied(w, s.push(x), t.push(x))(w1, r)
                && r is Ok implies placing::copy_names_program(source, target, later).meets(
            w1,
            post,
        ) by {
            assert forall|rest: Spot| #![trigger w1.get(s + rest)] w1.get(s + rest) == w.get(
                s + rest,
            ) by {
                lemma_away(s, t.push(x), rest);
            }
            assert(ordinary(w1, s)) by {
                assert forall|rest: Spot|
                    #![trigger w1.get(s + rest)]
                    !(w1.get(s + rest) matches Some(Object::Other(_))) by {
                    assert(w1.get(s + rest) == w.get(s + rest));
                }
            }
            assert forall|i: int| 0 <= i < later.len() implies path::is_plain(
                #[trigger] later[i],
            ) by {
                assert(later[i] == names[i + 1]);
            }
            assert forall|i: int|
                #![trigger later[i]]
                0 <= i < later.len() implies w1.get(t.push(Component::Normal(later[i]))) is None by {
                assert(later[i] == names[i + 1]);
                let y = Component::Normal(later[i]);
                if disk::below(t.push(x), t.push(y)) {
                    lemma_below_push(t.push(y), x);
                    lemma_siblings(t, x, y, t.push(y));
                }
            }
            lemma_copy_names(w1, source, target, later);
            assert forall|v: Disk, q: Result<(), Trouble>| #[trigger]
                names_copied(w1, s, t, later)(v, q) implies post(v, q) by {
                if q is Ok {
                    assert forall|i: int|
                        #![trigger names[i]]
                        0 <= i < names.len() implies disk::mirrored(
                        w,
                        s.push(Component::Normal(names[i])),
                        v,
                        t.push(Component::Normal(names[i])),
                    ) by {
                        let y = Component::Normal(names[i]);
                        assert forall|rest: Spot| #![trigger v.get(t.push(y) + rest)] disk::mirror(
                            w.get(s.push(y) + rest),
                            v.get(t.push(y) + rest),
                        ) by {
                            assert(s.push(y) + rest =~= s + (seq![y] + rest));
                            assert(w1.get(s + (seq![y] + rest)) == w.get(s + (seq![y] + rest)));
                            if i == 0 {
                                assert((t.push(y) + rest).take(t.push(y).len() as int) =~= t.push(y));
                                if named_below(later, t, t.push(y) + rest) {
                                    let k = choose|k: int|
                                        #![trigger later[k]]
                                        0 <= k < later.len() && disk::below(
                                            t.push(Component::Normal(later[k])),
                                            t.push(y) + rest,
                                        );
                                    lemma_siblings(
                                        t,
                                        y,
                                        Component::Normal(later[k]),
                                        t.push(y) + rest,
                                    );
                                    assert(later[k] == names[k + 1]);
                                }
                                assert(v.get(t.push(y) + rest) == w1.get(t.push(y) + rest));
                            } else {
                                assert(later[i - 1] == names[i]);
                                assert(disk::mirror(
                                    w1.get(s.push(y) + rest),
                                    v.get(t.push(y) + rest),
                                ));
                            }
                        }
                    }
                    assert forall|j: Spot|
                        #![trigger v.get(j)]
                        !named_below(names, t, j) implies v.get(j) == w.get(j) by {
                        assert(names[0] == names[0]);
                        if named_below(later, t, j) {
                            let k = choose|k: int|
                                #![trigger later[k]]
                                0 <= k < later.len() && disk::below(
                                    t.push(Component::Normal(later[k])),
                                    j,
                                );
                            assert(later[k] == names[k + 1]);
                        }
                        assert(w1.get(j) == w.get(j));
                    }
                }
            }
        }
    }
}

/// What an object becomes when it gets the recorded permissions.
pub open spec fn remoded(o: Option<Object>, mode: Option<u32>) -> Option<Object> {
    match (o, mode) {
        (Some(Object::Directory(_)), Some(m)) => Some(Object::Directory(m)),
        (Some(Object::File(data, _)), Some(m)) => Some(Object::File(data, m)),
        _ => o,
    }
}

/// Whether recorded permissions are of files and directories below `g`.
pub open spec fn modes_fit(w: Disk, g: Spot, modes: Modes) -> bool {
    forall|i: int|
        #![trigger modes[i]]
        0 <= i < modes.len() ==> disk::is_directory(w.get(g + path::components(modes[i].0)))
            || disk::is_file(w.get(g + path::components(modes[i].0)))
}

/// That a disk is sound and, if the operation succeeded, what lies below `g` has the recorded
/// permissions, and nothing else changed.
pub open spec fn moded(w: Disk, g: Spot, modes: Modes) -> spec_fn(Disk, Result<(), Trouble>) -> bool {
    |v: Disk, r: Result<(), Trouble>|
        v.sound() && (r is Ok ==> w.same_but(g, v) && forall|rest: Spot|
            #![trigger v.get(g + rest)]
            v.get(g + rest) == remoded(w.get(g + rest), standing::mode_of(modes, rest)))
}

/// Of different paths the last is found if none before it is meant.
proof fn lemma_mode_last(modes: Modes, rest: Spot)
    requires
        modes.len() > 0,
        modes_proper(modes),
    ensures
        standing::mode_of(modes, rest) == (if path::components(modes.last().0) == rest {
            Some(modes.last().1)
        } else {
            standing::mode_of(modes.drop_last(), rest)
        }),
    decreases modes.len(),
{
    let last = modes.len() - 1;
    if modes.len() == 1 {
        assert(modes.skip(1).len() == 0);
        assert(modes.drop_last().len() == 0);
    } else {
        lemma_modes_rest(modes);
        lemma_mode_last(modes.skip(1), rest);
        assert(modes.skip(1).last() == modes.last());
        assert(modes.drop_last()[0] == modes[0]);
        assert(modes.skip(1).drop_last() =~= modes.drop_last().skip(1));
        assert(!path::equal(modes[0].0, modes[last].0));
    }
}

pub proof fn lemma_modes_rest(modes: Modes)
    requires
        modes_proper(modes),
        modes.len() > 0,
    ensures
        modes_proper(modes.skip(1)),
        modes_proper(modes.drop_last()),
{
    let a = modes.skip(1);
    let b = modes.drop_last();
    assert forall|i: int| #![trigger a[i]] 0 <= i < a.len() implies path::relative(a[i].0) && is_mode(
        a[i].1,
    ) by {
        assert(a[i] == modes[i + 1]);
    }
    assert forall|i: int, j: int|
        #![trigger a[i], a[j]]
        0 <= i < j < a.len() implies !path::equal(a[i].0, a[j].0) by {
        assert(a[i] == modes[i + 1] && a[j] == modes[j + 1]);
    }
    assert forall|i: int| #![trigger b[i]] 0 <= i < b.len() implies path::relative(b[i].0) && is_mode(
        b[i].1,
    ) by {
        assert(b[i] == modes[i]);
    }
    assert forall|i: int, j: int|
        #![trigger b[i], b[j]]
        0 <= i < j < b.len() implies !path::equal(b[i].0, b[j].0) by {
        assert(b[i] == modes[i] && b[j] == modes[j]);
    }
}

/// Giving what stands at `base` the recorded permissions does so.
proof fn lemma_modes(w: Disk, base: Seq<u8>, modes: Modes)
    requires
        w.sound(),
        modes_proper(modes),
        modes_fit(w, path::components(base), modes),
    ensures
        placing::modes_program(base, modes).meets(w, moded(w, path::components(base), modes)),
    decreases modes.len(),
{
    let g = path::components(base);
    let post = moded(w, g, modes);
    if modes.len() > 0 {
        let last = modes[modes.len() - 1];
        let at = g + path::components(last.0);
        standing::lemma_spot(base, last.0);
        lemma_modes_rest(modes);
        let before = modes.drop_last();
        assert(at.take(g.len() as int) =~= g);
        assert forall|o: Object, w1: Disk|
            #![trigger w.with(at, o, w1)]
            w.with(at, o, w1) && w1.sound() && Some(o) == remoded(
                w.get(at),
                Some(last.1),
            ) implies placing::modes_program(base, before).meets(w1, post) by {
            assert forall|i: int| #![trigger before[i]] 0 <= i < before.len() implies disk::is_directory(
                w1.get(g + path::components(before[i].0)),
            ) || disk::is_file(w1.get(g + path::components(before[i].0))) by {
                assert(before[i] == modes[i]);
            }
            lemma_modes(w1, base, before);
            assert forall|v: Disk, r: Result<(), Trouble>| #[trigger]
                moded(w1, g, before)(v, r) implies post(v, r) by {
                if r is Ok {
                    assert forall|rest: Spot| #![trigger v.get(g + rest)] v.get(g + rest) == remoded(
                        w.get(g + rest),
                        standing::mode_of(modes, rest),
                    ) by {
                        lemma_mode_last(modes, rest);
                        lemma_mode_differs(before, last.0, modes);
                        if g + rest == at {
                            assert((g + rest).skip(g.len() as int) =~= rest);
                            assert(at.skip(g.len() as int) =~= path::components(last.0));
                        }
                    }
                    assert forall|j: Spot| #![trigger v.get(j)] !disk::below(g, j) implies v.get(j)
                        == w.get(j) by {
                        assert(j != at);
                        assert(w1.get(j) == w.get(j));
                    }
                }
            }
        }
    } else {
        assert forall|rest: Spot| #![trigger w.get(g + rest)] w.get(g + rest) == remoded(
            w.get(g + rest),
            standing::mode_of(modes, rest),
        ) by {}
    }
}

/// The last path is not found among those before it.
proof fn lemma_mode_differs(before: Modes, rel: Seq<u8>, modes: Modes)
    requires
        modes.len() > 0,
        modes_proper(modes),
        before == modes.drop_last(),
        rel == modes.last().0,
    ensures
        standing::mode_of(before, path::components(rel)) is None,
{
    assert forall|i: int| #![trigger before[i]] 0 <= i < before.len() implies !path::equal(
        before[i].0,
        rel,
    ) by {
        assert(before[i] == modes[i]);
        assert(modes[modes.len() - 1].0 == rel);
    }
    lemma_mode_none(before, path::components(rel));
}

pub proof fn lemma_mode_none(modes: Modes, rest: Spot)
    requires
        forall|i: int|
            #![trigger modes[i]]
            0 <= i < modes.len() ==> path::components(modes[i].0) != rest,
    ensures
        standing::mode_of(modes, rest) is None,
    decreases modes.len(),
{
    if modes.len() > 0 {
        assert(path::components(modes[0].0) != rest);
        let later = modes.skip(1);
        assert forall|i: int| #![trigger later[i]] 0 <= i < later.len() implies path::components(
            later[i].0,
        ) != rest by {
            assert(later[i] == modes[i + 1]);
        }
        lemma_mode_none(later, rest);
    }
}

/// What is recorded is found.
pub proof fn lemma_mode_some(modes: Modes, i: int)
    requires
        0 <= i < modes.len(),
    ensures
        standing::mode_of(modes, path::components(modes[i].0)) is Some,
    decreases modes.len(),
{
    if i > 0 {
        assert(modes.skip(1)[i - 1] == modes[i]);
        lemma_mode_some(modes.skip(1), i - 1);
    }
}

/// A place below `root` is apart from what is apart from `root`.
pub proof fn lemma_apart_below(s: Spot, root: Spot, k: Spot)
    requires
        disk::apart(s, root),
        disk::below(root, k),
    ensures
        disk::apart(s, k),
{
    if disk::below(s, k) {
        lemma_below_both(s, root, k);
    }
    if disk::below(k, s) {
        lemma_below_trans(root, k, s);
    }
}

/// That a disk is sound and, if the operation succeeded, a backup stands at `c`, and nothing
/// changed but there and at `k`.
pub open spec fn restored(w: Disk, s: Spot, c: Spot, k: Spot, modes: Modes) -> spec_fn(
    Disk,
    Result<(), Trouble>,
) -> bool {
    |v: Disk, r: Result<(), Trouble>|
        v.sound() && (r is Ok ==> {
            &&& !disk::below(k, c)
            &&& forall|rest: Spot|
                #![trigger v.get(c + rest)]
                standing::twin(w.get(s + rest), v.get(c + rest), standing::mode_of(modes, rest))
            &&& forall|j: Spot|
                #![trigger v.get(j)]
                !disk::below(c, j) && !disk::below(k, j) ==> v.get(j) == w.get(j)
        })
}

/// Whether `t` is a new directory beside the entry at `p`, made on `w` and there on `v`, in which
/// the backup is to be put together.
pub open spec fn is_stage(w: Disk, v: Disk, p: Seq<u8>, t: Seq<u8>) -> bool {
    &&& v.sound()
    &&& path::parent(p) matches Some(d) && exists|mode: u32| #[trigger]
        disk::creates(w, d, t, Object::Directory(mode), v)
}

/// A copy of a backup is one to which the permissions can be given.
pub proof fn lemma_copy_fits(w1: Disk, w2: Disk, s: Spot, g: Spot, modes: Modes)
    requires
        forall|rest: Spot| #![trigger w1.get(s + rest)]
            standing::mode_of(modes, rest) is Some ==> disk::is_directory(w1.get(s + rest))
                || disk::is_file(w1.get(s + rest)),
        disk::mirrored(w1, s, w2, g),
    ensures
        modes_fit(w2, g, modes),
{
    assert forall|i: int| #![trigger modes[i]] 0 <= i < modes.len() implies disk::is_directory(
        w2.get(g + path::components(modes[i].0)),
    ) || disk::is_file(w2.get(g + path::components(modes[i].0))) by {
        let rest = path::components(modes[i].0);
        lemma_mode_some(modes, i);
        assert(disk::mirror(w1.get(s + rest), w2.get(g + rest)));
    }
}

/// What stands apart from an entry of a directory stands apart from a new entry too.
pub proof fn lemma_apart_fresh(
    w: Disk,
    dir: Seq<u8>,
    name: Seq<u8>,
    x: Component<Seq<u8>>,
    s: Spot,
    root: Spot,
)
    requires
        w.sound(),
        path::is_plain(name),
        disk::below(root, path::components(path::join(dir, name))),
        disk::apart(s, root),
        w.get(s) is Some,
        w.get(path::components(dir).push(x)) is None,
    ensures
        disk::apart(s, path::components(dir).push(x)),
{
    let d = path::components(dir);
    let c = path::components(path::join(dir, name));
    let k = d.push(x);
    path::lemma_entry(dir, name);
    lemma_apart_below(s, root, c);
    if disk::below(k, s) {
        lemma_void(w, k, s);
    }
    if disk::below(s, k) {
        if s.len() == k.len() {
            assert(k.take(s.len() as int) =~= k);
        } else {
            assert(c.take(s.len() as int) =~= k.take(s.len() as int));
        }
    }
}

/// What is known where a backup is put together: what it is made from is there, and nothing
/// stands at the place of the copy.
pub proof fn lemma_stage(
    w: Disk,
    w1: Disk,
    source: Seq<u8>,
    modes: Modes,
    dir: Seq<u8>,
    name: Seq<u8>,
    t: Seq<u8>,
    root: Spot,
)
    requires
        w.sound(),
        path::is_plain(name),
        kept(w, source, modes, root),
        disk::below(root, path::components(path::join(dir, name))),
        is_stage(w, w1, path::join(dir, name), t),
    ensures
        path::components(source).len() > 0,
        path::components(t).len() == path::components(dir).len() + 1,
        disk::below(path::components(dir), path::components(t)),
        path::components(placing::staged_snapshot(t)) == path::components(t).push(
            Component::Normal(bytes::text("snapshot"@)),
        ),
        disk::apart(path::components(source), path::components(t)),
        disk::apart(path::components(source), path::components(placing::staged_snapshot(t))),
        forall|rest: Spot|
            #![trigger w1.get(path::components(source) + rest)]
            w1.get(path::components(source) + rest) == w.get(path::components(source) + rest),
        ordinary(w1, path::components(source)),
        w1.at(placing::staged_snapshot(t)) is None,
        forall|j: Spot| #![trigger w1.get(j)] j != path::components(t) ==> w1.get(j) == w.get(j),
        w.at(t) is None,
{
    let p = path::join(dir, name);
    let s = path::components(source);
    let none = Seq::<Component<Seq<u8>>>::empty();
    path::lemma_parent(dir, name);
    lemma_staged_names();
    let d = path::parent(p)->Some_0;
    assert(s.len() > 0) by {
        if s.len() == 0 {
            assert(s =~= none);
        }
    }
    let y = Component::Normal(bytes::text("snapshot"@));
    path::lemma_entry(t, bytes::text("snapshot"@));
    let g = path::components(placing::staged_snapshot(t));
    let k = path::components(t);
    let n = choose|n: Seq<u8>| #[trigger]
        path::is_plain(n) && k == path::components(d).push(Component::Normal(n));
    lemma_below_push(k, y);
    lemma_below_push(path::components(dir), Component::Normal(n));
    lemma_apart_fresh(w, dir, name, Component::Normal(n), s, root);
    assert(disk::apart(s, g)) by {
        if disk::below(g, s) {
            lemma_below_trans(k, g, s);
        }
        if disk::below(s, g) {
            if s.len() == g.len() {
                assert(g.take(s.len() as int) =~= g);
                lemma_void(w, k, g);
            } else {
                assert(k.take(s.len() as int) =~= g.take(s.len() as int));
            }
        }
    }
    assert forall|rest: Spot| #![trigger w1.get(s + rest)] w1.get(s + rest) == w.get(s + rest) by {
        lemma_away(s, k, rest);
        if s + rest == k {
            assert(disk::below(k, s + rest));
        }
    }
    assert forall|rest: Spot|
        #![trigger w1.get(s + rest)]
        !(w1.get(s + rest) matches Some(Object::Other(_))) by {
        assert(w1.get(s + rest) == w.get(s + rest));
    }
    lemma_void(w, k, g);
    assert(g.len() != k.len());
}

/// Putting a backup together beside its place and moving it there leaves it there.
#[verifier::rlimit(30)]
proof fn lemma_restore_body(
    w: Disk,
    w1: Disk,
    source: Seq<u8>,
    modes: Modes,
    dir: Seq<u8>,
    name: Seq<u8>,
    t: Seq<u8>,
    root: Spot,
)
    requires
        w.sound(),
        path::is_plain(name),
        modes_proper(modes),
        kept(w, source, modes, root),
        disk::below(root, path::components(path::join(dir, name))),
        is_stage(w, w1, path::join(dir, name), t),
    ensures
        placing::restore_body(
            source,
            modes,
            path::join(dir, name),
            path::parent(path::join(dir, name))->Some_0,
            t,
        ).meets(
            w1,
            restored(
                w,
                path::components(source),
                path::components(path::join(dir, name)),
                path::components(t),
                modes,
            ),
        ),
{
    let p = path::join(dir, name);
    let (c, s, k) = (path::components(p), path::components(source), path::components(t));
    let staged = placing::staged_snapshot(t);
    let g = path::components(staged);
    let y = Component::Normal(bytes::text("snapshot"@));
    let mid = restored(w, s, c, k, modes);
    path::lemma_parent(dir, name);
    path::lemma_entry(dir, name);
    lemma_stage(w, w1, source, modes, dir, name, t, root);
    lemma_below_push(k, y);
    lemma_copy_entry(w1, source, staged);
    assert forall|w2: Disk, r: Result<(), Trouble>| #[trigger]
        copied(w1, s, g)(w2, r) && r is Ok implies placing::modes_program(staged, modes).meets(
        w2,
        moded(w2, g, modes),
    ) by {
        lemma_copy_fits(w1, w2, s, g, modes);
        lemma_modes(w2, staged, modes);
    }
    assert forall|w2: Disk, q: Result<(), Trouble>, w3: Disk, r: Result<(), Trouble>, w4: Disk|
        #![trigger copied(w1, s, g)(w2, q), moded(w2, g, modes)(w3, r), disk::renames(w3, g, c, w4)]
        copied(w1, s, g)(w2, q) && q is Ok && moded(w2, g, modes)(w3, r) && r is Ok
            && disk::renames(w3, g, c, w4) && w4.sound() implies mid(w4, Ok(())) by {
        lemma_moved_in(w, w1, w2, w3, w4, s, c, k, y, modes);
    }
}

/// A copy of a backup that got its permissions and was moved to its place is the backup.
proof fn lemma_moved_in(
    w: Disk,
    w1: Disk,
    w2: Disk,
    w3: Disk,
    w4: Disk,
    s: Spot,
    c: Spot,
    k: Spot,
    y: Component<Seq<u8>>,
    modes: Modes,
)
    requires
        w4.sound(),
        k.len() == c.len(),
        forall|rest: Spot| #![trigger w1.get(s + rest)] w1.get(s + rest) == w.get(s + rest),
        forall|j: Spot| #![trigger w1.get(j)] j != k ==> w1.get(j) == w.get(j),
        copied(w1, s, k.push(y))(w2, Ok(())),
        moded(w2, k.push(y), modes)(w3, Ok(())),
        disk::renames(w3, k.push(y), c, w4),
        forall|rest: Spot|
            #![trigger w.get(s + rest)]
            match w.get(s + rest) {
                Some(Object::Directory(_)) => standing::mode_of(modes, rest) is Some,
                Some(Object::File(_, _)) => standing::mode_of(modes, rest) is Some,
                Some(Object::Symlink(_)) => standing::mode_of(modes, rest) is None,
                Some(Object::Other(_)) => false,
                None => standing::mode_of(modes, rest) is None,
            },
    ensures
        restored(w, s, c, k, modes)(w4, Ok(())),
{
    let g = k.push(y);
    lemma_below_push(k, y);
    assert(g != c) by {
        assert(g.len() == c.len() + 1);
    }
    if disk::below(k, c) {
        assert(c.take(k.len() as int) =~= c);
        assert(disk::below(c, g));
    }
    assert forall|rest: Spot| #![trigger w4.get(c + rest)] standing::twin(
        w.get(s + rest),
        w4.get(c + rest),
        standing::mode_of(modes, rest),
    ) by {
        assert((c + rest).take(c.len() as int) =~= c);
        assert((c + rest).skip(c.len() as int) =~= rest);
        assert(w4.get(c + rest) == w3.get(g + rest));
        assert(w1.get(s + rest) == w.get(s + rest));
        assert(disk::mirror(w1.get(s + rest), w2.get(g + rest)));
    }
    assert forall|j: Spot|
        #![trigger w4.get(j)]
        !disk::below(c, j) && !disk::below(k, j) implies w4.get(j) == w.get(j) by {
        if disk::below(g, j) {
            lemma_below_trans(k, g, j);
        }
        assert(w3.get(j) == w2.get(j));
        assert(w2.get(j) == w1.get(j));
        assert(j != k) by {
            lemma_below_push(j, y);
        }
    }
}

/// Putting a backup at an entry of a directory leaves it there.
#[verifier::rlimit(30)]
proof fn lemma_restore(
    w: Disk,
    source: Seq<u8>,
    modes: Modes,
    dir: Seq<u8>,
    name: Seq<u8>,
    root: Spot,
)
    requires
        w.sound(),
        path::is_plain(name),
        modes_proper(modes),
        kept(w, source, modes, root),
        disk::below(root, path::components(path::join(dir, name))),
    ensures
        placing::restore_program(source, modes, path::join(dir, name)).meets(
            w,
            made(w, Node::Snapshot { source, modes }, path::join(dir, name)),
        ),
{
    let p = path::join(dir, name);
    let c = path::components(p);
    let s = path::components(source);
    let none = Seq::<Component<Seq<u8>>>::empty();
    path::lemma_parent(dir, name);
    path::lemma_entry(dir, name);
    let d = path::parent(p)->Some_0;
    let post = made(w, Node::Snapshot { source, modes }, p);
    assert forall|t: Seq<u8>, mode: u32, w1: Disk| #[trigger]
        disk::creates(w, d, t, Object::Directory(mode), w1)
            && w1.sound() implies atomic::cleaned(
        t,
        placing::restore_body(source, modes, p, d, t),
    ).meets(w1, post) by {
        let k = path::components(t);
        let mid = restored(w, s, c, k, modes);
        assert(is_stage(w, w1, p, t));
        lemma_stage(w, w1, source, modes, dir, name, t, root);
        lemma_restore_body(w, w1, source, modes, dir, name, t, root);
        assert forall|v: Disk, r: Result<(), Trouble>, u: Disk|
            #![trigger mid(v, r), v.without(k, u)]
            mid(v, r) && v.without(k, u) && u.sound() implies post(u, r) by {
            if r is Ok {
                assert forall|j: Spot| #![trigger u.get(j)] !disk::below(c, j) implies u.get(j)
                    == w.get(j) by {
                    if disk::below(k, j) {
                        lemma_void(w, k, j);
                    }
                }
                lemma_below_push(path::components(dir), Component::Normal(name));
                lemma_apart_below(s, root, c);
                assert forall|rest: Spot| #[trigger] disk::below(none, rest) implies standing::twin(
                    u.get(s + rest),
                    u.get(c + rest),
                    standing::mode_of(modes, rest),
                ) by {
                    lemma_away(s, c, rest);
                    assert(u.get(s + rest) == w.get(s + rest));
                    if disk::below(k, c + rest) {
                        assert((c + rest).take(c.len() as int) =~= c);
                        lemma_below_both(k, c, c + rest);
                        assert(k.len() == c.len());
                        assert(c.take(c.len() as int) =~= c);
                        assert(k.take(k.len() as int) =~= k);
                    }
                    assert(u.get(c + rest) == v.get(c + rest));
                }
                assert(s + none =~= s);
                assert(c + none =~= c);
                assert(disk::below(none, none)) by {
                    assert(none.take(0) =~= none);
                }
                assert(standing::twin(u.get(s + none), u.get(c + none), standing::mode_of(modes, none)));
                assert(u.get(s) == w.get(s)) by {
                    assert(u.get(s + none) == w.get(s + none)) by {
                        lemma_away(s, c, none);
                    }
                }
            }
        }
    }
}

/// Whether nothing stands where the absent entries of a tree belong.
pub open spec fn absent_free(w: Disk, f: Forest, p: Seq<u8>) -> bool {
    forall|i: int|
        #![trigger f[i]]
        0 <= i < f.len() && f[i].1 is Absent ==> w.at(path::join(p, f[i].0)) is None
}

/// What is put at an entry of a directory stands there, and nothing else changed; nothing at all where
/// nothing is to stand there.
pub proof fn law_materialise(w: Disk, node: Node, dir: Seq<u8>, name: Seq<u8>, root: Spot)
    requires
        w.sound(),
        path::is_plain(name),
        disk::below(root, path::components(path::join(dir, name))),
        proper(node),
        sourced(w, node, root),
        node is Absent ==> w.at(path::join(dir, name)) is None,
    ensures
        placing::materialise_program(node, path::join(dir, name)).meets(
            w,
            made(w, node, path::join(dir, name)),
        ),
        node is Absent ==> placing::materialise_program(node, path::join(dir, name)).meets(
            w,
            |v: Disk, r: Result<(), Trouble>| v == w && r is Ok,
        ),
    decreases node, 1int,
{
    let p = path::join(dir, name);
    let c = path::components(p);
    path::lemma_entry(dir, name);
    path::lemma_parent(dir, name);
    lemma_below_push(path::components(dir), Component::Normal(name));
    match node {
        Node::Absent => {},
        Node::Link { source } => {
            lemma_link(w, source, dir, name);
        },
        Node::Symlink { target } => {
            lemma_link(w, target, dir, name);
        },
        Node::Copy { source, mode } => {
            lemma_copy(w, source, mode, dir, name, root);
        },
        Node::Snapshot { source, modes } => {
            lemma_restore(w, source, modes, dir, name, root);
        },
        Node::Directory { mode, tree } => {
            let post = made(w, node, p);
            assert forall|m: u32, w1: Disk|
                #![trigger w.with(c, Object::Directory(m), w1)]
                w.at(p) is None && w.with(c, Object::Directory(m), w1)
                    && w1.sound() implies placing::tree_materialise_program(tree, p).and_then(
                |u: ()| placing::seal_program(p, mode),
            ).meets(w1, post) by {
                lemma_below_push(c, Component::Root);
                assert(w.same_but(c, w1));
                assert(w.same_but(root, w1));
                lemma_tree_sourced_frame(w, w1, tree, root);
                lemma_plain_names(tree);
                assert forall|i: int|
                    #![trigger tree[i]]
                    0 <= i < tree.len() && tree[i].1 is Absent implies w1.at(
                    path::join(p, tree[i].0),
                ) is None by {
                    path::lemma_entry(p, tree[i].0);
                    let k = path::components(path::join(p, tree[i].0));
                    lemma_below_push(c, Component::Normal(tree[i].0));
                    lemma_void(w, c, k);
                    assert(k.len() != c.len());
                }
                law_tree_materialise(w1, tree, p, root);
                assert forall|w2: Disk, r: Result<(), Trouble>| #[trigger]
                    tree_made(w1, tree, p)(w2, r) && r is Ok implies placing::seal_program(
                    p,
                    mode,
                ).meets(w2, post) by {
                    lemma_sealed(w, w1, w2, mode, tree, p, root);
                }
            }
        },
    }
}

pub proof fn lemma_plain_names(f: Forest)
    requires
        tree_proper(f),
    ensures
        forall|i: int| 0 <= i < f.len() ==> path::is_plain((#[trigger] f[i]).0) && proper(f[i].1),
    decreases f, 0int,
{
    if f.len() > 0 {
        lemma_plain_names(f.skip(1));
        assert forall|i: int| 0 <= i < f.len() implies path::is_plain((#[trigger] f[i]).0)
            && proper(f[i].1) by {
            if i > 0 {
                assert(f.skip(1)[i - 1] == f[i]);
            }
        }
    }
}

/// A directory whose entries were put gets its permissions and then stands.
pub proof fn lemma_sealed(w: Disk, w1: Disk, w2: Disk, mode: u32, tree: Forest, p: Seq<u8>, root: Spot)
    requires
        w2.sound(),
        is_mode(mode),
        tree_proper(tree),
        tree_sourced(w1, tree, root),
        disk::below(root, path::components(p)),
        disk::is_directory(w1.at(p)),
        w.same_but(path::components(p), w1),
        same_but_tree(w1, tree, path::components(p), w2),
        standing::tree_stands(w2, tree, p),
    ensures
        placing::seal_program(p, mode).meets(
            w2,
            made(w, Node::Directory { mode, tree }, p),
        ),
{
    let c = path::components(p);
    assert(c.take(c.len() as int) =~= c);
    if touches(tree, c, c) {
        lemma_touches_below(tree, c, c);
    }
    assert(w2.get(c) == w1.get(c));
    lemma_seal(w2, p, mode);
    assert(w1.same_but(root, w2)) by {
        assert forall|j: Spot| #![trigger w2.get(j)] !disk::below(root, j) implies w2.get(j)
            == w1.get(j) by {
            if touches(tree, c, j) {
                lemma_touches_below(tree, c, j);
                lemma_below_trans(root, c, j);
            }
        }
    }
    lemma_tree_sourced_frame(w1, w2, tree, root);
    assert forall|v: Disk| #[trigger] w2.with(c, Object::Directory(mode), v) && v.sound() implies made(
        w,
        Node::Directory { mode, tree },
        p,
    )(v, Ok(())) by {
        assert(w2.same_but(root, v));
        assert forall|j: Spot| #![trigger v.get(j)] touches(tree, c, j) implies v.get(j) == w2.get(
            j,
        ) by {
            lemma_touches_below(tree, c, j);
        }
        lemma_tree_stands_frame(w2, v, tree, p, root);
        assert forall|j: Spot| #![trigger v.get(j)] !disk::below(c, j) implies v.get(j) == w.get(
            j,
        ) by {
            if touches(tree, c, j) {
                lemma_touches_below(tree, c, j);
            }
            assert(w2.get(j) == w1.get(j));
            assert(w1.get(j) == w.get(j));
        }
    }
}

/// The entries that are put below a directory stand there, and nothing else changed.
pub proof fn law_tree_materialise(w: Disk, f: Forest, p: Seq<u8>, root: Spot)
    requires
        w.sound(),
        disk::below(root, path::components(p)),
        tree_proper(f),
        tree_sourced(w, f, root),
        absent_free(w, f, p),
    ensures
        placing::tree_materialise_program(f, p).meets(w, tree_made(w, f, p)),
    decreases f, 0int,
{
    let c = path::components(p);
    if f.len() > 0 {
        let (name, node) = (f[0].0, f[0].1);
        let x = Component::Normal(name);
        path::lemma_entry(p, name);
        lemma_below_push(c, x);
        lemma_below_trans(root, c, c.push(x));
        law_materialise(w, node, p, name, root);
        let later = f.skip(1);
        let post = tree_made(w, f, p);
        assert forall|w1: Disk, r: Result<(), Trouble>| #[trigger]
            made(w, node, path::join(p, name))(w1, r)
                && r is Ok implies placing::tree_materialise_program(later, p).meets(w1, post) by {
            assert(w.same_but(root, w1)) by {
                assert forall|j: Spot| #![trigger w1.get(j)] !disk::below(root, j) implies w1.get(j)
                    == w.get(j) by {
                    if disk::below(c.push(x), j) {
                        lemma_below_trans(root, c.push(x), j);
                    }
                }
            }
            lemma_tree_sourced_frame(w, w1, later, root);
            lemma_sourced_frame(w, w1, node, root);
            lemma_plain_names(f);
            assert forall|i: int| #![trigger later[i]] 0 <= i < later.len() && later[i].1 is Absent implies w1.at(
                path::join(p, later[i].0),
            ) is None by {
                assert(later[i] == f[i + 1]);
                path::lemma_entry(p, later[i].0);
                let y = Component::Normal(later[i].0);
                if disk::below(c.push(x), c.push(y)) {
                    lemma_below_push(c.push(y), x);
                    lemma_siblings(c, x, y, c.push(y));
                }
            }
            law_tree_materialise(w1, later, p, root);
            assert forall|v: Disk, q: Result<(), Trouble>| #[trigger]
                tree_made(w1, later, p)(v, q) implies post(v, q) by {
                if q is Ok {
                    lemma_first_stays(w, w1, v, f, p, root);
                }
            }
        }
    }
}

/// An entry that was put first still stands when the later ones were put.
pub proof fn lemma_first_stays(w: Disk, w1: Disk, v: Disk, f: Forest, p: Seq<u8>, root: Spot)
    requires
        f.len() > 0,
        tree_proper(f),
        sourced(w1, f[0].1, root),
        disk::below(root, path::components(p)),
        standing::stands(w1, f[0].1, path::join(p, f[0].0)),
        w.same_but(path::components(path::join(p, f[0].0)), w1),
        standing::tree_stands(v, f.skip(1), p),
        same_but_tree(w1, f.skip(1), path::components(p), v),
    ensures
        standing::tree_stands(v, f, p),
        same_but_tree(w, f, path::components(p), v),
{
    let c = path::components(p);
    let x = Component::Normal(f[0].0);
    let later = f.skip(1);
    path::lemma_entry(p, f[0].0);
    assert forall|j: Spot| #![trigger v.get(j)] disk::below(c.push(x), j) implies v.get(j)
        == w1.get(j) by {
        if touches(later, c, j) {
            lemma_touches_other(later, c, f[0].0, j);
            let i = choose|i: int| 0 <= i < later.len() && (#[trigger] later[i]).0 == f[0].0;
            assert(later[i] == f[i + 1]);
        }
    }
    assert(w1.same_but(root, v)) by {
        assert forall|j: Spot| #![trigger v.get(j)] !disk::below(root, j) implies v.get(j) == w1.get(
            j,
        ) by {
            if touches(later, c, j) {
                lemma_touches_below(later, c, j);
                lemma_below_trans(root, c, j);
            }
        }
    }
    lemma_stands_frame(w1, v, f[0].1, path::join(p, f[0].0), root);
    assert forall|j: Spot| #![trigger v.get(j)] !touches(f, c, j) implies v.get(j) == w.get(j) by {
        assert(!touches(later, c, j));
        assert(w1.get(j) == w.get(j));
    }
}

} // verus!
