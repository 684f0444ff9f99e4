//! That placing and removing entries touches nothing outside their directory, and nothing in it that
//! is not managed, at any time.
use vstd::prelude::*;

use crate::atomic;
use crate::bytes;
use crate::disk;
use crate::disk::{Disk, Object, Spot};
use crate::entry;
use crate::error::Trouble;
use crate::host;
use crate::host::{Answer, Request};
use crate::managed;
use crate::managed::{lies_in, owned, owns};
use crate::path;
use crate::path::Component;
use crate::placed;
use crate::placing;
use crate::program::Program;
use crate::quiet;
use crate::quiet::any;
use crate::reason;
use crate::reason::World;
use crate::session;
use crate::standing;
use crate::transition;
use crate::tree;
use crate::tree::{Forest, Modes, Node};
use crate::turned;

verus! {

broadcast use crate::reason::group_upholds;

/// Whether nothing differs from `w` but what lies in the directory `d`.
pub open spec fn inside(w: Disk, d: Spot) -> spec_fn(Disk) -> bool {
    |v: Disk|
        {
            &&& v.sound()
            &&& v.records == w.records
            &&& v.journals == w.journals
            &&& forall|j: Spot| #![trigger v.get(j)] !lies_in(d, j) ==> v.get(j) == w.get(j)
        }
}

/// Whether nothing differs from `w` but what stands at `c` and below.
pub open spec fn only(w: Disk, c: Spot) -> spec_fn(Disk) -> bool {
    |v: Disk|
        v.sound() && v.records == w.records && v.journals == w.journals && w.same_but(c, v)
}

/// A place, and another one at or above which it lies.
pub struct Place {
    pub at: Spot,
    pub over: Spot,
}

/// Whether both places lie elsewhere than in the directory at `d`.
pub open spec fn outside(d: Spot, j: Place) -> bool {
    !lies_in(d, j.at) && !lies_in(d, j.over)
}

/// Whether something stands in the directory at `d`, at or above the place.
pub open spec fn sheltered(w: Disk, d: Spot, j: Place) -> bool {
    lies_in(d, j.over) && w.get(j.over) is Some && disk::below(j.over, j.at)
}

/// Whether a place lies elsewhere than in `dir`, or at or below something there that is not what
/// stands at the entry `name`, nor below it.
pub open spec fn clear(w: Disk, dir: Seq<u8>, name: Seq<u8>, j: Place) -> bool {
    outside(path::components(dir), j) || (sheltered(w, path::components(dir), j) && !disk::below(
        path::components(dir).push(Component::Normal(name)),
        j.over,
    ))
}

/// Whether a place lies elsewhere than in `dir`, or at or below something there that is not what
/// stands at the entry `name`.
pub open spec fn beside(w: Disk, dir: Seq<u8>, name: Seq<u8>, j: Place) -> bool {
    outside(path::components(dir), j) || (sheltered(w, path::components(dir), j) && j.over
        != path::components(dir).push(Component::Normal(name)))
}

/// Whether a place lies elsewhere than in `dir`, or at or below something there that does not belong
/// to a managed entry called `name`.
pub open spec fn spares(w: Disk, node: Node, dir: Seq<u8>, name: Seq<u8>, j: Place) -> bool {
    outside(path::components(dir), j) || (sheltered(w, path::components(dir), j) && !owns(
        node,
        path::components(dir).push(Component::Normal(name)),
        j.over,
    ))
}

/// Whether a place lies elsewhere than in the directory at `c`, or at or below something there that
/// does not belong to what `f` manages.
pub open spec fn tree_shelters(w: Disk, f: Forest, c: Spot, j: Place) -> bool {
    outside(c, j) || (sheltered(w, c, j) && !owned(f, c, j.over))
}

/// Whether `j` lies elsewhere than in the directory at `c`, or something stands there that does not
/// belong to what `f` manages.
pub open spec fn tree_spares(w: Disk, f: Forest, c: Spot, j: Spot) -> bool {
    !lies_in(c, j) || (w.get(j) is Some && !owned(f, c, j))
}

/// Whether nothing differs from `w` but what lies in the directory `d`, and a place does not, nor
/// the one above it.
pub open spec fn around(w: Disk, d: Spot, j: Place) -> spec_fn(Disk) -> bool {
    |v: Disk| inside(w, d)(v) && v.get(j.at) == w.get(j.at) && v.get(j.over) == w.get(j.over)
}

/// What stands at an entry of a directory or above it is no shelter for what lies at another entry.
proof fn lemma_shelter(d: Spot, x: Component<Seq<u8>>, j: Place)
    ensures
        lies_in(d, j.over) && disk::below(j.over, j.at) && disk::below(d.push(x), j.at)
            ==> disk::below(d.push(x), j.over),
        lies_in(d, j.over) && disk::below(j.over, j.at) && d.push(x) == j.at ==> d.push(x)
            == j.over,
        lies_in(d, j.over) && disk::below(j.over, j.at) ==> lies_in(d, j.at),
        lies_in(d.push(x), j.over) && disk::below(j.over, j.at) ==> lies_in(d.push(x), j.at),
{
    let c = d.push(x);
    if disk::below(j.over, j.at) {
        if lies_in(d, j.over) {
            placed::lemma_below_trans(d, j.over, j.at);
            if disk::below(c, j.at) {
                placed::lemma_below_both(c, j.over, j.at);
                if disk::below(j.over, c) {
                    assert(c.take(c.len() as int) =~= c);
                    assert(j.over =~= c);
                }
            }
            if c == j.at {
                assert(j.over =~= c.take(j.over.len() as int));
                assert(c.take(c.len() as int) =~= c);
            }
        }
        if lies_in(c, j.over) {
            placed::lemma_below_trans(c, j.over, j.at);
        }
    }
}

/// Below what is no directory stands nothing.
proof fn lemma_bare(w: Disk, dir: Seq<u8>, name: Seq<u8>, j: Place)
    requires
        w.sound(),
        path::is_plain(name),
        !disk::is_directory(w.at(path::join(dir, name))),
        beside(w, dir, name, j),
    ensures
        clear(w, dir, name, j),
{
    path::lemma_entry(dir, name);
    lemma_lies_in(path::components(dir), Component::Normal(name));
    lemma_shelter(path::components(dir), Component::Normal(name), j);
}

/// Whether nothing differs from `w` but what stands at `c`.
pub open spec fn just(w: Disk, c: Spot) -> spec_fn(Disk) -> bool {
    |v: Disk|
        {
            &&& v.sound()
            &&& v.records == w.records
            &&& v.journals == w.journals
            &&& forall|j: Spot| #![trigger v.get(j)] j != c ==> v.get(j) == w.get(j)
        }
}

/// What is at an entry of a directory, or below it, lies in the directory.
pub proof fn lemma_lies_in(d: Spot, x: Component<Seq<u8>>)
    ensures
        forall|j: Spot| #[trigger] disk::below(d.push(x), j) ==> lies_in(d, j),
        forall|j: Spot| #[trigger] lies_in(d.push(x), j) ==> lies_in(d, j),
        lies_in(d, d.push(x)),
{
    let c = d.push(x);
    placed::lemma_below_push(d, x);
    assert(d.len() < c.len());
    assert forall|j: Spot| #[trigger] disk::below(c, j) implies lies_in(d, j) by {
        placed::lemma_below_trans(d, c, j);
    }
    assert(disk::below(c, c)) by {
        assert(c.take(c.len() as int) =~= c);
    }
}

/// Putting a symbolic link in a directory touches nothing outside it.
proof fn lemma_link(w: Disk, target: Seq<u8>, dir: Seq<u8>, name: Seq<u8>, j: Place)
    requires
        w.sound(),
        path::is_plain(name),
        clear(w, dir, name, j),
    ensures
        atomic::link_program(target, path::join(dir, name)).upholds(
            w,
            around(w, path::components(dir), j),
            any(),
        ),
{
    let p = path::join(dir, name);
    let d = path::components(dir);
    let inv = around(w, d, j);
    path::lemma_parent(dir, name);
    path::lemma_entry(dir, name);
    placed::lemma_staged_names();
    lemma_lies_in(d, Component::Normal(name));
    lemma_shelter(d, Component::Normal(name), j);
    let parent = path::parent(p)->Some_0;
    assert forall|t: Seq<u8>, mode: u32, w1: Disk| #[trigger]
        disk::creates(w, parent, t, Object::Directory(mode), w1) && w1.sound() && w1.records
            == w.records && w1.journals == w.journals implies atomic::cleaned(
        t,
        atomic::link_body(target, p, parent, t),
    ).upholds(w1, inv, any()) by {
        let k = path::components(t);
        let n = choose|n: Seq<u8>| #[trigger]
            path::is_plain(n) && k == d.push(Component::Normal(n));
        path::lemma_entry(t, bytes::text("link"@));
        lemma_lies_in(d, Component::Normal(n));
        lemma_shelter(d, Component::Normal(n), j);
        lemma_lies_in(k, Component::Normal(bytes::text("link"@)));
        placed::lemma_below_push(d, Component::Normal(n));
    }
}

/// Putting a copy in a directory touches nothing outside it.
proof fn lemma_copy(w: Disk, source: Seq<u8>, mode: u32, dir: Seq<u8>, name: Seq<u8>, j: Place)
    requires
        w.sound(),
        path::is_plain(name),
        clear(w, dir, name, j),
    ensures
        atomic::copy_program(source, path::join(dir, name), mode).upholds(
            w,
            around(w, path::components(dir), j),
            any(),
        ),
{
    let p = path::join(dir, name);
    let d = path::components(dir);
    let inv = around(w, d, j);
    path::lemma_parent(dir, name);
    path::lemma_entry(dir, name);
    lemma_lies_in(d, Component::Normal(name));
    lemma_shelter(d, Component::Normal(name), j);
    let parent = path::parent(p)->Some_0;
    assert forall|t: Seq<u8>, m: u32, w1: Disk| #[trigger]
        disk::creates(w, parent, t, Object::File(Seq::empty(), m), w1) && w1.sound()
            && w1.records == w.records && w1.journals == w.journals implies atomic::cleaned_on_failure(
        t,
        atomic::copy_body(source, p, mode, t),
        atomic::sync_program(parent),
    ).upholds(w1, inv, any()) by {
        let k = path::components(t);
        let n = choose|n: Seq<u8>| #[trigger]
            path::is_plain(n) && k == d.push(Component::Normal(n));
        lemma_lies_in(d, Component::Normal(n));
        lemma_shelter(d, Component::Normal(n), j);
        placed::lemma_below_push(d, Component::Normal(n));
    }
}

/// Removing an entry of a directory touches nothing outside it.
proof fn lemma_remove(w: Disk, dir: Seq<u8>, name: Seq<u8>, j: Place)
    requires
        w.sound(),
        path::is_plain(name),
        clear(w, dir, name, j),
    ensures
        placing::remove_program(path::join(dir, name)).upholds(
            w,
            around(w, path::components(dir), j),
            any(),
        ),
{
    path::lemma_parent(dir, name);
    path::lemma_entry(dir, name);
    lemma_lies_in(path::components(dir), Component::Normal(name));
    lemma_shelter(path::components(dir), Component::Normal(name), j);
}

/// Creating a directory in a directory touches nothing outside it.
proof fn lemma_create(w: Disk, dir: Seq<u8>, name: Seq<u8>, j: Place)
    requires
        w.sound(),
        path::is_plain(name),
        clear(w, dir, name, j),
    ensures
        placing::create_program(path::join(dir, name)).upholds(
            w,
            around(w, path::components(dir), j),
            |v: Disk, r: Result<(), Trouble>|
                r is Ok ==> disk::is_directory(v.at(path::join(dir, name))),
        ),
{
    path::lemma_parent(dir, name);
    path::lemma_entry(dir, name);
    lemma_lies_in(path::components(dir), Component::Normal(name));
    lemma_shelter(path::components(dir), Component::Normal(name), j);
}

/// Letting the owner write in a directory touches nothing but that directory.
proof fn lemma_writable(w: Disk, p: Seq<u8>)
    requires
        w.sound(),
        disk::is_directory(w.at(p)),
    ensures
        placing::writable_program(p).upholds(
            w,
            just(w, path::components(p)),
            |v: Disk, r: Result<(), Trouble>|
                disk::is_directory(v.at(p)) && forall|j: Spot|
                    #![trigger v.get(j)]
                    j != path::components(p) ==> v.get(j) == w.get(j),
        ),
{
    let c = path::components(p);
    assert(c.take(c.len() as int) =~= c);
}

/// Giving a directory or file its permissions touches nothing else.
proof fn lemma_seal(w: Disk, p: Seq<u8>, mode: u32)
    requires
        w.sound(),
        disk::is_directory(w.at(p)) || disk::is_file(w.at(p)),
    ensures
        placing::seal_program(p, mode).upholds(w, just(w, path::components(p)), any()),
{
    let c = path::components(p);
    assert(c.take(c.len() as int) =~= c);
}

/// Copying to a place where nothing stands touches nothing else.
proof fn lemma_copy_entry(w: Disk, source: Seq<u8>, target: Seq<u8>)
    requires
        w.sound(),
        w.at(target) is None,
        path::components(target).len() > 0,
    ensures
        placing::copy_entry_program(source, target).upholds(
            w,
            only(w, path::components(target)),
            any(),
        ),
    decreases usize::MAX - source.len(), 1int, 0int,
{
    let t = path::components(target);
    let inv = only(w, t);
    assert(t.take(t.len() as int) =~= t);
    let s = path::components(source);
    assert forall|mode: u32, w1: Disk, names: Seq<Seq<u8>>|
        #![trigger w.with(t, Object::Directory(mode), w1), w1.lists(s, names)]
        w.with(t, Object::Directory(mode), w1) && w1.sound() && w1.records == w.records
            && w1.journals == w.journals && w1.lists(s, names) && host::all_plain(names) implies placing::copy_names_program(
        source,
        target,
        names,
    ).upholds(w1, inv, any()) by {
        assert forall|i: int|
            #![trigger names[i]]
            0 <= i < names.len() implies w1.get(t.push(Component::Normal(names[i]))) is None by {
            let x = Component::Normal(names[i]);
            placed::lemma_below_push(t, x);
            placed::lemma_void(w, t, t.push(x));
            assert(t.push(x).len() != t.len());
        }
        lemma_copy_names(w1, source, target, names);
    }
}

proof fn lemma_copy_names(w: Disk, source: Seq<u8>, target: Seq<u8>, names: Seq<Seq<u8>>)
    requires
        w.sound(),
        path::components(target).len() > 0,
        host::all_plain(names),
        names.no_duplicates(),
        forall|i: int|
            #![trigger names[i]]
            0 <= i < names.len() ==> w.get(
                path::components(target).push(Component::Normal(names[i])),
            ) is None,
    ensures
        placing::copy_names_program(source, target, names).upholds(
            w,
            inside(w, path::components(target)),
            any(),
        ),
    decreases usize::MAX - source.len(), 0int, names.len(),
{
    let t = path::components(target);
    let inv = inside(w, t);
    if names.len() > 0 {
        let x = Component::Normal(names[0]);
        let c = t.push(x);
        let child = path::join(source, names[0]);
        let later = names.skip(1);
        assert(path::is_plain(names[0]));
        path::lemma_entry(target, names[0]);
        lemma_lies_in(t, x);
        if entry::deeper(source, child) {
            lemma_copy_entry(w, child, path::join(target, names[0]));
        }
        assert forall|w1: Disk, r: Result<(), Trouble>|
            #![trigger any::<Disk, Result<(), Trouble>>()(w1, r), only(w, c)(w1)]
            only(w, c)(w1) implies placing::copy_names_program(source, target, later).upholds(
            w1,
            inv,
            any(),
        ) by {
            assert forall|i: int| 0 <= i < later.len() implies path::is_plain(
                #[trigger] later[i],
            ) by {
                assert(later[i] == names[i + 1]);
            }
            assert forall|i: int|
                #![trigger later[i]]
                0 <= i < later.len() implies w1.get(t.push(Component::Normal(later[i]))) is None by {
                assert(later[i] == names[i + 1]);
                let y = Component::Normal(later[i]);
                if disk::below(c, t.push(y)) {
                    placed::lemma_below_push(t.push(y), x);
                    placed::lemma_siblings(t, x, y, t.push(y));
                }
            }
            lemma_copy_names(w1, source, target, later);
        }
    }
}

/// Giving what stands at `base` its permissions touches nothing else.
proof fn lemma_modes(w: Disk, base: Seq<u8>, modes: Modes)
    requires
        w.sound(),
        placed::modes_proper(modes),
        placed::modes_fit(w, path::components(base), modes),
    ensures
        placing::modes_program(base, modes).upholds(w, only(w, path::components(base)), any()),
    decreases modes.len(),
{
    let g = path::components(base);
    let inv = only(w, g);
    if modes.len() > 0 {
        let last = modes[modes.len() - 1];
        let at = g + path::components(last.0);
        standing::lemma_spot(base, last.0);
        placed::lemma_modes_rest(modes);
        let before = modes.drop_last();
        assert(at.take(g.len() as int) =~= g);
        assert forall|o: Object, w1: Disk|
            #![trigger w.with(at, o, w1)]
            w.with(at, o, w1) && w1.sound() && w1.records == w.records && w1.journals
                == w.journals && Some(o) == placed::remoded(
                w.get(at),
                Some(last.1),
            ) implies placing::modes_program(base, before).upholds(w1, inv, any()) by {
            assert forall|i: int| #![trigger before[i]] 0 <= i < before.len() implies disk::is_directory(
                w1.get(g + path::components(before[i].0)),
            ) || disk::is_file(w1.get(g + path::components(before[i].0))) by {
                assert(before[i] == modes[i]);
            }
            lemma_modes(w1, base, before);
        }
    }
}

/// Putting a backup in a directory touches nothing outside it.
#[verifier::rlimit(30)]
proof fn lemma_restore(
    w: Disk,
    source: Seq<u8>,
    modes: Modes,
    dir: Seq<u8>,
    name: Seq<u8>,
    root: Spot,
    j: Place,
)
    requires
        w.sound(),
        path::is_plain(name),
        placed::modes_proper(modes),
        placed::kept(w, source, modes, root),
        disk::below(root, path::components(dir)),
        clear(w, dir, name, j),
    ensures
        placing::restore_program(source, modes, path::join(dir, name)).upholds(
            w,
            around(w, path::components(dir), j),
            any(),
        ),
{
    let p = path::join(dir, name);
    let d = path::components(dir);
    let s = path::components(source);
    let inv = around(w, d, j);
    path::lemma_parent(dir, name);
    path::lemma_entry(dir, name);
    lemma_lies_in(d, Component::Normal(name));
    lemma_shelter(d, Component::Normal(name), j);
    let parent = path::parent(p)->Some_0;
    assert forall|t: Seq<u8>, mode: u32, w1: Disk| #[trigger]
        disk::creates(w, parent, t, Object::Directory(mode), w1) && w1.sound() && w1.records
            == w.records && w1.journals == w.journals implies atomic::cleaned(
        t,
        placing::restore_body(source, modes, p, parent, t),
    ).upholds(w1, inv, any()) by {
        let k = path::components(t);
        let staged = placing::staged_snapshot(t);
        let g = path::components(staged);
        let n = choose|n: Seq<u8>| #[trigger]
            path::is_plain(n) && k == d.push(Component::Normal(n));
        let copy = placing::copy_entry_program(source, staged);
        assert(placed::is_stage(w, w1, p, t));
        placed::lemma_below_push(d, Component::Normal(name));
        placed::lemma_below_trans(root, d, path::components(p));
        placed::lemma_stage(w, w1, source, modes, dir, name, t, root);
        lemma_lies_in(d, Component::Normal(n));
        lemma_shelter(d, Component::Normal(n), j);
        lemma_lies_in(k, Component::Normal(bytes::text("snapshot"@)));
        placed::lemma_below_push(d, Component::Normal(n));
        lemma_copy_entry(w1, source, staged);
        placed::lemma_copy_entry(w1, source, staged);
        reason::lemma_upholds_both(copy, w1, only(w1, g), any(), placed::copied(w1, s, g));
        let both = |v: Disk, r: Result<(), Trouble>|
            any::<Disk, Result<(), Trouble>>()(v, r) && placed::copied(w1, s, g)(v, r);
        assert forall|w2: Disk, r: Result<(), Trouble>| #[trigger]
            both(w2, r) && only(w1, g)(w2) && r is Ok implies placing::modes_program(
            staged,
            modes,
        ).upholds(w2, inv, any()) by {
            placed::lemma_copy_fits(w1, w2, s, g, modes);
            lemma_modes(w2, staged, modes);
        }
    }
}

/// Putting an entry in a directory touches nothing outside it.
proof fn lemma_materialise(w: Disk, node: Node, dir: Seq<u8>, name: Seq<u8>, root: Spot, j: Place)
    requires
        w.sound(),
        path::is_plain(name),
        placed::proper(node),
        placed::sourced(w, node, root),
        disk::below(root, path::components(dir)),
        clear(w, dir, name, j),
    ensures
        placing::materialise_program(node, path::join(dir, name)).upholds(
            w,
            around(w, path::components(dir), j),
            any(),
        ),
    decreases node, 1int,
{
    let p = path::join(dir, name);
    let d = path::components(dir);
    let c = d.push(Component::Normal(name));
    let inv = around(w, d, j);
    path::lemma_entry(dir, name);
    lemma_lies_in(d, Component::Normal(name));
    lemma_shelter(d, Component::Normal(name), j);
    match node {
        Node::Directory { mode, tree } => {
            lemma_create(w, dir, name, j);
            assert(disk::below(c, c)) by {
                assert(c.take(c.len() as int) =~= c);
            }
            placed::lemma_below_push(d, Component::Normal(name));
            placed::lemma_below_trans(root, d, c);
            assert forall|w1: Disk| #[trigger]
                inv(w1) && disk::is_directory(w1.get(c)) implies placing::tree_materialise_program(
                tree,
                p,
            ).and_then(|u: ()| placing::seal_program(p, mode)).upholds(w1, inv, any()) by {
                lemma_root_same(w, w1, d, root, j);
                placed::lemma_tree_sourced_frame(w, w1, tree, root);
                lemma_tree_materialise(w1, tree, p, root, j);
                lemma_sealed(placing::tree_materialise_program(tree, p), w, w1, dir, name, mode, j);
            }
        },
        Node::Link { source } => {
            lemma_link(w, source, dir, name, j);
        },
        Node::Copy { source, mode } => {
            lemma_copy(w, source, mode, dir, name, j);
        },
        Node::Symlink { target } => {
            lemma_link(w, target, dir, name, j);
        },
        Node::Snapshot { source, modes } => {
            lemma_restore(w, source, modes, dir, name, root, j);
        },
        Node::Absent => {},
    }
}

/// What lies in a directory below `root` lies below `root`.
proof fn lemma_root_same(w: Disk, v: Disk, d: Spot, root: Spot, j: Place)
    requires
        around(w, d, j)(v),
        disk::below(root, d),
    ensures
        w.same_but(root, v),
{
    assert forall|j: Spot| #![trigger v.get(j)] !disk::below(root, j) implies v.get(j) == w.get(
        j,
    ) by {
        if lies_in(d, j) {
            placed::lemma_below_trans(root, d, j);
        }
    }
}

/// A directory gets its permissions after what was done in it.
proof fn lemma_sealed(
    q: Program<Result<(), Trouble>>,
    w: Disk,
    w1: Disk,
    dir: Seq<u8>,
    name: Seq<u8>,
    mode: u32,
    j: Place,
)
    requires
        path::is_plain(name),
        around(w, path::components(dir), j)(w1),
        disk::is_directory(w1.at(path::join(dir, name))),
        q.upholds(w1, around(w1, path::components(path::join(dir, name)), j), any()),
        j.at != path::components(dir).push(Component::Normal(name)),
        j.over != path::components(dir).push(Component::Normal(name)),
    ensures
        q.and_then(|u: ()| placing::seal_program(path::join(dir, name), mode)).upholds(
            w1,
            around(w, path::components(dir), j),
            any(),
        ),
{
    let p = path::join(dir, name);
    let d = path::components(dir);
    let c = path::components(p);
    let inv = around(w, d, j);
    path::lemma_entry(dir, name);
    lemma_lies_in(d, Component::Normal(name));
    lemma_shelter(d, Component::Normal(name), j);
    assert forall|v: Disk| #[trigger] around(w1, c, j)(v) implies inv(v) && placing::seal_program(
        p,
        mode,
    ).upholds(v, inv, any()) by {
        assert(v.get(c) == w1.get(c));
        lemma_seal(v, p, mode);
        assert forall|u: Disk| #[trigger] just(v, c)(u) implies inv(u) by {}
    }
}

proof fn lemma_tree_materialise(w: Disk, f: Forest, p: Seq<u8>, root: Spot, j: Place)
    requires
        w.sound(),
        placed::tree_proper(f),
        placed::tree_sourced(w, f, root),
        disk::below(root, path::components(p)),
        outside(path::components(p), j),
    ensures
        placing::tree_materialise_program(f, p).upholds(w, around(w, path::components(p), j), any()),
    decreases f, 0int,
{
    let c = path::components(p);
    let inv = around(w, c, j);
    if f.len() > 0 {
        lemma_materialise(w, f[0].1, p, f[0].0, root, j);
        assert forall|v: Disk| #[trigger] inv(v) implies placing::tree_materialise_program(
            f.skip(1),
            p,
        ).upholds(v, inv, any()) by {
            lemma_root_same(w, v, c, root, j);
            placed::lemma_tree_sourced_frame(w, v, f.skip(1), root);
            lemma_tree_materialise(v, f.skip(1), p, root, j);
            assert forall|u: Disk| #[trigger] around(v, c, j)(u) implies inv(u) by {}
        }
    }
}

/// Work in a directory that was made ready touches nothing outside the directory that holds it.
proof fn lemma_writable_sealed(
    q: Program<Result<(), Trouble>>,
    w: Disk,
    w0: Disk,
    dir: Seq<u8>,
    name: Seq<u8>,
    mode: u32,
    j: Place,
)
    requires
        path::is_plain(name),
        around(w0, path::components(dir), j)(w),
        disk::is_directory(w.at(path::join(dir, name))),
        forall|v: Disk| #[trigger]
            around(w0, path::components(dir), j)(v) ==> q.upholds(
                v,
                around(v, path::components(path::join(dir, name)), j),
                any(),
            ),
        j.at != path::components(dir).push(Component::Normal(name)),
        j.over != path::components(dir).push(Component::Normal(name)),
    ensures
        placing::writable_program(path::join(dir, name)).and_then(
            |u: ()| q.and_then(|u: ()| placing::seal_program(path::join(dir, name), mode)),
        ).upholds(w, around(w0, path::components(dir), j), any()),
{
    let p = path::join(dir, name);
    let d = path::components(dir);
    let c = path::components(p);
    let inv = around(w0, d, j);
    path::lemma_entry(dir, name);
    lemma_lies_in(d, Component::Normal(name));
    lemma_shelter(d, Component::Normal(name), j);
    lemma_writable(w, p);
    let mid = |v: Disk, r: Result<(), Trouble>|
        disk::is_directory(v.at(p)) && forall|j: Spot|
            #![trigger v.get(j)]
            j != c ==> v.get(j) == w.get(j);
    assert forall|v: Disk| #[trigger] just(w, c)(v) implies inv(v) by {}
    assert forall|v: Disk, r: Result<(), Trouble>| #[trigger]
        mid(v, r) && just(w, c)(v) implies q.and_then(
        |u: ()| placing::seal_program(p, mode),
    ).upholds(v, inv, any()) by {
        assert(inv(v));
        lemma_sealed(q, w0, v, dir, name, mode, j);
    }
}

/// Making an entry of a directory what it should be touches nothing outside it.
proof fn lemma_repair(w: Disk, node: Node, dir: Seq<u8>, name: Seq<u8>, root: Spot, j: Place)
    requires
        w.sound(),
        path::is_plain(name),
        placed::proper(node),
        placed::sourced(w, node, root),
        disk::below(root, path::components(dir)),
        spares(w, node, dir, name, j),
    ensures
        placing::repair_program(node, path::join(dir, name)).upholds(
            w,
            around(w, path::components(dir), j),
            any(),
        ),
    decreases node, 1int,
{
    let p = path::join(dir, name);
    let d = path::components(dir);
    let c = d.push(Component::Normal(name));
    let inv = around(w, d, j);
    path::lemma_entry(dir, name);
    lemma_lies_in(d, Component::Normal(name));
    lemma_shelter(d, Component::Normal(name), j);
    quiet::lemma_matches(node, p);
    quiet::lemma_quiet(entry::matches_program(node, p), w, inv);
    match node {
        Node::Directory { mode, tree } => {
            placed::lemma_below_push(d, Component::Normal(name));
            placed::lemma_below_trans(root, d, c);
            let q = placing::tree_repair_program(tree, p);
            assert forall|v: Disk| #[trigger] inv(v) implies q.upholds(
                v,
                around(v, c, j),
                any(),
            ) by {
                lemma_root_same(w, v, d, root, j);
                placed::lemma_tree_sourced_frame(w, v, tree, root);
                lemma_tree_repair(v, tree, p, root, j);
            }
            lemma_ready(w, dir, name, j);
            assert forall|v: Disk| #[trigger]
                inv(v) && disk::is_directory(v.at(p)) implies q.and_then(
                |u: ()| placing::seal_program(p, mode),
            ).upholds(v, inv, any()) by {
                lemma_sealed(q, w, v, dir, name, mode, j);
            }
        },
        Node::Absent => {
            lemma_remove(w, dir, name, j);
        },
        _ => {
            lemma_replace(w, node, dir, name, root, j);
        },
    }
}

/// Making sure that a directory stands in a directory touches nothing outside it.
proof fn lemma_ready(w: Disk, dir: Seq<u8>, name: Seq<u8>, j: Place)
    requires
        w.sound(),
        path::is_plain(name),
        beside(w, dir, name, j),
    ensures
        placing::ready_program(path::join(dir, name)).upholds(
            w,
            around(w, path::components(dir), j),
            |v: Disk, r: Result<(), Trouble>|
                r is Ok ==> disk::is_directory(v.at(path::join(dir, name))),
        ),
{
    let p = path::join(dir, name);
    let d = path::components(dir);
    let inv = around(w, d, j);
    path::lemma_entry(dir, name);
    lemma_lies_in(d, Component::Normal(name));
    lemma_shelter(d, Component::Normal(name), j);
    if disk::is_directory(w.at(p)) {
        lemma_writable(w, p);
        assert forall|v: Disk| #[trigger] just(w, path::components(p))(v) implies inv(v) by {}
    } else {
        lemma_bare(w, dir, name, j);
        lemma_remove(w, dir, name, j);
        lemma_create(w, dir, name, j);
        let there = |v: Disk, r: Result<(), Trouble>| r is Ok ==> disk::is_directory(v.at(p));
        assert forall|v: Disk| #[trigger] inv(v) implies placing::create_program(p).upholds(
            v,
            inv,
            there,
        ) by {
            lemma_create(v, dir, name, j);
            assert forall|u: Disk| #[trigger] around(v, d, j)(u) implies inv(u) by {}
        }
    }
}

/// Replacing an entry of a directory touches nothing outside it.
proof fn lemma_replace(w: Disk, node: Node, dir: Seq<u8>, name: Seq<u8>, root: Spot, j: Place)
    requires
        w.sound(),
        path::is_plain(name),
        placed::proper(node),
        placed::sourced(w, node, root),
        disk::below(root, path::components(dir)),
        clear(w, dir, name, j),
    ensures
        placing::replace_program(node, path::join(dir, name)).upholds(
            w,
            around(w, path::components(dir), j),
            any(),
        ),
{
    let p = path::join(dir, name);
    let d = path::components(dir);
    path::lemma_entry(dir, name);
    lemma_lies_in(d, Component::Normal(name));
    lemma_shelter(d, Component::Normal(name), j);
    lemma_put(w, w, node, dir, name, root, j);
    assert forall|v: Disk| #[trigger]
        around(w, d, j)(v) implies placing::materialise_program(node, p).upholds(
        v,
        around(w, d, j),
        any(),
    ) by {
        lemma_put(w, v, node, dir, name, root, j);
    }
}

/// Putting an entry in a directory later touches nothing outside it either.
proof fn lemma_put(w: Disk, v: Disk, node: Node, dir: Seq<u8>, name: Seq<u8>, root: Spot, j: Place)
    requires
        path::is_plain(name),
        placed::proper(node),
        placed::sourced(w, node, root),
        disk::below(root, path::components(dir)),
        around(w, path::components(dir), j)(v),
        clear(v, dir, name, j),
    ensures
        placing::materialise_program(node, path::join(dir, name)).upholds(
            v,
            around(w, path::components(dir), j),
            any(),
        ),
{
    let d = path::components(dir);
    lemma_root_same(w, v, d, root, j);
    placed::lemma_sourced_frame(w, v, node, root);
    lemma_materialise(v, node, dir, name, root, j);
    assert forall|u: Disk| #[trigger] around(v, d, j)(u) implies around(w, d, j)(u) by {}
}

proof fn lemma_tree_repair(w: Disk, f: Forest, p: Seq<u8>, root: Spot, j: Place)
    requires
        w.sound(),
        placed::tree_proper(f),
        placed::tree_sourced(w, f, root),
        disk::below(root, path::components(p)),
        tree_shelters(w, f, path::components(p), j),
    ensures
        placing::tree_repair_program(f, p).upholds(w, around(w, path::components(p), j), any()),
    decreases f, 0int,
{
    let c = path::components(p);
    let inv = around(w, c, j);
    if f.len() > 0 {
        lemma_repair(w, f[0].1, p, f[0].0, root, j);
        assert forall|v: Disk| #[trigger] inv(v) implies placing::tree_repair_program(
            f.skip(1),
            p,
        ).upholds(v, inv, any()) by {
            lemma_root_same(w, v, c, root, j);
            placed::lemma_tree_sourced_frame(w, v, f.skip(1), root);
            lemma_tree_repair(v, f.skip(1), p, root, j);
            assert forall|u: Disk| #[trigger] around(v, c, j)(u) implies inv(u) by {}
        }
    }
}

/// Removing an empty directory from a directory touches nothing outside it.
proof fn lemma_remove_empty(w: Disk, w0: Disk, dir: Seq<u8>, name: Seq<u8>, synced: Seq<u8>, j: Place)
    requires
        path::is_plain(name),
        around(w0, path::components(dir), j)(w),
        beside(w, dir, name, j),
    ensures
        transition::remove_empty_program(
            path::join(dir, name),
            atomic::sync_program(synced),
        ).upholds(w, around(w0, path::components(dir), j), any()),
        transition::remove_empty_program(
            path::join(dir, name),
            atomic::sync_parent_program(path::join(dir, name)),
        ).upholds(w, around(w0, path::components(dir), j), any()),
{
    path::lemma_parent(dir, name);
    path::lemma_entry(dir, name);
    lemma_lies_in(path::components(dir), Component::Normal(name));
    lemma_shelter(path::components(dir), Component::Normal(name), j);
}

/// Removing a managed entry from a directory touches nothing outside it.
proof fn lemma_remove_entry(w: Disk, node: Node, dir: Seq<u8>, name: Seq<u8>, j: Place)
    requires
        w.sound(),
        path::is_plain(name),
        placed::proper(node),
        spares(w, node, dir, name, j),
    ensures
        transition::remove_entry_program(node, dir, path::join(dir, name)).upholds(
            w,
            around(w, path::components(dir), j),
            any(),
        ),
    decreases node, 2int,
{
    let p = path::join(dir, name);
    let d = path::components(dir);
    let inv = around(w, d, j);
    path::lemma_entry(dir, name);
    lemma_lies_in(d, Component::Normal(name));
    lemma_shelter(d, Component::Normal(name), j);
    match node {
        Node::Directory { tree, .. } => {
            if disk::is_directory(w.at(p)) {
                lemma_remove_managed(w, tree, dir, name, j);
                assert forall|v: Disk| #[trigger] inv(v) implies transition::remove_empty_program(
                    p,
                    atomic::sync_program(dir),
                ).upholds(v, inv, any()) by {
                    lemma_remove_empty(v, w, dir, name, dir, j);
                }
                if w.hidden.contains(path::components(p)) {
                    path::lemma_parent(dir, name);
                }
            } else {
                lemma_bare(w, dir, name, j);
                lemma_remove(w, dir, name, j);
            }
        },
        _ => {
            lemma_remove(w, dir, name, j);
        },
    }
}

/// Removing the managed entries of a directory touches nothing outside the one that holds it.
proof fn lemma_remove_managed(w: Disk, f: Forest, dir: Seq<u8>, name: Seq<u8>, j: Place)
    requires
        w.sound(),
        path::is_plain(name),
        placed::tree_proper(f),
        disk::is_directory(w.at(path::join(dir, name))),
        spares(w, Node::Directory { mode: 0, tree: f }, dir, name, j),
    ensures
        transition::remove_managed_program(f, path::join(dir, name)).upholds(
            w,
            around(w, path::components(dir), j),
            any(),
        ),
    decreases f, 1int,
{
    let p = path::join(dir, name);
    let d = path::components(dir);
    let c = path::components(p);
    let inv = around(w, d, j);
    path::lemma_entry(dir, name);
    lemma_lies_in(d, Component::Normal(name));
    lemma_shelter(d, Component::Normal(name), j);
    lemma_writable(w, p);
    assert forall|v: Disk| #[trigger] just(w, c)(v) implies inv(v)
        && transition::remove_entries_program(f, p).upholds(v, inv, any()) by {
        lemma_remove_entries(v, f, p, j);
        assert forall|u: Disk| #[trigger] around(v, c, j)(u) implies inv(u) by {}
    }
}

proof fn lemma_remove_entries(w: Disk, f: Forest, p: Seq<u8>, j: Place)
    requires
        w.sound(),
        placed::tree_proper(f),
        tree_shelters(w, f, path::components(p), j),
    ensures
        transition::remove_entries_program(f, p).upholds(w, around(w, path::components(p), j), any()),
    decreases f, 0int,
{
    let c = path::components(p);
    let inv = around(w, c, j);
    if f.len() > 0 {
        lemma_remove_entry(w, f[0].1, p, f[0].0, j);
        assert forall|v: Disk| #[trigger] inv(v) implies transition::remove_entries_program(
            f.skip(1),
            p,
        ).upholds(v, inv, any()) by {
            lemma_remove_entries(v, f.skip(1), p, j);
            assert forall|u: Disk| #[trigger] around(v, c, j)(u) implies inv(u) by {}
        }
    }
}

/// Removing an entry and putting another one touches nothing outside the directory.
proof fn lemma_anew(w: Disk, to: Node, dir: Seq<u8>, name: Seq<u8>, root: Spot, j: Place)
    requires
        w.sound(),
        path::is_plain(name),
        placed::proper(to),
        placed::sourced(w, to, root),
        disk::below(root, path::components(dir)),
        clear(w, dir, name, j),
    ensures
        placing::materialise_program(to, path::join(dir, name)).upholds(
            w,
            around(w, path::components(dir), j),
            any(),
        ),
        placing::remove_program(path::join(dir, name)).and_then(
            |u: ()| placing::materialise_program(to, path::join(dir, name)),
        ).upholds(w, around(w, path::components(dir), j), any()),
        forall|v: Disk| #[trigger]
            around(w, path::components(dir), j)(v) ==> placing::materialise_program(
                to,
                path::join(dir, name),
            ).upholds(v, around(w, path::components(dir), j), any()),
{
    let p = path::join(dir, name);
    let inv = around(w, path::components(dir), j);
    lemma_materialise(w, to, dir, name, root, j);
    lemma_remove(w, dir, name, j);
    assert forall|v: Disk| #[trigger] inv(v) implies placing::materialise_program(to, p).upholds(
        v,
        inv,
        any(),
    ) by {
        lemma_put(w, v, to, dir, name, root, j);
    }
}

proof fn lemma_swap(w: Disk, from: Node, to: Node, dir: Seq<u8>, name: Seq<u8>, root: Spot, j: Place)
    requires
        w.sound(),
        path::is_plain(name),
        placed::proper(to),
        placed::sourced(w, to, root),
        disk::below(root, path::components(dir)),
        clear(w, dir, name, j),
    ensures
        transition::swap_program(from, to, path::join(dir, name)).upholds(
            w,
            around(w, path::components(dir), j),
            any(),
        ),
{
    let p = path::join(dir, name);
    lemma_anew(w, to, dir, name, root, j);
    quiet::lemma_matches(from, p);
    quiet::lemma_quiet(entry::matches_program(from, p), w, around(w, path::components(dir), j));
}

/// Removing a directory with all in it and putting something else touches nothing outside the
/// directory that holds it.
proof fn lemma_emptied(w: Disk, to: Node, dir: Seq<u8>, name: Seq<u8>, root: Spot, j: Place)
    requires
        w.sound(),
        path::is_plain(name),
        placed::proper(to),
        placed::sourced(w, to, root),
        disk::below(root, path::components(dir)),
        clear(w, dir, name, j),
    ensures
        session::act(Request::RemoveTree(path::join(dir, name))).and_then(
            |u: ()|
                atomic::sync_parent_program(path::join(dir, name)).and_then(
                    |u: ()| placing::materialise_program(to, path::join(dir, name)),
                ),
        ).upholds(w, around(w, path::components(dir), j), any()),
{
    let d = path::components(dir);
    path::lemma_parent(dir, name);
    path::lemma_entry(dir, name);
    lemma_lies_in(d, Component::Normal(name));
    lemma_shelter(d, Component::Normal(name), j);
    lemma_anew(w, to, dir, name, root, j);
}

#[verifier::rlimit(30)]
proof fn lemma_dissolve(
    w: Disk,
    from: Node,
    f: Forest,
    to: Node,
    dir: Seq<u8>,
    name: Seq<u8>,
    root: Spot,
    j: Place,
)
    requires
        w.sound(),
        path::is_plain(name),
        placed::proper(to),
        placed::sourced(w, to, root),
        disk::below(root, path::components(dir)),
        placed::tree_proper(f),
        clear(w, dir, name, j) || spares(w, Node::Directory { mode: 0, tree: f }, dir, name, j),
    ensures
        transition::dissolve_program(from, f, to, path::join(dir, name)).upholds(
            w,
            around(w, path::components(dir), j),
            any(),
        ),
{
    let p = path::join(dir, name);
    let inv = around(w, path::components(dir), j);
    quiet::lemma_unmanaged(f, p);
    quiet::lemma_quiet(transition::unmanaged_program(f, p), w, inv);
    if clear(w, dir, name, j) {
        lemma_emptied(w, to, dir, name, root, j);
        lemma_materialise(w, to, dir, name, root, j);
        lemma_swap(w, from, to, dir, name, root, j);
    } else {
        lemma_dissolve_kept(w, from, f, to, dir, name, j);
    }
}

/// A directory that holds something that is not managed is not dissolved.
proof fn lemma_dissolve_kept(
    w: Disk,
    from: Node,
    f: Forest,
    to: Node,
    dir: Seq<u8>,
    name: Seq<u8>,
    j: Place,
)
    requires
        w.sound(),
        path::is_plain(name),
        placed::tree_proper(f),
        !clear(w, dir, name, j),
        spares(w, Node::Directory { mode: 0, tree: f }, dir, name, j),
    ensures
        transition::dissolve_program(from, f, to, path::join(dir, name)).upholds(
            w,
            around(w, path::components(dir), j),
            any(),
        ),
{
    let p = path::join(dir, name);
    let inv = around(w, path::components(dir), j);
    let c = path::components(p);
    let q = transition::unmanaged_program(f, p);
    path::lemma_entry(dir, name);
    lemma_lies_in(path::components(dir), Component::Normal(name));
    lemma_shelter(path::components(dir), Component::Normal(name), j);
    assert(lies_in(c, j.over));
    assert(disk::is_directory(w.at(p)));
    quiet::lemma_unmanaged(f, p);
    quiet::lemma_quiet(q, w, inv);
    managed::law_unmanaged(w, f, p);
    let all = managed::only_managed(w, f, c);
    assert(!all);
    let told = managed::tells_managed(w, all, all);
    reason::lemma_upholds_both(q, w, inv, quiet::still(w), told);
    let both = |v: Disk, r: Result<(), Trouble>| quiet::still(w)(v, r) && told(v, r);
    assert(q.upholds(w, inv, both));
}

proof fn lemma_found(
    w: Disk,
    from: Node,
    mode: u32,
    f: Forest,
    dir: Seq<u8>,
    name: Seq<u8>,
    root: Spot,
    j: Place,
)
    requires
        w.sound(),
        path::is_plain(name),
        placed::proper(Node::Directory { mode, tree: f }),
        placed::tree_sourced(w, f, root),
        disk::below(root, path::components(dir)),
        clear(w, dir, name, j) || spares(w, Node::Directory { mode, tree: f }, dir, name, j),
    ensures
        transition::found_program(from, mode, f, path::join(dir, name)).upholds(
            w,
            around(w, path::components(dir), j),
            any(),
        ),
{
    let p = path::join(dir, name);
    let d = path::components(dir);
    let c = d.push(Component::Normal(name));
    let inv = around(w, d, j);
    let to = Node::Directory { mode, tree: f };
    let q = placing::tree_repair_program(f, p);
    path::lemma_entry(dir, name);
    lemma_lies_in(d, Component::Normal(name));
    lemma_shelter(d, Component::Normal(name), j);
    assert(disk::below(c, c)) by {
        assert(c.take(c.len() as int) =~= c);
    }
    if disk::is_directory(w.at(p)) {
        placed::lemma_below_push(d, Component::Normal(name));
        placed::lemma_below_trans(root, d, c);
        assert forall|v: Disk| #[trigger] inv(v) implies q.upholds(v, around(v, c, j), any()) by {
            lemma_root_same(w, v, d, root, j);
            placed::lemma_tree_sourced_frame(w, v, f, root);
            lemma_tree_repair(v, f, p, root, j);
        }
        lemma_writable_sealed(q, w, w, dir, name, mode, j);
    } else {
        lemma_bare(w, dir, name, j);
        lemma_anew(w, to, dir, name, root, j);
        lemma_swap(w, from, to, dir, name, root, j);
    }
}

proof fn lemma_exchange(w: Disk, from: Node, to: Node, dir: Seq<u8>, name: Seq<u8>, root: Spot, j: Place)
    requires
        w.sound(),
        path::is_plain(name),
        placed::proper(to),
        placed::sourced(w, to, root),
        disk::below(root, path::components(dir)),
        clear(w, dir, name, j),
    ensures
        transition::exchange_program(from, to, path::join(dir, name)).upholds(
            w,
            around(w, path::components(dir), j),
            any(),
        ),
{
    let p = path::join(dir, name);
    let inv = around(w, path::components(dir), j);
    lemma_anew(w, to, dir, name, root, j);
    quiet::lemma_matches(from, p);
    quiet::lemma_quiet(entry::matches_program(from, p), w, inv);
    quiet::lemma_unfolds(to);
    quiet::lemma_quiet(transition::unfolds_program(to), w, inv);
}

proof fn lemma_withdraw(w: Disk, f: Forest, dir: Seq<u8>, name: Seq<u8>, j: Place)
    requires
        w.sound(),
        path::is_plain(name),
        placed::tree_proper(f),
        spares(w, Node::Directory { mode: 0, tree: f }, dir, name, j),
    ensures
        transition::withdraw_program(f, path::join(dir, name)).upholds(
            w,
            around(w, path::components(dir), j),
            any(),
        ),
{
    let p = path::join(dir, name);
    let inv = around(w, path::components(dir), j);
    if disk::is_directory(w.at(p)) {
        lemma_remove_managed(w, f, dir, name, j);
        assert forall|v: Disk| #[trigger] inv(v) implies transition::remove_empty_program(
            p,
            atomic::sync_parent_program(p),
        ).upholds(v, inv, any()) by {
            lemma_remove_empty(v, w, dir, name, dir, j);
        }
    }
}

/// Turning an entry of a directory touches nothing outside it.
proof fn lemma_transition(w: Disk, from: Node, to: Node, dir: Seq<u8>, name: Seq<u8>, root: Spot, j: Place)
    requires
        w.sound(),
        path::is_plain(name),
        placed::proper(from),
        placed::proper(to),
        placed::sourced(w, to, root),
        disk::below(root, path::components(dir)),
        spares(w, from, dir, name, j) || spares(w, to, dir, name, j),
    ensures
        transition::transition_program(from, to, path::join(dir, name)).upholds(
            w,
            around(w, path::components(dir), j),
            any(),
        ),
    decreases from, 1int,
{
    let p = path::join(dir, name);
    let d = path::components(dir);
    let c = d.push(Component::Normal(name));
    let inv = around(w, d, j);
    quiet::lemma_matches(to, p);
    quiet::lemma_quiet(entry::matches_program(to, p), w, inv);
    path::lemma_entry(dir, name);
    lemma_lies_in(d, Component::Normal(name));
    lemma_shelter(d, Component::Normal(name), j);
    assert(disk::below(c, c)) by {
        assert(c.take(c.len() as int) =~= c);
    }
    if clear(w, dir, name, j) {
        lemma_clear_spares(w, from, dir, name, j);
        lemma_clear_spares(w, to, dir, name, j);
    }
    match (from, to) {
        (
            Node::Directory { tree: from_tree, .. },
            Node::Directory { mode, tree: to_tree },
        ) => {
            let q = transition::tree_transition_program(from_tree, to_tree, p);
            placed::lemma_below_push(d, Component::Normal(name));
            placed::lemma_below_trans(root, d, c);
            assert forall|v: Disk| #[trigger] inv(v) implies q.upholds(v, around(v, c, j), any()) by {
                lemma_root_same(w, v, d, root, j);
                placed::lemma_tree_sourced_frame(w, v, to_tree, root);
                lemma_tree_transition_at(v, from_tree, to_tree, p, root, j);
            }
            if disk::is_directory(w.at(p)) {
                lemma_writable_sealed(q, w, w, dir, name, mode, j);
            }
        },
        (Node::Directory { tree, .. }, Node::Absent) => {
            lemma_withdraw(w, tree, dir, name, j);
        },
        (Node::Directory { tree, .. }, _) => {
            lemma_dissolve(w, from, tree, to, dir, name, root, j);
        },
        (_, Node::Directory { mode, tree }) => {
            lemma_found(w, from, mode, tree, dir, name, root, j);
        },
        (_, Node::Absent) => {
            quiet::lemma_matches(from, p);
            quiet::lemma_quiet(entry::matches_program(from, p), w, inv);
            lemma_remove(w, dir, name, j);
        },
        _ => {
            lemma_exchange(w, from, to, dir, name, root, j);
        },
    }
}

/// What does not stand at an entry belongs to none there.
proof fn lemma_clear_spares(w: Disk, node: Node, dir: Seq<u8>, name: Seq<u8>, j: Place)
    requires
        clear(w, dir, name, j),
    ensures
        spares(w, node, dir, name, j),
{
    let c = path::components(dir).push(Component::Normal(name));
    if owns(node, c, j.over) {
        managed::lemma_owns_within(node, c, j.over);
    }
}

/// What does not belong to a tree does not belong to the entry that is found under a name.
proof fn lemma_spares_lookup(w: Disk, f: Forest, dir: Seq<u8>, name: Seq<u8>, j: Place)
    requires
        tree_shelters(w, f, path::components(dir), j),
        tree::lookup(f, name) is Some,
    ensures
        spares(w, tree::lookup(f, name)->Some_0, dir, name, j),
{
    let c = path::components(dir);
    if owns(tree::lookup(f, name)->Some_0, c.push(Component::Normal(name)), j.over) {
        managed::lemma_owned_lookup(f, c, name, j.over);
    }
}

proof fn lemma_tree_transition_at(w: Disk, from: Forest, to: Forest, p: Seq<u8>, root: Spot, j: Place)
    requires
        w.sound(),
        placed::tree_proper(from),
        placed::tree_proper(to),
        placed::tree_sourced(w, to, root),
        disk::below(root, path::components(p)),
        tree_shelters(w, from, path::components(p), j) || tree_shelters(w, to, path::components(p), j),
    ensures
        transition::tree_transition_program(from, to, p).upholds(
            w,
            around(w, path::components(p), j),
            any(),
        ),
    decreases from, 0int,
{
    let c = path::components(p);
    let inv = around(w, c, j);
    if from.len() > 0 && tree::lookup(to, from[0].0) is Some {
        let node = tree::lookup(to, from[0].0)->Some_0;
        turned::lemma_lookup(w, to, from[0].0, root);
        if tree_shelters(w, from, c, j) {
            assert(spares(w, from[0].1, p, from[0].0, j));
        } else {
            lemma_spares_lookup(w, to, p, from[0].0, j);
        }
        lemma_transition(w, from[0].1, node, p, from[0].0, root, j);
        assert forall|v: Disk| #[trigger] inv(v) implies transition::tree_transition_program(
            from.skip(1),
            to,
            p,
        ).upholds(v, inv, any()) by {
            lemma_root_same(w, v, c, root, j);
            placed::lemma_tree_sourced_frame(w, v, to, root);
            assert(tree_shelters(w, from, c, j) ==> tree_shelters(v, from.skip(1), c, j));
            assert(tree_shelters(w, to, c, j) ==> tree_shelters(v, to, c, j));
            lemma_tree_transition_at(v, from.skip(1), to, p, root, j);
            assert forall|u: Disk| #[trigger] around(v, c, j)(u) implies inv(u) by {}
        }
    }
}

/// Whether nothing differs from `w` but what lies in the directory at `c`, and of that nothing that
/// does not belong to what `f` manages, nor anything below what stood there and does not.
pub open spec fn sparing(w: Disk, f: Forest, c: Spot) -> spec_fn(Disk) -> bool {
    |v: Disk|
        {
            &&& inside(w, c)(v)
            &&& forall|j: Spot|
                #![trigger v.get(j)]
                tree_spares(w, f, c, j) ==> v.get(j) == w.get(j)
            &&& forall|z: Spot, j: Spot|
                #![trigger disk::below(z, j), v.get(j)]
                lies_in(c, z) && w.get(z) is Some && !owned(f, c, z) && disk::below(z, j) ==> v.get(
                    j,
                ) == w.get(j)
        }
}

/// Whether a program that keeps each place that is spared keeps all of them.
proof fn lemma_sparing<R>(p: Program<R>, w: Disk, v: Disk, f: Forest, c: Spot)
    requires
        forall|j: Place| #[trigger]
            tree_shelters(w, f, c, j) ==> p.upholds(v, around(w, c, j), any()),
    ensures
        p.upholds(v, sparing(w, f, c), any()),
    decreases p,
{
    let here = Place { at: c, over: c };
    assert(tree_shelters(w, f, c, here));
    assert(p.upholds(v, around(w, c, here), any()));
    assert forall|z: Spot, j: Spot|
        #![trigger disk::below(z, j), v.get(j)]
        lies_in(c, z) && w.get(z) is Some && !owned(f, c, z) && disk::below(z, j) implies v.get(j)
        == w.get(j) by {
        let place = Place { at: j, over: z };
        assert(tree_shelters(w, f, c, place));
        assert(p.upholds(v, around(w, c, place), any()));
    }
    assert forall|j: Spot|
        #![trigger v.get(j)]
        tree_spares(w, f, c, j) implies v.get(j) == w.get(j) by {
        assert(j.take(j.len() as int) =~= j);
        assert(disk::below(j, j));
    }
    match p {
        Program::Ask(request, next) => {
            assert forall|x: Answer, u: Disk| #[trigger] v.leads(request, x, u) implies next(
                x,
            ).upholds(u, sparing(w, f, c), any()) by {
                assert forall|j: Place| #[trigger] tree_shelters(w, f, c, j) implies next(
                    x,
                ).upholds(u, around(w, c, j), any()) by {
                    assert(p.upholds(v, around(w, c, j), any()));
                }
                lemma_sparing(next(x), w, u, f, c);
            }
        },
        _ => {},
    }
}

/// Turning the entries of a directory touches, at any time, nothing outside it, nothing in it that
/// does not belong to the one tree, or to the other, and nothing below such.
pub proof fn law_transition_spares(w: Disk, from: Forest, to: Forest, p: Seq<u8>, f: Forest, root: Spot)
    requires
        w.sound(),
        placed::tree_proper(from),
        placed::tree_proper(to),
        placed::tree_sourced(w, to, root),
        disk::below(root, path::components(p)),
        f == from || f == to,
    ensures
        transition::tree_transition_program(from, to, p).upholds(
            w,
            sparing(w, f, path::components(p)),
            any(),
        ),
{
    let c = path::components(p);
    let q = transition::tree_transition_program(from, to, p);
    assert forall|j: Place| #[trigger] tree_shelters(w, f, c, j) implies q.upholds(
        w,
        around(w, c, j),
        any(),
    ) by {
        lemma_tree_transition_at(w, from, to, p, root, j);
    }
    lemma_sparing(q, w, w, f, c);
}

/// Repairing the entries of a directory touches, at any time, nothing outside it, nothing in it that
/// does not belong to them, and nothing below such.
pub proof fn law_repair_spares(w: Disk, f: Forest, p: Seq<u8>, root: Spot)
    requires
        w.sound(),
        placed::tree_proper(f),
        placed::tree_sourced(w, f, root),
        disk::below(root, path::components(p)),
    ensures
        placing::tree_repair_program(f, p).upholds(w, sparing(w, f, path::components(p)), any()),
{
    let c = path::components(p);
    let q = placing::tree_repair_program(f, p);
    assert forall|j: Place| #[trigger] tree_shelters(w, f, c, j) implies q.upholds(
        w,
        around(w, c, j),
        any(),
    ) by {
        lemma_tree_repair(w, f, p, root, j);
    }
    lemma_sparing(q, w, w, f, c);
}

} // verus!
