//! When an entry stands on a disk, and that looking tells it.
use vstd::prelude::*;

use crate::bytes;
use crate::disk;
use crate::disk::{Disk, Object, Spot};
use crate::entry;
use crate::entry::{Drift, Tally};
use crate::error::{Error, Trouble};
use crate::path;
use crate::path::Component;
use crate::tree::{Forest, Modes, Node};

verus! {

broadcast use crate::reason::group_reason;

/// The recorded permissions of what lies at `rest` below a backup.
pub open spec fn mode_of(modes: Modes, rest: Spot) -> Option<u32>
    decreases modes.len(),
{
    if modes.len() == 0 {
        None
    } else if path::components(modes[0].0) == rest {
        Some(modes[0].1)
    } else {
        mode_of(modes.skip(1), rest)
    }
}

/// Whether `o` is like `model`, a file or directory with these permissions.
pub open spec fn twin(model: Option<Object>, o: Option<Object>, mode: Option<u32>) -> bool {
    match (model, o) {
        (None, None) => true,
        (Some(Object::Symlink(a)), Some(Object::Symlink(b))) => path::equal(a, b),
        (Some(Object::File(a, _)), Some(Object::File(b, m))) => a == b && mode == Some(m),
        (Some(Object::Directory(_)), Some(Object::Directory(m))) => mode == Some(m),
        _ => false,
    }
}

/// Whether what lies at `at` below `target` and further down is like what lies there below
/// `source`, with the recorded permissions.
pub open spec fn alike(w: Disk, source: Spot, target: Spot, at: Spot, modes: Modes) -> bool {
    forall|rest: Spot| #[trigger]
        disk::below(at, rest) ==> twin(
            w.get(source + rest),
            w.get(target + rest),
            mode_of(modes, rest),
        )
}

/// Whether an entry stands at `p`.
pub open spec fn stands(w: Disk, node: Node, p: Seq<u8>) -> bool
    decreases node, 1int,
{
    match node {
        Node::Absent => w.at(p) is None,
        Node::Directory { mode, tree } => w.at(p) == Some(Object::Directory(mode)) && tree_stands(
            w,
            tree,
            p,
        ),
        Node::Link { source } => w.at(p) matches Some(Object::Symlink(t)) && path::equal(t, source),
        Node::Copy { source, mode } => match (w.at(p), w.read(source)) {
            (Some(Object::File(a, m)), Some(b)) => a == b && m == mode,
            _ => false,
        },
        Node::Symlink { target } => w.at(p) matches Some(Object::Symlink(t)) && path::equal(
            t,
            target,
        ),
        Node::Snapshot { source, modes } => w.at(p) is Some && alike(
            w,
            path::components(source),
            path::components(p),
            Seq::empty(),
            modes,
        ),
    }
}

/// Whether the entries stand below `root`.
pub open spec fn tree_stands(w: Disk, f: Forest, root: Seq<u8>) -> bool
    decreases f, 0int,
{
    f.len() == 0 || (stands(w, f[0].1, path::join(root, f[0].0)) && tree_stands(
        w,
        f.skip(1),
        root,
    ))
}

/// That a look changed nothing and, if it did not fail, told the truth.
pub open spec fn tells(w: Disk, truth: bool) -> spec_fn(Disk, Result<bool, Trouble>) -> bool {
    |v: Disk, r: Result<bool, Trouble>| v == w && (r matches Ok(told) ==> told == truth)
}

proof fn lemma_mode_at(modes: Modes, rel: Seq<u8>)
    ensures
        entry::mode_at(modes, rel) == mode_of(modes, path::components(rel)),
    decreases modes.len(),
{
    if modes.len() > 0 {
        lemma_mode_at(modes.skip(1), rel);
    }
}

/// Looking at an entry tells whether it stands.
pub proof fn law_matches(w: Disk, node: Node, p: Seq<u8>)
    requires
        w.sound(),
    ensures
        entry::matches_program(node, p).meets(w, tells(w, stands(w, node, p))),
    decreases node, 1int,
{
    match node {
        Node::Directory { mode, tree } => {
            law_tree_matches(w, tree, p);
        },
        Node::Snapshot { source, modes } => {
            let (s, t) = (path::components(source), path::components(p));
            lemma_nothing();
            assert(s =~= Seq::empty() || s.len() > 0);
            assert(t =~= Seq::empty() || t.len() > 0);
            if s.len() > 0 && t.len() > 0 {
                lemma_snapshot(w, source, p, Seq::empty(), modes);
            }
        },
        _ => {},
    }
}

pub proof fn law_tree_matches(w: Disk, f: Forest, root: Seq<u8>)
    requires
        w.sound(),
    ensures
        entry::tree_matches_program(f, root).meets(w, tells(w, tree_stands(w, f, root))),
    decreases f, 0int,
{
    if f.len() > 0 {
        law_matches(w, f[0].1, path::join(root, f[0].0));
        law_tree_matches(w, f.skip(1), root);
    }
}

/// Whether a failure tells that an image is not as it was left.
pub open spec fn blames(e: Trouble) -> bool {
    e matches Error::Refused(refusal, _) && refusal is ImageChanged
}

/// That a look for drifts changed nothing, left those that were found before in front and, if it did
/// not fail, found one more if and only if not all stood; a failure of it tells nothing of the image.
pub open spec fn counts(w: Disk, found: Seq<Drift<Seq<u8>>>, truth: bool) -> spec_fn(
    Disk,
    Tally,
) -> bool {
    |v: Disk, t: Tally|
        {
            &&& v == w
            &&& found.len() <= t.1.len()
            &&& t.1.take(found.len() as int) == found
            &&& t.0 is Ok ==> (t.1 == found <==> truth)
            &&& t.0 is Err ==> !blames(t.0->Err_0)
        }
}

/// Drifts that begin with some that begin with others begin with those.
proof fn lemma_counts(a: Seq<Drift<Seq<u8>>>, b: Seq<Drift<Seq<u8>>>, c: Seq<Drift<Seq<u8>>>)
    requires
        a.len() <= b.len() <= c.len(),
        b.take(a.len() as int) == a,
        c.take(b.len() as int) == b,
    ensures
        c.take(a.len() as int) == a,
        c == a <==> c == b && b == a,
{
    assert(c.take(a.len() as int) =~= c.take(b.len() as int).take(a.len() as int));
    assert(c.len() == b.len() ==> c =~= c.take(b.len() as int));
    assert(b.len() == a.len() ==> b =~= b.take(a.len() as int));
}

/// Looking for the drifts of an entry finds one if and only if the entry does not stand: there is
/// none, and those found before are all, exactly where a look at the entry tells that it stands.
pub proof fn law_drifts(w: Disk, node: Node, p: Seq<u8>, found: Seq<Drift<Seq<u8>>>)
    requires
        w.sound(),
    ensures
        entry::drifts_program(node, p, found).meets(w, counts(w, found, stands(w, node, p))),
    decreases node, 1int,
{
    assert(found.take(found.len() as int) =~= found);
    assert forall|x: Drift<Seq<u8>>| #[trigger]
        found.push(x).take(found.len() as int) == found && found.push(x) != found by {
        assert(found.push(x).take(found.len() as int) =~= found);
        assert(found.push(x).len() != found.len());
    }
    match node {
        Node::Directory { mode, tree } => {
            let more = found.push(Drift::Permissions(p));
            law_tree_drifts(w, tree, p, found);
            law_tree_drifts(w, tree, p, more);
            assert forall|v: Disk, t: Tally| #[trigger]
                counts(w, more, tree_stands(w, tree, p))(v, t) implies counts(w, found, false)(
                v,
                t,
            ) by {
                lemma_counts(found, more, t.1);
            }
        },
        _ => {},
    }
}

/// Looking for the drifts of a tree finds one if and only if an entry does not stand; those found
/// before stay in front.
pub proof fn law_tree_drifts(w: Disk, f: Forest, root: Seq<u8>, found: Seq<Drift<Seq<u8>>>)
    requires
        w.sound(),
    ensures
        entry::tree_drifts_program(f, root, found).meets(
            w,
            counts(w, found, tree_stands(w, f, root)),
        ),
    decreases f, 0int,
{
    let post = counts(w, found, tree_stands(w, f, root));
    assert(found.take(found.len() as int) =~= found);
    if f.len() > 0 {
        let first = counts(w, found, stands(w, f[0].1, path::join(root, f[0].0)));
        law_drifts(w, f[0].1, path::join(root, f[0].0), found);
        assert forall|v: Disk, t: Tally| #[trigger] first(v, t) && t.0 is Ok implies entry::tree_drifts_program(
            f.skip(1),
            root,
            t.1,
        ).meets(w, post) by {
            let rest = counts(w, t.1, tree_stands(w, f.skip(1), root));
            law_tree_drifts(w, f.skip(1), root, t.1);
            assert forall|u: Disk, x: Tally| #[trigger] rest(u, x) implies post(u, x) by {
                lemma_counts(found, t.1, x.1);
            }
        }
    }
}

/// That a look for drifts changed nothing and, if it did not fail, found none if and only if all
/// stood; a failure of it tells nothing of the image.
pub open spec fn finds(w: Disk, truth: bool) -> spec_fn(Disk, Tally) -> bool {
    |v: Disk, t: Tally|
        v == w && (t.0 is Ok ==> (t.1.len() == 0 <==> truth)) && (t.0 is Err ==> !blames(t.0->Err_0))
}

/// Looking for the drifts of a tree finds none if and only if all its entries stand.
pub proof fn law_drifts_found(w: Disk, f: Forest, root: Seq<u8>)
    requires
        w.sound(),
    ensures
        entry::tree_drifts_program(f, root, Seq::empty()).meets(
            w,
            finds(w, tree_stands(w, f, root)),
        ),
{
    let none = Seq::<Drift<Seq<u8>>>::empty();
    let truth = tree_stands(w, f, root);
    law_tree_drifts(w, f, root, none);
    assert forall|v: Disk, t: Tally| #[trigger] counts(w, none, truth)(v, t) implies finds(
        w,
        truth,
    )(v, t) by {
        assert(t.1.len() == 0 ==> t.1 =~= none);
    }
}

pub proof fn lemma_spot(base: Seq<u8>, rel: Seq<u8>)
    requires
        path::relative(rel),
    ensures
        path::components(entry::spot(base, rel)) == path::components(base) + path::components(rel),
{
    path::lemma_join(base, rel);
    if rel.len() == 0 {
        lemma_nothing();
        assert(rel =~= Seq::<u8>::empty());
        assert(path::components(base) + path::components(rel) =~= path::components(base));
    }
}

/// The empty path has no components.
pub proof fn lemma_nothing()
    ensures
        path::components(Seq::empty()) == Seq::<Component<Seq<u8>>>::empty(),
        path::relative(Seq::empty()),
{
    let none = Seq::<u8>::empty();
    assert(path::segments(none)[0].len() == 0);
    assert(path::lead(none) =~= Seq::<Component<Seq<u8>>>::empty());
    assert(path::segments(none).drop_last() =~= Seq::<Seq<u8>>::empty());
    assert(path::named(path::segments(none).drop_last()) =~= Seq::<Component<Seq<u8>>>::empty());
    assert(path::components(none) =~= Seq::<Component<Seq<u8>>>::empty());
}

/// Below what is no directory lies nothing.
pub proof fn lemma_leaf(w: Disk, base: Spot, at: Spot, rest: Spot)
    requires
        w.sound(),
        disk::below(at, rest),
        rest != at,
        (base + at).len() > 0,
        !disk::is_directory(w.get(base + at)),
    ensures
        w.get(base + rest) is None,
{
    assert((base + rest).take((base + at).len() as int) =~= base + at) by {
        assert(rest =~= at + rest.skip(at.len() as int));
    }
    assert(disk::below(base + at, base + rest));
    assert(base + at != base + rest) by {
        if base + at == base + rest {
            assert((base + at).skip(base.len() as int) =~= at);
            assert((base + rest).skip(base.len() as int) =~= rest);
        }
    }
}

/// Two places that are no directories are alike if their objects are.
proof fn lemma_alike_leaf(w: Disk, source: Spot, target: Spot, at: Spot, modes: Modes)
    requires
        w.sound(),
        source.len() > 0,
        target.len() > 0,
        !disk::is_directory(w.get(source + at)),
        !disk::is_directory(w.get(target + at)),
    ensures
        alike(w, source, target, at, modes) == twin(
            w.get(source + at),
            w.get(target + at),
            mode_of(modes, at),
        ),
{
    assert(at.take(at.len() as int) =~= at);
    assert(disk::below(at, at));
    if twin(w.get(source + at), w.get(target + at), mode_of(modes, at)) {
        assert forall|rest: Spot| #[trigger] disk::below(at, rest) implies twin(
            w.get(source + rest),
            w.get(target + rest),
            mode_of(modes, rest),
        ) by {
            if rest != at {
                lemma_leaf(w, source, at, rest);
                lemma_leaf(w, target, at, rest);
            }
        }
    }
}

/// Whether all named entries at `at` are alike.
pub open spec fn all_alike(
    w: Disk,
    source: Spot,
    target: Spot,
    at: Spot,
    modes: Modes,
    names: Seq<Seq<u8>>,
) -> bool {
    forall|i: int|
        #![trigger names[i]]
        0 <= i < names.len() ==> alike(
            w,
            source,
            target,
            at.push(Component::Normal(names[i])),
            modes,
        )
}

/// What lies at `at.push(c)` lies below `at`.
proof fn lemma_step(at: Spot, c: Component<Seq<u8>>, rest: Spot)
    requires
        disk::below(at.push(c), rest),
    ensures
        disk::below(at, rest),
        rest != at,
{
    assert(rest.take(at.len() as int) =~= rest.take(at.push(c).len() as int).take(at.len() as int));
    assert(at.push(c).take(at.len() as int) =~= at);
}

/// Two directories are alike if they have the same names, and their entries are alike.
proof fn lemma_alike_directory(
    w: Disk,
    source: Spot,
    target: Spot,
    at: Spot,
    modes: Modes,
    x: Seq<Seq<u8>>,
    y: Seq<Seq<u8>>,
)
    requires
        w.sound(),
        source.len() > 0,
        target.len() > 0,
        disk::is_directory(w.get(source + at)),
        disk::is_directory(w.get(target + at)),
        twin(w.get(source + at), w.get(target + at), mode_of(modes, at)),
        w.lists(source + at, x),
        w.lists(target + at, y),
        crate::host::all_plain(x),
        crate::host::all_plain(y),
    ensures
        bytes::ascending(x) == bytes::ascending(y) ==> alike(w, source, target, at, modes)
            == all_alike(w, source, target, at, modes, bytes::ascending(x)),
        bytes::ascending(x) != bytes::ascending(y) ==> !alike(w, source, target, at, modes),
{
    let names = bytes::ascending(x);
    bytes::lemma_ascending(x);
    bytes::lemma_ascending(y);
    assert(at.take(at.len() as int) =~= at);
    if alike(w, source, target, at, modes) {
        assert forall|name: Seq<u8>| #[trigger] x.contains(name) <==> y.contains(name) by {
            let c = Component::Normal(name);
            assert((source + at).push(c) =~= source + at.push(c));
            assert((target + at).push(c) =~= target + at.push(c));
            assert(at.push(c).take(at.len() as int) =~= at);
            assert(disk::below(at, at.push(c)));
            if x.contains(name) {
                let i = choose|i: int| 0 <= i < x.len() && x[i] == name;
                assert(path::is_plain(x[i]));
            }
            if y.contains(name) {
                let i = choose|i: int| 0 <= i < y.len() && y[i] == name;
                assert(path::is_plain(y[i]));
            }
        }
        bytes::lemma_ascending_same(x, y);
        assert forall|i: int|
            #![trigger names[i]]
            0 <= i < names.len() implies alike(
            w,
            source,
            target,
            at.push(Component::Normal(names[i])),
            modes,
        ) by {
            let c = Component::Normal(names[i]);
            assert forall|rest: Spot| #[trigger] disk::below(at.push(c), rest) implies twin(
                w.get(source + rest),
                w.get(target + rest),
                mode_of(modes, rest),
            ) by {
                lemma_step(at, c, rest);
            }
        }
    }
    if names == bytes::ascending(y) && all_alike(w, source, target, at, modes, names) {
        assert forall|rest: Spot| #[trigger] disk::below(at, rest) implies twin(
            w.get(source + rest),
            w.get(target + rest),
            mode_of(modes, rest),
        ) by {
            if rest == at {
            } else {
                assert(rest.take(rest.len() as int) =~= rest);
                let c = rest[at.len() as int];
                let child = at.push(c);
                assert(rest.take(child.len() as int) =~= child);
                assert(disk::below(child, rest));
                if w.get(source + rest) is Some || w.get(target + rest) is Some {
                    let base = if w.get(source + rest) is Some {
                        source
                    } else {
                        target
                    };
                    lemma_ancestor(w, base, child, rest);
                    assert((base + at).push(c) =~= base + child);
                    let name = c->Normal_0;
                    if base == source {
                        assert(x.contains(name));
                    } else {
                        assert(y.contains(name));
                        assert(bytes::ascending(y).contains(name));
                    }
                    assert(names.contains(name));
                    let i = choose|i: int| 0 <= i < names.len() && names[i] == name;
                    assert(alike(w, source, target, at.push(Component::Normal(names[i])), modes));
                }
            }
        }
    }
}

/// Above what stands somewhere stand directories, under the names of entries.
pub proof fn lemma_ancestor(w: Disk, base: Spot, at: Spot, rest: Spot)
    requires
        w.sound(),
        base.len() > 0,
        at.len() > 0,
        disk::below(at, rest),
        w.get(base + rest) is Some,
    ensures
        w.get(base + at) is Some,
        at.last() matches Component::Normal(name) && path::is_plain(name),
{
    if at != rest {
        if w.get(base + at) is None {
            lemma_leaf(w, base, at, rest);
        }
    }
    assert((base + at).last() == at.last());
}

proof fn lemma_snapshot(
    w: Disk,
    source: Seq<u8>,
    target: Seq<u8>,
    rel: Seq<u8>,
    modes: Modes,
)
    requires
        w.sound(),
        path::relative(rel),
        path::components(source).len() > 0,
        path::components(target).len() > 0,
    ensures
        entry::snapshot_program(source, target, rel, modes).meets(
            w,
            tells(
                w,
                alike(
                    w,
                    path::components(source),
                    path::components(target),
                    path::components(rel),
                    modes,
                ),
            ),
        ),
    decreases usize::MAX - rel.len(), 1int, 0int,
{
    let (s, t, at) = (
        path::components(source),
        path::components(target),
        path::components(rel),
    );
    lemma_spot(source, rel);
    lemma_spot(target, rel);
    lemma_mode_at(modes, rel);
    assert(at.take(at.len() as int) =~= at);
    assert(disk::below(at, at));
    if !disk::is_directory(w.get(s + at)) && !disk::is_directory(w.get(t + at)) {
        lemma_alike_leaf(w, s, t, at, modes);
    } else {
        assert forall|x: Seq<Seq<u8>>, y: Seq<Seq<u8>>|
            #![trigger w.lists(s + at, x), w.lists(t + at, y)]
            w.lists(s + at, x) && w.lists(t + at, y) && crate::host::all_plain(x)
                && crate::host::all_plain(y) && twin(
                w.get(s + at),
                w.get(t + at),
                mode_of(modes, at),
            ) && bytes::ascending(x) == bytes::ascending(y) implies entry::snapshot_names_program(
            source,
            target,
            rel,
            modes,
            bytes::ascending(x),
        ).meets(w, tells(w, alike(w, s, t, at, modes))) by {
            lemma_alike_directory(w, s, t, at, modes, x, y);
            bytes::lemma_ascending(x);
            assert forall|i: int| 0 <= i < bytes::ascending(x).len() implies path::is_plain(
                #[trigger] bytes::ascending(x)[i],
            ) by {
                assert(bytes::ascending(x).contains(bytes::ascending(x)[i]));
                let k = choose|k: int| 0 <= k < x.len() && x[k] == bytes::ascending(x)[i];
                assert(path::is_plain(x[k]));
            }
            lemma_snapshot_names(w, source, target, rel, modes, bytes::ascending(x));
        }
        assert forall|x: Seq<Seq<u8>>, y: Seq<Seq<u8>>|
            #![trigger w.lists(s + at, x), w.lists(t + at, y)]
            w.lists(s + at, x) && w.lists(t + at, y) && crate::host::all_plain(x)
                && crate::host::all_plain(y) && twin(
                w.get(s + at),
                w.get(t + at),
                mode_of(modes, at),
            ) && bytes::ascending(x) != bytes::ascending(y) implies !alike(
            w,
            s,
            t,
            at,
            modes,
        ) by {
            lemma_alike_directory(w, s, t, at, modes, x, y);
        }
    }
}

proof fn lemma_snapshot_names(
    w: Disk,
    source: Seq<u8>,
    target: Seq<u8>,
    rel: Seq<u8>,
    modes: Modes,
    names: Seq<Seq<u8>>,
)
    requires
        w.sound(),
        path::relative(rel),
        path::components(source).len() > 0,
        path::components(target).len() > 0,
        crate::host::all_plain(names),
    ensures
        entry::snapshot_names_program(source, target, rel, modes, names).meets(
            w,
            tells(
                w,
                all_alike(
                    w,
                    path::components(source),
                    path::components(target),
                    path::components(rel),
                    modes,
                    names,
                ),
            ),
        ),
    decreases usize::MAX - rel.len(), 0int, names.len(),
{
    let (s, t, at) = (
        path::components(source),
        path::components(target),
        path::components(rel),
    );
    if names.len() > 0 {
        let child = path::join(rel, names[0]);
        assert(path::is_plain(names[0]));
        path::lemma_plain(names[0]);
        path::lemma_join(rel, names[0]);
        path::lemma_entry(rel, names[0]);
        assert forall|i: int| 0 <= i < names.skip(1).len() implies path::is_plain(
            #[trigger] names.skip(1)[i],
        ) by {
            assert(names.skip(1)[i] == names[i + 1]);
        }
        if entry::deeper(rel, child) {
            lemma_snapshot(w, source, target, child, modes);
        }
        lemma_snapshot_names(w, source, target, rel, modes, names.skip(1));
        assert(all_alike(w, s, t, at, modes, names) == (alike(
            w,
            s,
            t,
            at.push(Component::Normal(names[0])),
            modes,
        ) && all_alike(w, s, t, at, modes, names.skip(1)))) by {
            if all_alike(w, s, t, at, modes, names.skip(1)) && alike(
                w,
                s,
                t,
                at.push(Component::Normal(names[0])),
                modes,
            ) {
                assert forall|i: int|
                    #![trigger names[i]]
                    0 <= i < names.len() implies alike(
                    w,
                    s,
                    t,
                    at.push(Component::Normal(names[i])),
                    modes,
                ) by {
                    if i > 0 {
                        assert(names.skip(1)[i - 1] == names[i]);
                    }
                }
            }
            if all_alike(w, s, t, at, modes, names) {
                assert forall|i: int|
                    #![trigger names.skip(1)[i]]
                    0 <= i < names.skip(1).len() implies alike(
                    w,
                    s,
                    t,
                    at.push(Component::Normal(names.skip(1)[i])),
                    modes,
                ) by {
                    assert(names.skip(1)[i] == names[i + 1]);
                }
            }
        }
    }
}

} // verus!
