//! What becomes of the files of the layers of an image.
use vstd::prelude::*;

use crate::bytes;
use crate::disk;
use crate::disk::{Disk, Object};
use crate::entry;
use crate::error::Trouble;
use crate::glob;
use crate::host;
use crate::host::Metadata;
use crate::path;
use crate::path::Component;
use crate::projection;
use crate::projection::{ImageModel, LayerModel, Placement};
use crate::rules;
use crate::rules::{RuleAction, RuleModel};
use crate::standing;
use crate::tree;
use crate::tree::{Forest, Node};

verus! {

broadcast use crate::reason::group_reason;

/// Whether this is the action of the last of the rules that matches a path, or none matches.
pub open spec fn chosen(
    list: Seq<RuleModel>,
    p: Seq<u8>,
    is_directory: bool,
    action: Option<RuleAction>,
) -> bool {
    match action {
        Some(action) => exists|i: int|
            {
                &&& 0 <= i < list.len()
                &&& (#[trigger] list[i]).action == action
                &&& glob::verdict_on(list[i].globs, p, is_directory) is Matched
                &&& forall|j: int|
                    i < j < list.len() ==> !(glob::verdict_on(
                        (#[trigger] list[j]).globs,
                        p,
                        is_directory,
                    ) is Matched)
            },
        None => forall|j: int|
            0 <= j < list.len() ==> !(glob::verdict_on(
                (#[trigger] list[j]).globs,
                p,
                is_directory,
            ) is Matched),
    }
}

/// One action at most is that of the last rule that matches.
pub proof fn law_chosen_once(
    list: Seq<RuleModel>,
    p: Seq<u8>,
    is_directory: bool,
    a: Option<RuleAction>,
    b: Option<RuleAction>,
)
    requires
        chosen(list, p, is_directory, a),
        chosen(list, p, is_directory, b),
    ensures
        a == b,
{
}

/// Whether an entry called `name` is what becomes of what stands in the directory `rel` of a layer under
/// that name.
///
/// A symbolic link stays one with its target. A directory stays one: with its permissions where the last
/// rule that matches copies it, with those of that rule where it says some, else with its own and that
/// its owner may write; and so on below. A file becomes a copy with its permissions where that rule
/// copies it, a copy with those of the rule where it says some, else a link to it. What that rule leaves
/// out becomes nothing.
pub open spec fn becomes(
    w: Disk,
    source: Seq<u8>,
    rel: Seq<u8>,
    list: Seq<RuleModel>,
    name: Seq<u8>,
    node: Node,
) -> bool
    decreases node, 1int,
{
    let at = path::join(path::join(source, rel), name);
    let child = path::join(rel, name);
    exists|action: Option<RuleAction>|
        {
            &&& #[trigger] chosen(list, child, disk::is_directory(w.at(at)), action)
            &&& action != Some(RuleAction::Ignore)
            &&& match w.at(at) {
                Some(Object::Symlink(target)) => node == Node::Symlink { target },
                Some(Object::Directory(m)) => node matches Node::Directory { mode, tree } && mode
                    == (match action {
                    Some(RuleAction::CopyWithMode(said)) => said,
                    Some(RuleAction::Copy) => m,
                    _ => m | 0o200,
                }) && tree_becomes(w, source, child, list, tree),
                Some(Object::File(_, m)) => match action {
                    Some(RuleAction::CopyWithMode(said)) => node == Node::Copy {
                        source: at,
                        mode: said,
                    },
                    Some(RuleAction::Copy) => node == Node::Copy { source: at, mode: m },
                    _ => node == Node::Link { source: at },
                },
                _ => false,
            }
        }
}

/// Whether a tree is what becomes of the directory `rel` of a layer: each of its entries is what becomes
/// of what stands there under its name, and there is one for each name under which something stands that
/// is not left out.
pub open spec fn tree_becomes(
    w: Disk,
    source: Seq<u8>,
    rel: Seq<u8>,
    list: Seq<RuleModel>,
    f: Forest,
) -> bool
    decreases f, 0int,
{
    &&& tree::orderly(f)
    &&& forall|i: int|
        0 <= i < f.len() ==> becomes(w, source, rel, list, (#[trigger] f[i]).0, f[i].1)
    &&& forall|name: Seq<u8>|
        path::is_plain(name) && #[trigger] tree::lookup(f, name) is None ==> left_out(
            w,
            source,
            rel,
            list,
            name,
        )
}

/// Whether nothing stands in the directory `rel` of a layer under a name, or what stands there is left
/// out.
pub open spec fn left_out(
    w: Disk,
    source: Seq<u8>,
    rel: Seq<u8>,
    list: Seq<RuleModel>,
    name: Seq<u8>,
) -> bool {
    let at = path::join(path::join(source, rel), name);
    w.at(at) is None || chosen(
        list,
        path::join(rel, name),
        disk::is_directory(w.at(at)),
        Some(RuleAction::Ignore),
    )
}

/// Whether an entry is what becomes of what stands under its name, with names in order.
#[verifier::opaque]
spec fn comes(
    w: Disk,
    source: Seq<u8>,
    rel: Seq<u8>,
    list: Seq<RuleModel>,
    name: Seq<u8>,
    node: Node,
) -> bool {
    becomes(w, source, rel, list, name, node) && tree::orderly_node(node)
}

/// Whether a tree is what becomes of a directory.
#[verifier::opaque]
spec fn tree_comes(w: Disk, source: Seq<u8>, rel: Seq<u8>, list: Seq<RuleModel>, f: Forest) -> bool {
    tree_becomes(w, source, rel, list, f)
}

/// Whether each entry is what becomes of what stands under its name.
spec fn all_become(
    w: Disk,
    source: Seq<u8>,
    rel: Seq<u8>,
    list: Seq<RuleModel>,
    f: Forest,
) -> bool {
    forall|i: int|
        0 <= i < f.len() ==> comes(w, source, rel, list, (#[trigger] f[i]).0, f[i].1)
}

/// That nothing changed and, if the operation succeeded, the named entries of a directory were added as
/// what becomes of them.
spec fn added(
    w: Disk,
    source: Seq<u8>,
    rel: Seq<u8>,
    list: Seq<RuleModel>,
    names: Seq<Seq<u8>>,
    read: Forest,
) -> spec_fn(Disk, Result<Forest, Trouble>) -> bool {
    |v: Disk, r: Result<Forest, Trouble>|
        v == w && (r matches Ok(f) ==> {
            &&& tree::orderly(f)
            &&& all_become(w, source, rel, list, f)
            &&& forall|name: Seq<u8>|
                #![trigger tree::lookup(f, name)]
                tree::lookup(f, name) is None ==> tree::lookup(read, name) is None && (
                names.contains(name) ==> left_out(w, source, rel, list, name))
        })
}

/// That nothing changed and, if the operation succeeded, a tree is what becomes of a directory of a
/// layer.
pub open spec fn reads(w: Disk, source: Seq<u8>, rel: Seq<u8>, list: Seq<RuleModel>) -> spec_fn(
    Disk,
    Result<Forest, Trouble>,
) -> bool {
    |v: Disk, r: Result<Forest, Trouble>|
        v == w && (r matches Ok(f) ==> tree_becomes(w, source, rel, list, f))
}

/// The last rule that matches is the one that governs.
proof fn lemma_governing(list: Seq<RuleModel>, p: Seq<u8>, is_directory: bool)
    ensures
        chosen(list, p, is_directory, rules::governing(list, p, is_directory)),
{
    rules::law_governing(list, p, is_directory);
}

/// Reading a directory of a layer gives what becomes of it.
pub proof fn law_walk(w: Disk, source: Seq<u8>, rel: Seq<u8>, list: Seq<RuleModel>)
    requires
        w.sound(),
        path::relative(rel),
        disk::is_directory(w.at(path::join(source, rel))),
    ensures
        projection::walk_program(source, rel, list).meets(w, reads(w, source, rel, list)),
{
    lemma_walk(w, source, rel, list);
    assert forall|v: Disk, r: Result<Forest, Trouble>| #[trigger]
        walks(w, source, rel, list)(v, r) implies reads(w, source, rel, list)(v, r) by {
        reveal(tree_comes);
    }
}

/// That nothing changed and, if the operation succeeded, a tree is what becomes of a directory.
spec fn walks(w: Disk, source: Seq<u8>, rel: Seq<u8>, list: Seq<RuleModel>) -> spec_fn(
    Disk,
    Result<Forest, Trouble>,
) -> bool {
    |v: Disk, r: Result<Forest, Trouble>|
        v == w && (r matches Ok(f) ==> tree_comes(w, source, rel, list, f))
}

proof fn lemma_walk(w: Disk, source: Seq<u8>, rel: Seq<u8>, list: Seq<RuleModel>)
    requires
        w.sound(),
        path::relative(rel),
        disk::is_directory(w.at(path::join(source, rel))),
    ensures
        projection::walk_program(source, rel, list).meets(w, walks(w, source, rel, list)),
    decreases usize::MAX - rel.len(), 1int, 0int,
{
    let none = Seq::<(Seq<u8>, Node)>::empty();
    let c = path::components(path::join(source, rel));
    let post = walks(w, source, rel, list);
    assert(tree::orderly(none));
    assert forall|names: Seq<Seq<u8>>| #[trigger]
        w.lists(c, names) && host::all_plain(names) implies projection::walk_names_program(
        source,
        rel,
        list,
        names,
        none,
    ).meets(w, post) by {
        lemma_walk_names(w, source, rel, list, names, none);
        let all = added(w, source, rel, list, names, none);
        assert forall|v: Disk, r: Result<Forest, Trouble>| #[trigger] all(v, r) implies post(v, r) by {
            if r is Ok {
                lemma_whole(w, source, rel, list, names, r->Ok_0);
            }
        }
    }
}

/// What becomes of all that a directory holds is what becomes of the directory.
proof fn lemma_whole(
    w: Disk,
    source: Seq<u8>,
    rel: Seq<u8>,
    list: Seq<RuleModel>,
    names: Seq<Seq<u8>>,
    f: Forest,
)
    requires
        w.lists(path::components(path::join(source, rel)), names),
        added(w, source, rel, list, names, Seq::empty())(w, Ok(f)),
    ensures
        tree_comes(w, source, rel, list, f),
{
    let dir = path::join(source, rel);
    let c = path::components(dir);
    reveal(tree_comes);
    assert forall|i: int| 0 <= i < f.len() implies becomes(
        w,
        source,
        rel,
        list,
        (#[trigger] f[i]).0,
        f[i].1,
    ) by {
        reveal(comes);
        assert(comes(w, source, rel, list, f[i].0, f[i].1));
    }
    assert forall|name: Seq<u8>|
        path::is_plain(name) && #[trigger] tree::lookup(f, name) is None implies left_out(
        w,
        source,
        rel,
        list,
        name,
    ) by {
        path::lemma_entry(dir, name);
        if !names.contains(name) {
            assert(w.get(c.push(Component::Normal(name))) is None);
        }
    }
}

proof fn lemma_walk_names(
    w: Disk,
    source: Seq<u8>,
    rel: Seq<u8>,
    list: Seq<RuleModel>,
    names: Seq<Seq<u8>>,
    read: Forest,
)
    requires
        w.sound(),
        path::relative(rel),
        host::all_plain(names),
        tree::orderly(read),
        all_become(w, source, rel, list, read),
    ensures
        projection::walk_names_program(source, rel, list, names, read).meets(
            w,
            added(w, source, rel, list, names, read),
        ),
    decreases usize::MAX - rel.len(), 0int, names.len(),
{
    let post = added(w, source, rel, list, names, read);
    if names.len() > 0 {
        let name = names[0];
        let later = names.skip(1);
        let child = path::join(rel, name);
        let at = path::join(path::join(source, rel), name);
        assert(path::is_plain(names[0]));
        path::lemma_plain(name);
        path::lemma_join(rel, name);
        path::lemma_join(source, rel);
        path::lemma_join(source, child);
        path::lemma_entry(path::join(source, rel), name);
        assert(path::components(path::join(source, child)) =~= path::components(at));
        assert forall|i: int| 0 <= i < later.len() implies path::is_plain(#[trigger] later[i]) by {
            assert(later[i] == names[i + 1]);
        }
        assert forall|n: Seq<u8>| #[trigger] names.contains(n) implies n == name || later.contains(
            n,
        ) by {
            let i = choose|i: int| 0 <= i < names.len() && names[i] == n;
            if i > 0 {
                assert(later[i - 1] == n);
            }
        }
        let out = added(w, source, rel, list, later, read);
        lemma_walk_names(w, source, rel, list, later, read);
        assert(left_out(w, source, rel, list, name) ==> projection::walk_names_program(
            source,
            rel,
            list,
            later,
            read,
        ).meets(w, post)) by {
            if left_out(w, source, rel, list, name) {
                assert forall|v: Disk, r: Result<Forest, Trouble>| #[trigger]
                    out(v, r) implies post(v, r) by {}
            }
        }
        if entry::deeper(rel, child) && disk::is_directory(w.at(at)) {
            lemma_walk(w, source, child, list);
        }
        assert forall|node: Node|
            #![trigger tree::put(read, name, node)]
            comes(w, source, rel, list, name, node) implies projection::walk_names_program(
            source,
            rel,
            list,
            later,
            tree::put(read, name, node),
        ).meets(w, post) by {
            lemma_put_comes(w, source, rel, list, read, name, node);
            let more = tree::put(read, name, node);
            lemma_walk_names(w, source, rel, list, later, more);
            let rest = added(w, source, rel, list, later, more);
            assert forall|v: Disk, r: Result<Forest, Trouble>| #[trigger] rest(v, r) implies post(
                v,
                r,
            ) by {
                if r is Ok {
                    let f = r->Ok_0;
                    assert forall|n: Seq<u8>|
                        #![trigger tree::lookup(f, n)]
                        tree::lookup(f, n) is None implies tree::lookup(read, n) is None && (
                    names.contains(n) ==> left_out(w, source, rel, list, n)) by {
                        tree::law_put(read, name, node, n);
                    }
                }
            }
        }
        lemma_step(w, source, rel, list, names, read, post);
    }
}

/// The first of the named entries is read as what becomes of it, and then the others.
#[verifier::rlimit(40)]
proof fn lemma_step(
    w: Disk,
    source: Seq<u8>,
    rel: Seq<u8>,
    list: Seq<RuleModel>,
    names: Seq<Seq<u8>>,
    read: Forest,
    post: spec_fn(Disk, Result<Forest, Trouble>) -> bool,
)
    requires
        names.len() > 0,
        forall|e: Trouble| #[trigger] post(w, Err(e)),
        left_out(w, source, rel, list, names[0]) ==> projection::walk_names_program(
            source,
            rel,
            list,
            names.skip(1),
            read,
        ).meets(w, post),
        forall|node: Node|
            #![trigger tree::put(read, names[0], node)]
            comes(w, source, rel, list, names[0], node) ==> projection::walk_names_program(
                source,
                rel,
                list,
                names.skip(1),
                tree::put(read, names[0], node),
            ).meets(w, post),
        entry::deeper(rel, path::join(rel, names[0])) && disk::is_directory(
            w.at(path::join(path::join(source, rel), names[0])),
        ) ==> projection::walk_program(source, path::join(rel, names[0]), list).meets(
            w,
            walks(w, source, path::join(rel, names[0]), list),
        ),
    ensures
        projection::walk_names_program(source, rel, list, names, read).meets(w, post),
{
    let name = names[0];
    let child = path::join(rel, name);
    let at = path::join(path::join(source, rel), name);
    assert forall|m: Metadata|
        #![trigger disk::describes(m, w.at(at)->Some_0)]
        w.at(at) is Some && disk::describes(m, w.at(at)->Some_0) implies fits(
        w,
        source,
        rel,
        list,
        name,
        projection::placement(m, rules::governing(list, child, m.kind is Directory)),
    ) by {
        lemma_fits(w, source, rel, list, name, m);
    }
}

/// Whether a placement is that of what stands in the directory `rel` of a layer under a name.
spec fn fits(
    w: Disk,
    source: Seq<u8>,
    rel: Seq<u8>,
    list: Seq<RuleModel>,
    name: Seq<u8>,
    placement: Placement,
) -> bool {
    let at = path::join(path::join(source, rel), name);
    match placement {
        Placement::Skip => left_out(w, source, rel, list, name),
        Placement::Symlink => forall|target: Seq<u8>|
            w.at(at) == Some(Object::Symlink(target)) ==> #[trigger] comes(
                w,
                source,
                rel,
                list,
                name,
                Node::Symlink { target },
            ),
        Placement::Directory(mode) => disk::is_directory(w.at(at)) && forall|f: Forest|
            tree_comes(w, source, path::join(rel, name), list, f) ==> #[trigger] comes(
                w,
                source,
                rel,
                list,
                name,
                Node::Directory { mode, tree: f },
            ),
        Placement::Copy(mode) => comes(
            w,
            source,
            rel,
            list,
            name,
            Node::Copy { source: at, mode },
        ),
        Placement::Link => comes(w, source, rel, list, name, Node::Link { source: at }),
        Placement::Unsupported => true,
    }
}

/// What is placed by the rule that governs it becomes what it should.
proof fn lemma_fits(
    w: Disk,
    source: Seq<u8>,
    rel: Seq<u8>,
    list: Seq<RuleModel>,
    name: Seq<u8>,
    m: Metadata,
)
    requires
        w.at(path::join(path::join(source, rel), name)) matches Some(o) && disk::describes(m, o),
    ensures
        fits(
            w,
            source,
            rel,
            list,
            name,
            projection::placement(
                m,
                rules::governing(list, path::join(rel, name), m.kind is Directory),
            ),
        ),
{
    let child = path::join(rel, name);
    let action = rules::governing(list, child, m.kind is Directory);
    lemma_governing(list, child, m.kind is Directory);
    let at = path::join(path::join(source, rel), name);
    reveal(comes);
    reveal(tree_comes);
    assert(disk::is_directory(w.at(at)) == m.kind is Directory);
    assert(chosen(list, child, disk::is_directory(w.at(at)), action));
    match projection::placement(m, action) {
        Placement::Symlink => {
            assert forall|target: Seq<u8>|
                w.at(at) == Some(Object::Symlink(target)) implies #[trigger] comes(
                w,
                source,
                rel,
                list,
                name,
                Node::Symlink { target },
            ) by {
                assert(chosen(list, child, disk::is_directory(w.at(at)), action));
            }
        },
        Placement::Directory(mode) => {
            assert forall|f: Forest|
                tree_comes(w, source, child, list, f) implies #[trigger] comes(
                w,
                source,
                rel,
                list,
                name,
                Node::Directory { mode, tree: f },
            ) by {
                assert(chosen(list, child, disk::is_directory(w.at(at)), action));
            }
        },
        Placement::Copy(mode) => {
            assert(comes(w, source, rel, list, name, Node::Copy { source: at, mode }));
        },
        Placement::Link => {
            assert(comes(w, source, rel, list, name, Node::Link { source: at }));
        },
        _ => {},
    }
}

/// Adding what becomes of something keeps a tree one of such.
proof fn lemma_put_comes(
    w: Disk,
    source: Seq<u8>,
    rel: Seq<u8>,
    list: Seq<RuleModel>,
    read: Forest,
    name: Seq<u8>,
    node: Node,
)
    requires
        tree::orderly(read),
        all_become(w, source, rel, list, read),
        comes(w, source, rel, list, name, node),
    ensures
        tree::orderly(tree::put(read, name, node)),
        all_become(w, source, rel, list, tree::put(read, name, node)),
{
    let g = tree::put(read, name, node);
    assert(tree::orderly_node(node)) by {
        reveal(comes);
    }
    tree::law_put_orderly(read, name, node);
    tree::law_put_sorted(read, name, node);
    assert forall|i: int| 0 <= i < g.len() implies comes(
        w,
        source,
        rel,
        list,
        (#[trigger] g[i]).0,
        g[i].1,
    ) by {
        if g[i] != (name, node) {
            let k = choose|k: int| 0 <= k < read.len() && read[k] == g[i];
            assert(comes(w, source, rel, list, read[k].0, read[k].1));
        }
    }
}

/// Whether a tree is what becomes of a layer, by the rules that its text says.
pub open spec fn layer_becomes(w: Disk, layer: LayerModel, f: Forest) -> bool {
    &&& path::absolute(layer.source)
    &&& disk::is_directory(w.at(layer.source))
    &&& projection::relative(layer.target)
    &&& rules::parsed(layer.rules) matches Ok(list) && tree_becomes(
        w,
        layer.source,
        Seq::empty(),
        list,
        f,
    )
}

/// That nothing changed and, if the operation succeeded, a tree is what becomes of a layer.
pub open spec fn reads_layer(w: Disk, layer: LayerModel) -> spec_fn(
    Disk,
    Result<Forest, Trouble>,
) -> bool {
    |v: Disk, r: Result<Forest, Trouble>|
        v == w && (r matches Ok(f) ==> layer_becomes(w, layer, f))
}

/// Reading a layer gives what becomes of it.
pub proof fn law_layer(w: Disk, layer: LayerModel)
    requires
        w.sound(),
    ensures
        projection::layer_program(layer).meets(w, reads_layer(w, layer)),
{
    let none = Seq::<u8>::empty();
    standing::lemma_nothing();
    path::lemma_join(layer.source, none);
    assert(path::components(path::join(layer.source, none)) =~= path::components(layer.source));
    if rules::parsed(layer.rules) is Ok && disk::is_directory(w.at(layer.source)) {
        law_walk(w, layer.source, none, rules::parsed(layer.rules)->Ok_0);
    }
}

/// The entry at a path of names below a tree.
pub open spec fn found_at(f: Forest, names: Seq<Seq<u8>>) -> Option<Node>
    decreases names.len(),
{
    if names.len() == 0 {
        None
    } else if names.len() == 1 {
        tree::lookup(f, names[0])
    } else {
        match tree::lookup(f, names[0]) {
            Some(Node::Directory { tree, .. }) => found_at(tree, names.skip(1)),
            _ => None,
        }
    }
}

/// The path of names below a directory.
pub open spec fn joined(rel: Seq<u8>, names: Seq<Seq<u8>>) -> Seq<u8>
    decreases names.len(),
{
    if names.len() == 0 {
        rel
    } else {
        joined(path::join(rel, names[0]), names.skip(1))
    }
}

/// An entry is a directory if and only if what it comes from is one.
proof fn lemma_becomes_directory(
    w: Disk,
    source: Seq<u8>,
    rel: Seq<u8>,
    list: Seq<RuleModel>,
    f: Forest,
    name: Seq<u8>,
)
    requires
        tree_becomes(w, source, rel, list, f),
    ensures
        tree::lookup(f, name) matches Some(node) ==> {
            &&& becomes(w, source, rel, list, name, node)
            &&& node is Directory <==> disk::is_directory(
                w.at(path::join(path::join(source, rel), name)),
            )
            &&& node matches Node::Directory { tree, .. } ==> tree_becomes(
                w,
                source,
                path::join(rel, name),
                list,
                tree,
            )
        },
{
    tree::lemma_slot(f, name);
    if tree::lookup(f, name) is Some {
        let k = tree::slot(f, name);
        assert(becomes(w, source, rel, list, f[k].0, f[k].1));
    }
}

/// What stands in the directory of a layer that names lead to becomes the entry that they lead to in the
/// tree, if it is not left out, nor any of the directories on the way.
pub proof fn law_found_at(
    w: Disk,
    source: Seq<u8>,
    rel: Seq<u8>,
    list: Seq<RuleModel>,
    f: Forest,
    names: Seq<Seq<u8>>,
)
    requires
        tree_becomes(w, source, rel, list, f),
        names.len() > 0,
        host::all_plain(names),
    ensures
        match found_at(f, names) {
            Some(node) => becomes(
                w,
                source,
                joined(rel, names.drop_last()),
                list,
                names.last(),
                node,
            ),
            None => exists|k: int|
                0 <= k < names.len() && #[trigger] blocked(w, source, rel, list, names, k),
        },
    decreases names.len(), 1int,
{
    let node = tree::lookup(f, names[0]);
    lemma_becomes_directory(w, source, rel, list, f, names[0]);
    assert(path::is_plain(names[0]));
    assert(names.take(0) =~= Seq::<Seq<u8>>::empty());
    assert(joined(rel, names.take(0)) == rel);
    if names.len() == 1 {
        assert(names.drop_last() =~= Seq::<Seq<u8>>::empty());
        if node is None {
            assert(blocked(w, source, rel, list, names, 0));
        }
    } else if node is Some && node->Some_0 is Directory {
        lemma_found_below(w, source, rel, list, f, names, node->Some_0->tree);
    } else {
        assert(blocked(w, source, rel, list, names, 0));
    }
}

proof fn lemma_found_below(
    w: Disk,
    source: Seq<u8>,
    rel: Seq<u8>,
    list: Seq<RuleModel>,
    f: Forest,
    names: Seq<Seq<u8>>,
    inner: Forest,
)
    requires
        names.len() > 1,
        host::all_plain(names),
        tree::lookup(f, names[0]) matches Some(Node::Directory { tree, .. }) && tree == inner,
        tree_becomes(w, source, path::join(rel, names[0]), list, inner),
    ensures
        match found_at(f, names) {
            Some(node) => becomes(
                w,
                source,
                joined(rel, names.drop_last()),
                list,
                names.last(),
                node,
            ),
            None => exists|k: int|
                0 <= k < names.len() && #[trigger] blocked(w, source, rel, list, names, k),
        },
    decreases names.len(), 0int,
{
    let later = names.skip(1);
    let child = path::join(rel, names[0]);
    assert forall|i: int| 0 <= i < later.len() implies path::is_plain(#[trigger] later[i]) by {
        assert(later[i] == names[i + 1]);
    }
    law_found_at(w, source, child, list, inner, later);
    assert(later.drop_last() =~= names.drop_last().skip(1));
    assert(names.drop_last()[0] == names[0]);
    assert(joined(rel, names.drop_last()) == joined(child, later.drop_last()));
    assert(later.last() == names.last());
    if found_at(f, names) is None {
        let k = choose|k: int|
            0 <= k < later.len() && #[trigger] blocked(w, source, child, list, later, k);
        assert(later.take(k) =~= names.take(k + 1).skip(1));
        assert(names.take(k + 1)[0] == names[0]);
        assert(joined(rel, names.take(k + 1)) == joined(child, later.take(k)));
        assert(later[k] == names[k + 1]);
        assert(blocked(w, source, rel, list, names, k + 1));
    }
}

/// Whether the way along names ends at the one with the number `k`: what stands there is left out, or,
/// where the way goes on, is no directory.
pub open spec fn blocked(
    w: Disk,
    source: Seq<u8>,
    rel: Seq<u8>,
    list: Seq<RuleModel>,
    names: Seq<Seq<u8>>,
    k: int,
) -> bool {
    let dir = joined(rel, names.take(k));
    left_out(w, source, dir, list, names[k]) || (k + 1 < names.len() && !disk::is_directory(
        w.at(path::join(path::join(source, dir), names[k])),
    ))
}

/// The names among the components of a path.
pub open spec fn names_in(list: Seq<Component<Seq<u8>>>) -> Seq<Seq<u8>>
    decreases list.len(),
{
    if list.len() == 0 {
        Seq::empty()
    } else {
        match list.last() {
            Component::Normal(name) => names_in(list.drop_last()).push(name),
            _ => names_in(list.drop_last()),
        }
    }
}

/// A tree that is placed at a target is found there, in directories that others may read and pass
/// through; along other ways nothing is.
pub proof fn law_wrapped(f: Forest, list: Seq<Component<Seq<u8>>>, way: Seq<Seq<u8>>)
    ensures
        ({
            let target = names_in(list);
            let n = target.len() as int;
            let found = found_at(tree::wrapped(f, list), way);
            &&& way.len() > n && way.take(n) == target ==> found == found_at(f, way.skip(n))
            &&& 0 < way.len() <= n && way == target.take(way.len() as int) ==> (
            found matches Some(Node::Directory { mode, .. }) && mode == 0o755)
            &&& way.len() > 0 && !(way.len() > n && way.take(n) == target) && !(way.len() <= n && way
                == target.take(way.len() as int)) ==> found is None
        }),
    decreases list.len(),
{
    let target = names_in(list);
    let n = target.len() as int;
    if list.len() == 0 {
        assert(way.take(0) =~= target);
        assert(way.skip(0) =~= way);
    } else {
        let before = list.drop_last();
        match list.last() {
            Component::Normal(name) => {
                let node = Node::Directory { mode: 0o755, tree: f };
                let outer = seq![(name, node)];
                let inner = names_in(before);
                let m = inner.len() as int;
                law_wrapped(outer, before, way);
                assert(target == inner.push(name));
                let rest = way.skip(m);
                assert(tree::lookup(outer, name) == Some(node));
                assert forall|other: Seq<u8>| other != name implies #[trigger] tree::lookup(
                    outer,
                    other,
                ) is None by {
                    assert(outer.skip(1).len() == 0);
                    assert(tree::slot(outer, other) == 1 + tree::slot(outer.skip(1), other));
                }
                if way.len() > m {
                    if way.take(n) == target && way.len() >= n {
                        assert(way.take(m) =~= way.take(n).take(m));
                        assert(target.take(m) =~= inner);
                        assert(rest[0] == way.take(n)[m]);
                    }
                    if way.take(m) == inner {
                        if rest[0] == name {
                            assert(way.take(n) =~= target);
                            if way.len() > n {
                                assert(rest.skip(1) =~= way.skip(n));
                            } else {
                                assert(way =~= target.take(way.len() as int));
                            }
                        }
                        if way.len() == n && way == target.take(n) {
                            assert(rest[0] == target[m]);
                        }
                    }
                    if way.len() <= n && way == target.take(way.len() as int) {
                        assert(way.take(m) =~= inner);
                        assert(rest[0] == target[m]);
                    }
                } else {
                    assert(target.take(way.len() as int) =~= inner.take(way.len() as int));
                }
            },
            _ => {
                law_wrapped(f, before, way);
            },
        }
    }
}

/// Of two trees laid over each other, along a way: what the later has there, if it is no directory; a
/// directory with the permissions of the later, if it has one; and what the earlier has, if the later has
/// nothing there and does not block the way.
pub proof fn law_merged_at(earlier: Forest, later: Forest, way: Seq<Seq<u8>>)
    requires
        tree::orderly(later),
        way.len() > 0,
    ensures
        match found_at(later, way) {
            Some(Node::Directory { mode, .. }) => found_at(
                tree::merged(earlier, later),
                way,
            ) matches Some(Node::Directory { mode: m, .. }) && m == mode,
            Some(node) => found_at(tree::merged(earlier, later), way) == Some(node),
            None => !bars(later, way) ==> found_at(tree::merged(earlier, later), way) == found_at(
                earlier,
                way,
            ),
        },
        bars(later, way) ==> found_at(tree::merged(earlier, later), way) is None,
    decreases way.len(),
{
    lemma_distinct(later);
    tree::law_merged(earlier, later, way[0]);
    tree::lemma_slot(later, way[0]);
    let over = tree::lookup(later, way[0]);
    if over is Some {
        assert(tree::orderly_node(later[tree::slot(later, way[0])].1));
    }
    if way.len() > 1 {
        let rest = way.skip(1);
        match (tree::lookup(earlier, way[0]), over) {
            (
                Some(Node::Directory { tree: under, .. }),
                Some(Node::Directory { tree: upper, .. }),
            ) => {
                law_merged_at(under, upper, rest);
                lemma_bars(later, way);
            },
            (_, Some(Node::Directory { tree: upper, .. })) => {
                lemma_bars(later, way);
                lemma_barred(upper, rest);
            },
            (_, Some(_)) => {
                lemma_bars(later, way);
            },
            (_, None) => {
                lemma_bars(later, way);
            },
        }
    } else {
        assert(!bars(later, way)) by {
            if bars(later, way) {
                let k = choose|k: int|
                    0 < k < way.len() && (#[trigger] found_at(later, way.take(k)) matches Some(
                        node,
                    ) && !(node is Directory));
            }
        }
    }
}

/// Whether a tree has something on a way, before its end, that is no directory.
pub open spec fn bars(f: Forest, way: Seq<Seq<u8>>) -> bool {
    exists|k: int|
        0 < k < way.len() && (#[trigger] found_at(f, way.take(k)) matches Some(node) && !(
        node is Directory))
}

/// A way is barred at its first name, or further on.
proof fn lemma_bars(f: Forest, way: Seq<Seq<u8>>)
    requires
        way.len() > 1,
    ensures
        bars(f, way) <==> match tree::lookup(f, way[0]) {
            Some(Node::Directory { tree, .. }) => bars(tree, way.skip(1)),
            Some(_) => true,
            None => false,
        },
{
    let rest = way.skip(1);
    let first = way.take(1);
    assert(first.len() == 1 && first[0] == way[0]);
    assert(found_at(f, first) == tree::lookup(f, way[0]));
    assert forall|k: int| 1 < k < way.len() implies #[trigger] found_at(f, way.take(k)) == (
    match tree::lookup(f, way[0]) {
        Some(Node::Directory { tree, .. }) => found_at(tree, rest.take(k - 1)),
        _ => None,
    }) by {
        assert(way.take(k)[0] == way[0]);
        assert(way.take(k).skip(1) =~= rest.take(k - 1));
    }
    if bars(f, way) {
        let k = choose|k: int|
            0 < k < way.len() && (#[trigger] found_at(f, way.take(k)) matches Some(node) && !(
            node is Directory));
        if k > 1 {
            match tree::lookup(f, way[0]) {
                Some(Node::Directory { tree, .. }) => {
                    assert(found_at(tree, rest.take(k - 1)) == found_at(f, way.take(k)));
                },
                _ => {},
            }
        }
    }
    match tree::lookup(f, way[0]) {
        Some(Node::Directory { tree, .. }) => {
            if bars(tree, rest) {
                let k = choose|k: int|
                    0 < k < rest.len() && (#[trigger] found_at(tree, rest.take(k)) matches Some(
                        node,
                    ) && !(node is Directory));
                assert(found_at(f, way.take(k + 1)) == found_at(tree, rest.take(k)));
            }
        },
        _ => {},
    }
}

/// Along a way that is barred nothing is found.
proof fn lemma_barred(f: Forest, way: Seq<Seq<u8>>)
    ensures
        bars(f, way) ==> found_at(f, way) is None,
    decreases way.len(),
{
    if way.len() > 1 {
        lemma_bars(f, way);
        match tree::lookup(f, way[0]) {
            Some(Node::Directory { tree, .. }) => {
                lemma_barred(tree, way.skip(1));
            },
            _ => {},
        }
    }
}

/// Names that come in order are distinct.
proof fn lemma_distinct(f: Forest)
    requires
        tree::sorted(f),
    ensures
        tree::distinct(f),
{
    assert forall|i: int, j: int| 0 <= i < j < f.len() implies (#[trigger] f[i]).0 != (
    #[trigger] f[j]).0 by {
        assert(bytes::precedes(f[i].0, f[j].0));
        bytes::lemma_precedes_total(f[i].0, f[i].0);
    }
}

/// Trees laid over each other, the last on top.
pub open spec fn stacked(parts: Seq<Forest>) -> Forest
    decreases parts.len(),
{
    if parts.len() == 0 {
        Seq::empty()
    } else {
        tree::merged(stacked(parts.drop_last()), parts.last())
    }
}

/// Whether a tree is what becomes of a layer, placed at its target.
pub open spec fn is_part(w: Disk, layer: LayerModel, part: Forest) -> bool {
    tree::orderly(part) && exists|f: Forest| #[trigger]
        layer_becomes(w, layer, f) && part == tree::wrapped(f, path::components(layer.target))
}

/// Whether the trees are what becomes of the layers, each placed at its target.
pub open spec fn are_parts(w: Disk, layers: Seq<LayerModel>, parts: Seq<Forest>) -> bool {
    &&& parts.len() == layers.len()
    &&& forall|i: int| 0 <= i < layers.len() ==> is_part(w, layers[i], #[trigger] parts[i])
}

/// That nothing changed and, if the operation succeeded, what becomes of the layers, each placed at its
/// target, was laid over each other, the last on top.
pub open spec fn piles(w: Disk, layers: Seq<LayerModel>) -> spec_fn(
    Disk,
    Result<Forest, Trouble>,
) -> bool {
    |v: Disk, r: Result<Forest, Trouble>|
        v == w && (r matches Ok(f) ==> exists|parts: Seq<Forest>| #[trigger]
            are_parts(w, layers, parts) && f == stacked(parts))
}

proof fn lemma_pile(
    w: Disk,
    layers: Seq<LayerModel>,
    before: Seq<LayerModel>,
    parts: Seq<Forest>,
)
    requires
        w.sound(),
        are_parts(w, before, parts),
    ensures
        projection::layers_program(layers, stacked(parts)).meets(w, piles(w, before + layers)),
    decreases layers.len(),
{
    let post = piles(w, before + layers);
    if layers.len() == 0 {
        assert(before + layers =~= before);
    } else {
        let layer = layers[0];
        let later = layers.skip(1);
        let more = before.push(layer);
        assert(more + later =~= before + layers);
        law_layer(w, layer);
        assert forall|v: Disk, r: Result<Forest, Trouble>| #[trigger]
            reads_layer(w, layer)(v, r) && r is Ok implies projection::layers_program(
            later,
            tree::merged(
                stacked(parts),
                tree::wrapped(r->Ok_0, path::components(layer.target)),
            ),
        ).meets(v, post) by {
            let part = tree::wrapped(r->Ok_0, path::components(layer.target));
            let all = parts.push(part);
            assert(all.drop_last() =~= parts);
            tree::law_wrapped_orderly(r->Ok_0, path::components(layer.target));
            assert(is_part(w, layer, part));
            assert forall|i: int| 0 <= i < more.len() implies is_part(
                w,
                more[i],
                #[trigger] all[i],
            ) by {
                if i < before.len() {
                    assert(all[i] == parts[i]);
                }
            }
            lemma_pile(w, later, more, all);
        }
    }
}

/// Compiling an image lays what becomes of its layers over each other, each placed at its target, the
/// last on top.
pub proof fn law_piled(w: Disk, image: ImageModel)
    requires
        w.sound(),
    ensures
        projection::compile_program(image).meets(w, piles(w, image.layers)),
{
    let none = Seq::<Forest>::empty();
    lemma_pile(w, image.layers, Seq::empty(), none);
    assert(Seq::<LayerModel>::empty() + image.layers =~= image.layers);
}

/// What one of several trees has along a way, and is no directory, is what all have there, if none of the
/// later ones has anything there or bars the way. Where none has anything, all have nothing.
pub proof fn law_topmost(parts: Seq<Forest>, way: Seq<Seq<u8>>, i: int)
    requires
        way.len() > 0,
        0 <= i <= parts.len(),
        forall|j: int| 0 <= j < parts.len() ==> tree::orderly(#[trigger] parts[j]),
        forall|j: int|
            i <= j < parts.len() ==> found_at(#[trigger] parts[j], way) is None && !bars(
                parts[j],
                way,
            ),
    ensures
        i > 0 && (found_at(parts[i - 1], way) matches Some(node) && !(node is Directory))
            ==> found_at(stacked(parts), way) == found_at(parts[i - 1], way),
        i == 0 ==> found_at(stacked(parts), way) is None,
    decreases parts.len(),
{
    if parts.len() > 0 {
        let before = parts.drop_last();
        assert forall|j: int| 0 <= j < before.len() implies tree::orderly(#[trigger] before[j]) by {
            assert(before[j] == parts[j]);
        }
        assert(parts[parts.len() - 1] == parts.last());
        assert(tree::orderly(parts.last()));
        law_merged_at(stacked(before), parts.last(), way);
        if i < parts.len() {
            assert forall|j: int| i <= j < before.len() implies found_at(
                #[trigger] before[j],
                way,
            ) is None && !bars(before[j], way) by {
                assert(before[j] == parts[j]);
            }
            law_topmost(before, way, i);
            if i > 0 {
                assert(before[i - 1] == parts[i - 1]);
            }
        }
    }
}

} // verus!
