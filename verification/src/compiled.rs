//! That the tree that layers make can be mounted.
use vstd::prelude::*;

use crate::backed;
use crate::bytes;
use crate::cycle;
use crate::disk;
use crate::disk::{Disk, Spot};
use crate::entry;
use crate::error::Trouble;
use crate::host;
use crate::host::{Answer, Metadata};
use crate::mounted;
use crate::path;
use crate::path::Component;
use crate::placed;
use crate::projection;
use crate::projection::{ImageModel, LayerModel, Placement};
use crate::rules;
use crate::rules::{RuleAction, RuleModel};
use crate::tree;
use crate::tree::{Forest, Node};

verus! {

broadcast use crate::reason::group_reason;

/// Whether an entry is one that layers make: names come in order, copies are of files in the
/// store, and something is to stand everywhere.
pub open spec fn good(w: Disk, node: Node) -> bool
    decreases node, 1int,
{
    match node {
        Node::Directory { mode, tree } => placed::is_mode(mode) && tree_good(w, tree),
        Node::Link { .. } => true,
        Node::Copy { source, mode } => placed::is_mode(mode) && disk::is_file(w.at(source))
            && disk::in_vault(path::components(source)),
        Node::Symlink { .. } => true,
        _ => false,
    }
}

/// Whether a tree is one that layers make.
pub open spec fn tree_good(w: Disk, f: Forest) -> bool
    decreases f, 0int,
{
    &&& tree::sorted(f)
    &&& forall|i: int| 0 <= i < f.len() ==> path::is_plain((#[trigger] f[i]).0) && good(w, f[i].1)
}

/// The later entries of a good tree are good.
proof fn lemma_good_rest(w: Disk, f: Forest)
    requires
        tree_good(w, f),
        f.len() > 0,
    ensures
        tree_good(w, f.skip(1)),
        good(w, f[0].1),
        path::is_plain(f[0].0),
        forall|i: int| 0 < i < f.len() ==> (#[trigger] f[i]).0 != f[0].0,
{
    let later = f.skip(1);
    assert forall|i: int, j: int| 0 <= i < j < later.len() implies bytes::precedes(
        (#[trigger] later[i]).0,
        (#[trigger] later[j]).0,
    ) by {
        assert(later[i] == f[i + 1] && later[j] == f[j + 1]);
    }
    assert forall|i: int| 0 <= i < later.len() implies path::is_plain((#[trigger] later[i]).0)
        && good(w, later[i].1) by {
        assert(later[i] == f[i + 1]);
    }
    assert(f[0] == f[0]);
    assert forall|i: int| 0 < i < f.len() implies (#[trigger] f[i]).0 != f[0].0 by {
        assert(bytes::precedes(f[0].0, f[i].0));
        bytes::lemma_precedes_total(f[0].0, f[0].0);
    }
}

/// What layers make can be mounted.
proof fn lemma_good(w: Disk, node: Node, root: Spot)
    requires
        good(w, node),
        disk::apart(root, disk::vault()),
    ensures
        placed::proper(node),
        tree::orderly_node(node),
        placed::sourced(w, node, root),
        backed::stored(node),
        mounted::solid(node),
    decreases node, 1int,
{
    match node {
        Node::Directory { tree, .. } => {
            lemma_tree_good(w, tree, root);
        },
        Node::Copy { source, .. } => {
            placed::lemma_apart_below(root, disk::vault(), path::components(source));
        },
        _ => {},
    }
}

proof fn lemma_tree_good(w: Disk, f: Forest, root: Spot)
    requires
        tree_good(w, f),
        disk::apart(root, disk::vault()),
    ensures
        placed::tree_proper(f),
        tree::orderly(f),
        placed::tree_sourced(w, f, root),
        backed::tree_stored(f),
        mounted::tree_solid(f),
    decreases f, 0int,
{
    if f.len() > 0 {
        lemma_good_rest(w, f);
        lemma_good(w, f[0].1, root);
        lemma_tree_good(w, f.skip(1), root);
        assert forall|i: int| 0 <= i < f.len() implies tree::orderly_node((#[trigger] f[i]).1) by {
            if i > 0 {
                assert(f.skip(1)[i - 1] == f[i]);
            }
        }
    }
}

/// A good entry put into a good tree makes a good tree.
proof fn lemma_put_good(w: Disk, f: Forest, name: Seq<u8>, node: Node)
    requires
        tree_good(w, f),
        path::is_plain(name),
        good(w, node),
    ensures
        tree_good(w, tree::put(f, name, node)),
{
    let g = tree::put(f, name, node);
    tree::law_put_sorted(f, name, node);
    assert forall|i: int| 0 <= i < g.len() implies path::is_plain((#[trigger] g[i]).0) && good(
        w,
        g[i].1,
    ) by {
        if g[i] != (name, node) {
            let k = choose|k: int| 0 <= k < f.len() && f[k] == g[i];
            assert(path::is_plain(f[k].0));
        }
    }
}

proof fn lemma_laid_over_good(w: Disk, earlier: Option<Node>, node: Node)
    requires
        good(w, node),
        earlier is Some ==> good(w, earlier->Some_0),
    ensures
        good(w, tree::laid_over(earlier, node)),
    decreases node, 1int,
{
    match (earlier, node) {
        (Some(Node::Directory { tree, .. }), Node::Directory { tree: later, .. }) => {
            lemma_merged_good(w, tree, later);
        },
        _ => {},
    }
}

/// Good trees laid over each other make a good tree.
proof fn lemma_merged_good(w: Disk, earlier: Forest, later: Forest)
    requires
        tree_good(w, earlier),
        tree_good(w, later),
    ensures
        tree_good(w, tree::merged(earlier, later)),
    decreases later, 0int,
{
    if later.len() > 0 {
        let before = later.drop_last();
        let so_far = tree::merged(earlier, before);
        let (name, node) = (later.last().0, later.last().1);
        assert forall|i: int, j: int| 0 <= i < j < before.len() implies bytes::precedes(
            (#[trigger] before[i]).0,
            (#[trigger] before[j]).0,
        ) by {
            assert(before[i] == later[i] && before[j] == later[j]);
        }
        assert forall|i: int| 0 <= i < before.len() implies path::is_plain((#[trigger] before[i]).0)
            && good(w, before[i].1) by {
            assert(before[i] == later[i]);
        }
        lemma_merged_good(w, earlier, before);
        assert(later[later.len() - 1] == later.last());
        let under = tree::lookup(so_far, name);
        if under is Some {
            tree::lemma_slot(so_far, name);
            assert(good(w, so_far[tree::slot(so_far, name)].1));
        }
        lemma_laid_over_good(w, under, node);
        lemma_put_good(w, so_far, name, tree::laid_over(under, node));
    }
}

/// A good tree inside directories is good.
proof fn lemma_wrapped_good(w: Disk, f: Forest, list: Seq<Component<Seq<u8>>>)
    requires
        tree_good(w, f),
        forall|i: int|
            0 <= i < list.len() ==> ((#[trigger] list[i]) matches Component::Normal(name)
                ==> path::is_plain(name)),
    ensures
        tree_good(w, tree::wrapped(f, list)),
    decreases list.len(),
{
    if list.len() > 0 {
        let before = list.drop_last();
        assert forall|i: int|
            0 <= i < before.len() implies ((#[trigger] before[i]) matches Component::Normal(name)
            ==> path::is_plain(name)) by {
            assert(before[i] == list[i]);
        }
        assert(list[list.len() - 1] == list.last());
        match list.last() {
            Component::Normal(name) => {
                let outer = seq![(name, Node::Directory { mode: 0o755, tree: f })];
                assert(0o755u32 & 0o7777u32 == 0o755u32) by (bit_vector);
                assert(good(w, outer[0].1));
                lemma_wrapped_good(w, outer, before);
            },
            _ => {
                lemma_wrapped_good(w, f, before);
            },
        }
    }
}

/// Whether the permissions in rules are permissions.
pub open spec fn rules_fit(list: Seq<RuleModel>) -> bool {
    forall|i: int|
        0 <= i < list.len() ==> ((#[trigger] list[i]).action matches RuleAction::CopyWithMode(mode)
            ==> placed::is_mode(mode))
}

/// Rules that are parsed hold permissions only.
proof fn lemma_rules_fit(list: Seq<Seq<u8>>, count: nat)
    ensures
        rules::rules_of(list, count) matches Ok(found) ==> rules_fit(found),
    decreases count,
{
    if count > 0 {
        lemma_rules_fit(list, (count - 1) as nat);
        if rules::rules_of(list, count) is Ok {
            let line = list[count - 1];
            let rest = line.skip(1);
            let digits = rest.take(rules::find(rest, 32));
            if rules::is_mode(digits) {
                assert(48 <= digits[0] <= 55 && 48 <= digits[1] <= 55);
                assert(48 <= digits[2] <= 55 && 48 <= digits[3] <= 55);
                let mode = rules::mode_of(digits);
                assert(mode < 4096);
                assert(mode & 0o7777 == mode) by (bit_vector)
                    requires
                        mode < 4096,
                ;
            }
        }
    }
}

/// The permissions that an object is placed with are permissions.
proof fn lemma_placement(m: Metadata, list: Seq<RuleModel>, p: Seq<u8>, is_directory: bool)
    requires
        rules_fit(list),
    ensures
        projection::placement(m, rules::governing(list, p, is_directory)) matches Placement::Directory(
            mode,
        ) ==> placed::is_mode(mode),
        projection::placement(m, rules::governing(list, p, is_directory)) matches Placement::Copy(
            mode,
        ) ==> placed::is_mode(mode),
{
    rules::law_governing(list, p, is_directory);
    backed::lemma_permissions(m);
    let bits = m.permissions();
    assert((bits | 0o200) & 0o7777 == bits | 0o200) by (bit_vector)
        requires
            bits & 0o7777 == bits,
    ;
}

/// That nothing changed and, if the operation succeeded, a good tree came out.
pub open spec fn grows_good(w: Disk) -> spec_fn(Disk, Result<Forest, Trouble>) -> bool {
    |v: Disk, r: Result<Forest, Trouble>| v == w && (r matches Ok(f) ==> tree_good(w, f))
}

/// Reading the tree of a layer in the store makes a good tree.
proof fn lemma_walk(w: Disk, source: Seq<u8>, rel: Seq<u8>, list: Seq<RuleModel>)
    requires
        w.sound(),
        path::relative(rel),
        disk::in_vault(path::components(source)),
        rules_fit(list),
    ensures
        projection::walk_program(source, rel, list).meets(w, grows_good(w)),
    decreases usize::MAX - rel.len(), 1int, 0int,
{
    let none = Seq::<(Seq<u8>, Node)>::empty();
    assert(tree_good(w, none));
    assert forall|x: Answer|
        #![trigger x.names()]
        x.names() matches Ok(names) ==> projection::walk_names_program(
            source,
            rel,
            list,
            names,
            none,
        ).meets(w, grows_good(w)) by {
        if x.names() is Ok {
            lemma_walk_names(w, source, rel, list, x.names()->Ok_0, none);
        }
    }
}

proof fn lemma_walk_names(
    w: Disk,
    source: Seq<u8>,
    rel: Seq<u8>,
    list: Seq<RuleModel>,
    names: Seq<Seq<u8>>,
    read: Forest,
)
    requires
        w.sound(),
        path::relative(rel),
        disk::in_vault(path::components(source)),
        rules_fit(list),
        host::all_plain(names),
        tree_good(w, read),
    ensures
        projection::walk_names_program(source, rel, list, names, read).meets(w, grows_good(w)),
    decreases usize::MAX - rel.len(), 0int, names.len(),
{
    let post = grows_good(w);
    if names.len() > 0 {
        let name = names[0];
        let later = names.skip(1);
        let child = path::join(rel, name);
        let at = path::join(path::join(source, rel), name);
        let s = path::components(source);
        assert(path::is_plain(names[0]));
        path::lemma_plain(name);
        path::lemma_join(rel, name);
        path::lemma_join(source, rel);
        path::lemma_entry(path::join(source, rel), name);
        assert(disk::in_vault(path::components(at))) by {
            let c = path::components(at);
            assert(c.take(s.len() as int) =~= s);
            placed::lemma_below_trans(disk::vault(), s, c);
            assert(c.len() > s.len());
            assert(s.len() >= disk::vault().len());
        }
        assert forall|i: int| 0 <= i < later.len() implies path::is_plain(#[trigger] later[i]) by {
            assert(later[i] == names[i + 1]);
        }
        lemma_walk_names(w, source, rel, list, later, read);
        if entry::deeper(rel, child) {
            lemma_walk(w, source, child, list);
        }
        assert forall|m: Metadata|
            #![trigger m.permissions()]
            true implies {
            &&& projection::placement(
                m,
                rules::governing(list, child, m.kind is Directory),
            ) matches Placement::Directory(mode) ==> placed::is_mode(mode)
            &&& projection::placement(
                m,
                rules::governing(list, child, m.kind is Directory),
            ) matches Placement::Copy(mode) ==> placed::is_mode(mode)
        } by {
            lemma_placement(m, list, child, m.kind is Directory);
        }
        assert forall|node: Node|
            #![trigger tree::put(read, name, node)]
            good(w, node) implies projection::walk_names_program(
            source,
            rel,
            list,
            later,
            tree::put(read, name, node),
        ).meets(w, post) by {
            lemma_put_good(w, read, name, node);
            lemma_walk_names(w, source, rel, list, later, tree::put(read, name, node));
        }
    }
}

/// That nothing changed and, if the operation succeeded, what came out can be mounted below any root
/// apart from the store.
pub open spec fn reads_well(w: Disk) -> spec_fn(Disk, Result<Forest, Trouble>) -> bool {
    |v: Disk, r: Result<Forest, Trouble>|
        v == w && (r matches Ok(f) ==> forall|root: Seq<u8>|
            disk::apart(path::components(root), disk::vault())
                ==> #[trigger] cycle::mountable(w, root, f))
}

/// Reading the layers of an image changes nothing, and what comes out, if all layers are in the
/// store, can be mounted below any root apart from it.
pub proof fn law_compile(w: Disk, image: ImageModel)
    requires
        w.sound(),
        forall|i: int|
            0 <= i < image.layers.len() ==> disk::in_vault(
                path::components((#[trigger] image.layers[i]).source),
            ),
    ensures
        projection::compile_program(image).meets(w, reads_well(w)),
{
    let post = reads_well(w);
    lemma_layers(w, image.layers, Seq::empty());
    assert forall|v: Disk, r: Result<Forest, Trouble>| #[trigger] grows_good(w)(v, r) implies post(
        v,
        r,
    ) by {
        if r is Ok {
            assert forall|root: Seq<u8>|
                disk::apart(path::components(root), disk::vault()) implies #[trigger] cycle::mountable(
                w,
                root,
                r->Ok_0,
            ) by {
                lemma_tree_good(w, r->Ok_0, path::components(root));
            }
        }
    }
}

proof fn lemma_layers(w: Disk, layers: Seq<LayerModel>, read: Forest)
    requires
        w.sound(),
        tree_good(w, read),
        forall|i: int|
            0 <= i < layers.len() ==> disk::in_vault(
                path::components((#[trigger] layers[i]).source),
            ),
    ensures
        projection::layers_program(layers, read).meets(w, grows_good(w)),
    decreases layers.len(),
{
    let post = grows_good(w);
    if layers.len() > 0 {
        let later = layers.skip(1);
        let list = path::components(layers[0].target);
        assert(layers[0] == layers[0]);
        lemma_layer(w, layers[0]);
        path::lemma_components_plain(layers[0].target);
        assert forall|i: int| 0 <= i < later.len() implies disk::in_vault(
            path::components((#[trigger] later[i]).source),
        ) by {
            assert(later[i] == layers[i + 1]);
        }
        assert forall|f: Forest|
            #![trigger tree::wrapped(f, list)]
            tree_good(w, f) implies projection::layers_program(
            later,
            tree::merged(read, tree::wrapped(f, list)),
        ).meets(w, post) by {
            lemma_wrapped_good(w, f, list);
            lemma_merged_good(w, read, tree::wrapped(f, list));
            lemma_layers(w, later, tree::merged(read, tree::wrapped(f, list)));
        }
    }
}

proof fn lemma_layer(w: Disk, layer: LayerModel)
    requires
        w.sound(),
        disk::in_vault(path::components(layer.source)),
    ensures
        projection::layer_program(layer).meets(w, grows_good(w)),
{
    crate::standing::lemma_nothing();
    lemma_rules_fit(rules::lines(layer.rules), rules::lines(layer.rules).len());
    if rules::parsed(layer.rules) is Ok {
        lemma_walk(w, layer.source, Seq::empty(), rules::parsed(layer.rules)->Ok_0);
    }
}

} // verus!
