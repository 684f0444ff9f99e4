//! Operations that only look.
use vstd::prelude::*;

use crate::backup;
use crate::bytes;
use crate::command;
use crate::command::ManifestModel;
use crate::disk;
use crate::disk::Disk;
use crate::entry;
use crate::entry::{Drift, Tally};
use crate::error::Trouble;
use crate::host::{Answer, Metadata, Request};
use crate::path;
use crate::program::Program;
use crate::projection;
use crate::projection::{ImageModel, LayerModel};
use crate::reason::World;
use crate::rules;
use crate::rules::RuleModel;
use crate::state;
use crate::state::{ActivationModel, StatePaths};
use crate::transition;
use crate::tree;
use crate::tree::{Forest, Modes, Node};

verus! {

broadcast use crate::reason::group_upholds;

/// A world that answers anything and notes whether anything but a look was asked for.
pub struct Witness {
    pub moved: bool,
}

impl World for Witness {
    open spec fn leads(self, request: Request, x: Answer, next: Witness) -> bool {
        next.moved == (self.moved || !disk::is_look(request))
    }
}

/// Whether nothing but looks was asked for.
pub open spec fn unmoved() -> spec_fn(Witness) -> bool {
    |v: Witness| !v.moved
}

/// Any end.
pub open spec fn any<W, R>() -> spec_fn(W, R) -> bool {
    |v: W, r: R| true
}

/// Whether a program asks for nothing but looks, whatever is answered.
pub open spec fn quiet<R>(p: Program<R>) -> bool {
    p.upholds(Witness { moved: false }, unmoved(), any())
}

/// That nothing changed.
pub open spec fn still<R>(w: Disk) -> spec_fn(Disk, R) -> bool {
    |v: Disk, r: R| v == w
}

/// A program that only looks changes nothing at any time.
pub proof fn lemma_quiet<R>(p: Program<R>, w: Disk, inv: spec_fn(Disk) -> bool)
    requires
        quiet(p),
        inv(w),
    ensures
        p.upholds(w, inv, still(w)),
    decreases p,
{
    match p {
        Program::Ask(request, f) => {
            let a = Witness { moved: false };
            assert forall|x: Answer, v: Disk| #[trigger] w.leads(request, x, v) implies f(x).upholds(
                v,
                inv,
                still(w),
            ) by {
                let b = Witness { moved: !disk::is_look(request) };
                assert(a.leads(request, x, b));
                assert(f(x).upholds(b, unmoved(), any()));
                lemma_quiet(f(x), w, inv);
            }
        },
        _ => {},
    }
}

/// A program that only looks changes nothing.
pub proof fn lemma_still<R>(p: Program<R>, w: Disk)
    requires
        quiet(p),
    ensures
        p.meets(w, still(w)),
    decreases p,
{
    match p {
        Program::Ask(request, f) => {
            let a = Witness { moved: false };
            assert forall|x: Answer, v: Disk| #[trigger] w.leads(request, x, v) implies f(x).meets(
                v,
                still(w),
            ) by {
                let b = Witness { moved: !disk::is_look(request) };
                assert(a.leads(request, x, b));
                assert(f(x).upholds(b, unmoved(), any()));
                lemma_still(f(x), w);
            }
        },
        _ => {},
    }
}

/// A look at two things is a look.
proof fn lemma_compared(a: Seq<u8>, b: Seq<u8>)
    ensures
        quiet(entry::compare_program(Request::ReadFile(a), Request::ReadFile(b))),
        quiet(entry::compare_links_program(a, b)),
{
}

/// Comparing with a backup only looks.
proof fn lemma_snapshot(source: Seq<u8>, target: Seq<u8>, rel: Seq<u8>, modes: Modes)
    ensures
        quiet(entry::snapshot_program(source, target, rel, modes)),
    decreases usize::MAX - rel.len(), 1int, 0int,
{
    lemma_compared(entry::spot(source, rel), entry::spot(target, rel));
    assert forall|names: Seq<Seq<u8>>|
        #![trigger bytes::ascending(names)]
        quiet(
            entry::snapshot_names_program(source, target, rel, modes, bytes::ascending(names)),
        ) by {
        lemma_snapshot_names(source, target, rel, modes, bytes::ascending(names));
    }
}

proof fn lemma_snapshot_names(
    source: Seq<u8>,
    target: Seq<u8>,
    rel: Seq<u8>,
    modes: Modes,
    names: Seq<Seq<u8>>,
)
    ensures
        quiet(entry::snapshot_names_program(source, target, rel, modes, names)),
    decreases usize::MAX - rel.len(), 0int, names.len(),
{
    if names.len() > 0 {
        let child = path::join(rel, names[0]);
        if entry::deeper(rel, child) {
            lemma_snapshot(source, target, child, modes);
        }
        lemma_snapshot_names(source, target, rel, modes, names.skip(1));
    }
}

/// Looking whether an entry stands only looks.
pub proof fn lemma_matches(node: Node, p: Seq<u8>)
    ensures
        quiet(entry::matches_program(node, p)),
    decreases node, 1int,
{
    match node {
        Node::Directory { tree, .. } => {
            lemma_tree_matches(tree, p);
        },
        Node::Copy { source, .. } => {
            lemma_compared(p, source);
        },
        Node::Snapshot { source, modes } => {
            lemma_snapshot(source, p, Seq::empty(), modes);
        },
        _ => {},
    }
}

proof fn lemma_tree_matches(f: Forest, p: Seq<u8>)
    ensures
        quiet(entry::tree_matches_program(f, p)),
    decreases f, 0int,
{
    if f.len() > 0 {
        lemma_matches(f[0].1, path::join(p, f[0].0));
        lemma_tree_matches(f.skip(1), p);
    }
}

/// Looking for drifts only looks.
proof fn lemma_drifts(node: Node, p: Seq<u8>, found: Seq<Drift<Seq<u8>>>)
    ensures
        quiet(entry::drifts_program(node, p, found)),
    decreases node, 1int,
{
    match node {
        Node::Directory { tree, .. } => {
            lemma_tree_drifts(tree, p, found);
            lemma_tree_drifts(tree, p, found.push(Drift::Permissions(p)));
        },
        _ => {},
    }
}

pub proof fn lemma_tree_drifts(f: Forest, p: Seq<u8>, found: Seq<Drift<Seq<u8>>>)
    ensures
        quiet(entry::tree_drifts_program(f, p, found)),
    decreases f, 0int,
{
    if f.len() > 0 {
        lemma_drifts(f[0].1, path::join(p, f[0].0), found);
        assert forall|v: Witness, t: Tally| #[trigger]
            any::<Witness, Tally>()(v, t) && unmoved()(v) implies entry::tree_drifts_program(
            f.skip(1),
            p,
            t.1,
        ).upholds(v, unmoved(), any()) by {
            assert(v == Witness { moved: false });
            lemma_tree_drifts(f.skip(1), p, t.1);
        }
    }
}

/// Looking for entries that are not managed only looks.
pub proof fn lemma_unmanaged(f: Forest, p: Seq<u8>)
    ensures
        quiet(transition::unmanaged_program(f, p)),
    decreases f, 1int, 0int,
{
    assert forall|x: Answer|
        #![trigger x.names()]
        x.names() is Ok implies quiet(
        transition::unmanaged_names_program(f, p, x.names()->Ok_0),
    ) by {
        lemma_unmanaged_names(f, p, x.names()->Ok_0);
    }
}

proof fn lemma_unmanaged_names(f: Forest, p: Seq<u8>, names: Seq<Seq<u8>>)
    ensures
        quiet(transition::unmanaged_names_program(f, p, names)),
    decreases f, 0int, names.len(),
{
    if names.len() > 0 {
        let at = tree::slot(f, names[0]);
        lemma_unmanaged_names(f, p, names.skip(1));
        if 0 <= at < f.len() {
            match f[at].1 {
                Node::Directory { tree, .. } => {
                    lemma_unmanaged(tree, path::join(p, names[0]));
                },
                _ => {},
            }
        }
    }
}

proof fn lemma_restorable(node: Node, former: Node, p: Seq<u8>)
    ensures
        quiet(transition::restorable_program(node, former, p)),
    decreases node, 1int,
{
    match (node, former) {
        (
            Node::Directory { tree, .. },
            Node::Directory { tree: former_tree, .. },
        ) => {
            lemma_tree_restorable(tree, former_tree, p);
        },
        (Node::Directory { tree, .. }, Node::Snapshot { .. }) => {
            lemma_unmanaged(tree, p);
        },
        _ => {},
    }
}

proof fn lemma_tree_restorable(f: Forest, former: Forest, p: Seq<u8>)
    ensures
        quiet(transition::tree_restorable_program(f, former, p)),
    decreases f, 0int,
{
    if f.len() > 0 {
        if tree::lookup(former, f[0].0) is Some {
            lemma_restorable(f[0].1, tree::lookup(former, f[0].0)->Some_0, path::join(p, f[0].0));
            lemma_tree_restorable(f.skip(1), former, p);
        }
    }
}

/// Looking whether what is mounted is as it was left, and whether what had stood there can be put
/// back, only looks.
pub proof fn lemma_verified(a: ActivationModel)
    ensures
        quiet(state::verify_program(a)),
        quiet(state::restorable_program(a)),
{
    lemma_tree_drifts(a.projection, a.root, Seq::empty());
    lemma_tree_restorable(a.projection, a.baseline, a.root);
}

/// Looking whether an activation may be taken away only looks.
pub proof fn lemma_checked(current: Option<(Seq<u8>, ActivationModel)>)
    ensures
        quiet(state::checked_program(current)),
{
    if current is Some {
        lemma_verified(current->Some_0.1);
    }
}

/// Reading what is mounted only looks.
pub proof fn lemma_load(paths: StatePaths<Seq<u8>>)
    ensures
        quiet(state::load_program(paths)),
{
}

/// Reading an activation only looks.
pub proof fn lemma_read(p: Seq<u8>)
    ensures
        quiet(state::read_program(p)),
{
}

/// Looking for other images at a root only looks.
pub proof fn lemma_available(state_root: Seq<u8>, image: Seq<u8>, root: Seq<u8>)
    ensures
        quiet(state::available_program(state_root, image, root)),
{
    assert forall|x: Answer|
        #![trigger x.names()]
        x.names() is Ok implies quiet(
        state::available_names_program(state_root, image, root, x.names()->Ok_0),
    ) by {
        lemma_available_names(state_root, image, root, x.names()->Ok_0);
    }
}

pub proof fn lemma_available_names(
    state_root: Seq<u8>,
    image: Seq<u8>,
    root: Seq<u8>,
    names: Seq<Seq<u8>>,
)
    ensures
        quiet(state::available_names_program(state_root, image, root, names)),
    decreases names.len(),
{
    if names.len() > 0 {
        lemma_available_names(state_root, image, root, names.skip(1));
        lemma_load(state::places(state_root, names[0]));
    }
}

/// Collecting permissions only looks.
pub proof fn lemma_modes(root: Seq<u8>, rel: Seq<u8>, m: Metadata, modes: Modes)
    ensures
        quiet(backup::modes_program(root, rel, m, modes)),
    decreases usize::MAX - rel.len(), 1int, 0int,
{
    let more = backup::with_mode(modes, rel, m.permissions());
    assert forall|x: Answer|
        #![trigger x.names()]
        x.names() is Ok implies quiet(
        backup::names_modes_program(root, rel, x.names()->Ok_0, more),
    ) by {
        lemma_names_modes(root, rel, x.names()->Ok_0, more);
    }
}

proof fn lemma_names_modes(root: Seq<u8>, rel: Seq<u8>, names: Seq<Seq<u8>>, modes: Modes)
    ensures
        quiet(backup::names_modes_program(root, rel, names, modes)),
    decreases usize::MAX - rel.len(), 0int, names.len(),
{
    if names.len() > 0 {
        let child = path::join(rel, names[0]);
        let found = any::<Witness, Result<Modes, Trouble>>();
        assert forall|x: Answer|
            #![trigger x.stats()]
            x.stats() is Ok && entry::deeper(rel, child) implies quiet(
            backup::modes_program(root, child, x.stats()->Ok_0, modes),
        ) by {
            lemma_modes(root, child, x.stats()->Ok_0, modes);
        }
        assert forall|v: Witness, r: Result<Modes, Trouble>| #[trigger]
            found(v, r) && unmoved()(v) && r is Ok implies backup::names_modes_program(
            root,
            rel,
            names.skip(1),
            r->Ok_0,
        ).upholds(v, unmoved(), any()) by {
            assert(v == Witness { moved: false });
            lemma_names_modes(root, rel, names.skip(1), r->Ok_0);
        }
    }
}

/// Looking whether a backup is one of a directory only looks.
pub proof fn lemma_unfolds(to: Node)
    ensures
        quiet(transition::unfolds_program(to)),
{
}

/// Reading the tree of a layer only looks.
proof fn lemma_walk(source: Seq<u8>, rel: Seq<u8>, list: Seq<RuleModel>)
    ensures
        quiet(projection::walk_program(source, rel, list)),
    decreases usize::MAX - rel.len(), 1int, 0int,
{
    let none = Seq::<(Seq<u8>, Node)>::empty();
    assert forall|x: Answer|
        #![trigger x.names()]
        x.names() is Ok implies quiet(
        projection::walk_names_program(source, rel, list, x.names()->Ok_0, none),
    ) by {
        lemma_walk_names(source, rel, list, x.names()->Ok_0, none);
    }
}

proof fn lemma_walk_names(
    source: Seq<u8>,
    rel: Seq<u8>,
    list: Seq<RuleModel>,
    names: Seq<Seq<u8>>,
    read: Forest,
)
    ensures
        quiet(projection::walk_names_program(source, rel, list, names, read)),
    decreases usize::MAX - rel.len(), 0int, names.len(),
{
    if names.len() > 0 {
        let later = names.skip(1);
        let child = path::join(rel, names[0]);
        lemma_walk_names(source, rel, list, later, read);
        if entry::deeper(rel, child) {
            lemma_walk(source, child, list);
        }
        assert forall|node: Node|
            #![trigger tree::put(read, names[0], node)]
            quiet(
                projection::walk_names_program(
                    source,
                    rel,
                    list,
                    later,
                    tree::put(read, names[0], node),
                ),
            ) by {
            lemma_walk_names(source, rel, list, later, tree::put(read, names[0], node));
        }
    }
}

proof fn lemma_layers(layers: Seq<LayerModel>, read: Forest)
    ensures
        quiet(projection::layers_program(layers, read)),
    decreases layers.len(),
{
    if layers.len() > 0 {
        let target = path::components(layers[0].target);
        if rules::parsed(layers[0].rules) is Ok {
            lemma_walk(layers[0].source, Seq::empty(), rules::parsed(layers[0].rules)->Ok_0);
        }
        assert(quiet(projection::layer_program(layers[0])));
        assert forall|f: Forest|
            #![trigger tree::wrapped(f, target)]
            quiet(
                projection::layers_program(
                    layers.skip(1),
                    tree::merged(read, tree::wrapped(f, target)),
                ),
            ) by {
            lemma_layers(layers.skip(1), tree::merged(read, tree::wrapped(f, target)));
        }
    }
}

/// Reading the layers of an image only looks.
pub proof fn lemma_compile(image: ImageModel)
    ensures
        quiet(projection::compile_program(image)),
{
    lemma_layers(image.layers, Seq::empty());
}

/// Saying how an image stands only looks.
proof fn lemma_standing(state_root: Seq<u8>, name: Seq<u8>)
    ensures
        quiet(command::standing_program(state_root, name)),
{
    let end = any::<Witness, Result<Option<(Seq<u8>, ActivationModel)>, Trouble>>();
    let load = state::load_program(state::places(state_root, name));
    lemma_load(state::places(state_root, name));
    assert(load.upholds(Witness { moved: false }, unmoved(), end));
    assert forall|v: Witness, r: Result<Option<(Seq<u8>, ActivationModel)>, Trouble>| #[trigger]
        end(v, r) && unmoved()(v) && r is Ok && r->Ok_0 is Some implies entry::tree_drifts_program(
        r->Ok_0->Some_0.1.projection,
        r->Ok_0->Some_0.1.root,
        Seq::empty(),
    ).upholds(v, unmoved(), any()) by {
        assert(v == Witness { moved: false });
        lemma_tree_drifts(
            r->Ok_0->Some_0.1.projection,
            r->Ok_0->Some_0.1.root,
            Seq::empty(),
        );
    }
}

proof fn lemma_standings(state_root: Seq<u8>, images: Seq<(Seq<u8>, ImageModel)>)
    ensures
        quiet(command::standings_program(state_root, images)),
    decreases images.len(),
{
    if images.len() > 0 {
        lemma_standing(state_root, images[0].0);
        lemma_standings(state_root, images.skip(1));
    }
}

/// Saying what drifted only looks.
pub proof fn lemma_report(drifts: Seq<Drift<Seq<u8>>>)
    ensures
        quiet(command::report_program(drifts)),
    decreases drifts.len(),
{
    if drifts.len() > 0 {
        lemma_report(drifts.skip(1));
    }
}

/// Saying how images stand changes nothing.
pub proof fn law_status_looks(
    state_root: Seq<u8>,
    image: Option<Seq<u8>>,
    manifest: ManifestModel,
)
    ensures
        quiet(command::status_program(state_root, image, manifest)),
{
    lemma_standings(state_root, manifest.images);
    if image is Some {
        lemma_standing(state_root, image->Some_0);
    }
}

/// Saying which images are mounted changes nothing.
pub proof fn law_list_looks(state_root: Seq<u8>, images: Seq<(Seq<u8>, ImageModel)>)
    ensures
        quiet(command::list_program(state_root, images)),
    decreases images.len(),
{
    if images.len() > 0 {
        lemma_load(state::places(state_root, images[0].0));
        law_list_looks(state_root, images.skip(1));
    }
}

} // verus!
