//! Images: how layers become a tree.
use vstd::prelude::*;

use crate::bytes;
use crate::entry;
use crate::error::{Error, Refusal, Trouble};
use crate::glob;
use crate::host;
use crate::host::{Action, Host, Kind, Metadata, Request};
use crate::path;
use crate::path::Component;
use crate::program;
use crate::program::Program;
use crate::rules;
use crate::rules::{Rule, RuleAction, RuleModel};
use crate::session;
use crate::session::Session;
use crate::tree;
use crate::tree::{Entry, Forest, Node, Tree};

verus! {

broadcast use crate::program::group_program;

/// A declared image.
#[derive(Debug)]
pub struct Image {
    pub root: String,
    pub layers: Vec<Layer>,
}

/// A layer of an image: the tree at `source`, placed at `target`, as `rules` say.
#[derive(Debug)]
pub struct Layer {
    pub source: Vec<u8>,
    pub target: Vec<u8>,
    pub rules: String,
}

/// A layer as contracts speak of it.
pub struct LayerModel {
    pub source: Seq<u8>,
    pub target: Seq<u8>,
    pub rules: Seq<u8>,
}

/// An image as contracts speak of it.
pub struct ImageModel {
    pub root: Seq<u8>,
    pub layers: Seq<LayerModel>,
}

impl View for Layer {
    type V = LayerModel;

    open spec fn view(&self) -> LayerModel {
        LayerModel {
            source: self.source@,
            target: self.target@,
            rules: bytes::text(self.rules@),
        }
    }
}

impl View for Image {
    type V = ImageModel;

    open spec fn view(&self) -> ImageModel {
        ImageModel {
            root: bytes::text(self.root@),
            layers: self.layers@.map_values(|layer: Layer| layer@),
        }
    }
}

/// What becomes of an object of a layer.
#[derive(Clone, Copy, PartialEq, Eq, Structural, Debug)]
pub enum Placement {
    /// It is left out.
    Skip,
    /// It becomes the same symbolic link.
    Symlink,
    /// It becomes a directory with these permissions.
    Directory(u32),
    /// It becomes a copy with these permissions.
    Copy(u32),
    /// It becomes a link to the layer.
    Link,
    /// It cannot be placed.
    Unsupported,
}

/// What becomes of an object, by the rule that governs it.
///
/// Directories that are not copied are writable for their owner.
pub open spec fn placement(m: Metadata, action: Option<RuleAction>) -> Placement {
    if action == Some(RuleAction::Ignore) {
        Placement::Skip
    } else {
        match m.kind {
            Kind::Symlink => Placement::Symlink,
            Kind::Directory => Placement::Directory(
                match action {
                    Some(RuleAction::CopyWithMode(mode)) => mode,
                    Some(RuleAction::Copy) => m.permissions(),
                    _ => m.permissions() | 0o200,
                },
            ),
            Kind::File => match action {
                Some(RuleAction::CopyWithMode(mode)) => Placement::Copy(mode),
                Some(RuleAction::Copy) => Placement::Copy(m.permissions()),
                _ => Placement::Link,
            },
            Kind::Other => Placement::Unsupported,
        }
    }
}

/// What becomes of an object, by the rule that governs it.
pub fn place(m: Metadata, action: Option<RuleAction>) -> (r: Placement)
    ensures
        r == placement(m, action),
{
    match action {
        Some(RuleAction::Ignore) => Placement::Skip,
        _ => match m.kind {
            Kind::Symlink => Placement::Symlink,
            Kind::Directory => Placement::Directory(
                match action {
                    Some(RuleAction::CopyWithMode(mode)) => mode,
                    Some(RuleAction::Copy) => m.bits(),
                    _ => m.bits() | 0o200,
                },
            ),
            Kind::File => match action {
                Some(RuleAction::CopyWithMode(mode)) => Placement::Copy(mode),
                Some(RuleAction::Copy) => Placement::Copy(m.bits()),
                _ => Placement::Link,
            },
            Kind::Other => Placement::Unsupported,
        },
    }
}

/// Reads the tree of a layer: the directory `rel` below `root`.
pub open spec fn walk_program(root: Seq<u8>, rel: Seq<u8>, rules: Seq<RuleModel>) -> Program<
    Result<Forest, Trouble>,
>
    decreases usize::MAX - rel.len(), 1int, 0int,
{
    session::names(path::join(root, rel)).and_then(
        |names: Seq<Seq<u8>>| walk_names_program(root, rel, rules, names, Seq::empty()),
    )
}

/// Reads the named entries of a directory, adding to those read before.
pub open spec fn walk_names_program(
    root: Seq<u8>,
    rel: Seq<u8>,
    rules: Seq<RuleModel>,
    names: Seq<Seq<u8>>,
    read: Forest,
) -> Program<Result<Forest, Trouble>>
    decreases usize::MAX - rel.len(), 0int, names.len(),
{
    if names.len() == 0 {
        program::give(read)
    } else {
        let name = names[0];
        let child = path::join(rel, name);
        let at = path::join(path::join(root, rel), name);
        if !vstd::utf8::valid_utf8(name) {
            program::fail(Error::Refused(Refusal::PathNotUtf8, name))
        } else {
            session::stat(at).and_then(
                |m: Metadata|
                    match placement(m, rules::governing(rules, child, m.kind is Directory)) {
                        Placement::Skip => walk_names_program(
                            root,
                            rel,
                            rules,
                            names.skip(1),
                            read,
                        ),
                        Placement::Symlink => session::data(Request::ReadLink(at)).and_then(
                            |target: Seq<u8>|
                                walk_names_program(
                                    root,
                                    rel,
                                    rules,
                                    names.skip(1),
                                    tree::put(read, name, Node::Symlink { target }),
                                ),
                        ),
                        Placement::Directory(mode) => if entry::deeper(rel, child) {
                            walk_program(root, child, rules).and_then(
                                |tree: Forest|
                                    walk_names_program(
                                        root,
                                        rel,
                                        rules,
                                        names.skip(1),
                                        tree::put(read, name, Node::Directory { mode, tree }),
                                    ),
                            )
                        } else {
                            Program::Stuck
                        },
                        Placement::Copy(mode) => walk_names_program(
                            root,
                            rel,
                            rules,
                            names.skip(1),
                            tree::put(read, name, Node::Copy { source: at, mode }),
                        ),
                        Placement::Link => walk_names_program(
                            root,
                            rel,
                            rules,
                            names.skip(1),
                            tree::put(read, name, Node::Link { source: at }),
                        ),
                        Placement::Unsupported => program::fail(
                            Error::Refused(Refusal::Unsupported, at),
                        ),
                    },
            )
        }
    }
}

/// Whether a target is relative: it is not empty and holds names and `.` only.
pub open spec fn relative(target: Seq<u8>) -> bool {
    &&& target.len() > 0
    &&& forall|i: int|
        0 <= i < path::components(target).len() ==> {
            let c = #[trigger] path::components(target)[i];
            c is Normal || c is Current
        }
}

/// Reads a layer.
pub open spec fn layer_program(layer: LayerModel) -> Program<Result<Forest, Trouble>> {
    if !path::absolute(layer.source) {
        program::fail(Error::Refused(Refusal::SourceNotAbsolute, layer.source))
    } else {
        session::stat(layer.source).and_then(
            |m: Metadata|
                if !(m.kind is Directory) {
                    program::fail(Error::Refused(Refusal::SourceNotDirectory, layer.source))
                } else if !relative(layer.target) {
                    program::fail(Error::Refused(Refusal::TargetNotRelative, layer.target))
                } else {
                    match rules::parsed(layer.rules) {
                        Ok(rules) => walk_program(layer.source, Seq::empty(), rules),
                        Err(e) => program::fail(e),
                    }
                },
        )
    }
}

/// Lays the layers over what was read before, in their order, each at its target.
pub open spec fn layers_program(layers: Seq<LayerModel>, read: Forest) -> Program<
    Result<Forest, Trouble>,
>
    decreases layers.len(),
{
    if layers.len() == 0 {
        program::give(read)
    } else {
        layer_program(layers[0]).and_then(
            |tree: Forest|
                layers_program(
                    layers.skip(1),
                    tree::merged(
                        read,
                        tree::wrapped(tree, path::components(layers[0].target)),
                    ),
                ),
        )
    }
}

/// Reads the layers of an image and lays them over each other.
pub open spec fn compile_program(image: ImageModel) -> Program<Result<Forest, Trouble>> {
    layers_program(image.layers, Seq::empty())
}

/// A result with the tree as contracts speak of it.
pub open spec fn planted(r: Result<Tree, Error>) -> Result<Forest, Trouble> {
    match r {
        Ok(tree) => Ok(tree.forest()),
        Err(e) => Err(e.seen()),
    }
}

/// Whether a path below a layer can be walked and matched: it is UTF-8, and empty or matchable.
pub open spec fn walkable(rel: Seq<u8>) -> bool {
    vstd::utf8::valid_utf8(rel) && glob::matchable(rel)
}

/// A walkable path that a plain name extends is walkable.
proof fn lemma_walkable(rel: Seq<u8>, name: Seq<u8>)
    requires
        walkable(rel),
        path::is_plain(name),
        vstd::utf8::valid_utf8(name),
    ensures
        walkable(path::join(rel, name)),
{
    let child = path::join(rel, name);
    assert(!path::absolute(name)) by {
        if path::absolute(name) {
            assert(name.contains(name[0]));
        }
    }
    let slash = seq![bytes::SLASH];
    assert(vstd::utf8::valid_utf8(slash)) by {
        vstd::utf8::utf8_byte_ranges_bitwise(bytes::SLASH);
        reveal_with_fuel(vstd::utf8::valid_utf8, 3);
        assert(vstd::utf8::pop_first_scalar(slash) =~= Seq::<u8>::empty());
    }
    if rel.len() == 0 {
        if bytes::begins(name, seq![bytes::DOT, bytes::SLASH]) {
            assert(name.take(2)[1] == bytes::SLASH);
            assert(name.contains(name[1]));
        }
    } else {
        vstd::utf8::valid_utf8_concat(rel, slash);
        assert(rel.push(bytes::SLASH) =~= rel + slash);
        vstd::utf8::valid_utf8_concat(rel, name);
        vstd::utf8::valid_utf8_concat(rel + slash, name);
        assert(child[0] == rel[0]);
        if bytes::begins(child, seq![bytes::DOT, bytes::SLASH]) {
            assert(child.take(2)[0] == bytes::DOT);
            assert(child.take(2)[1] == bytes::SLASH);
            if rel.len() == 1 {
                assert(rel =~= seq![bytes::DOT]);
            } else {
                assert(child[1] == rel[1]);
                assert(rel.take(2) =~= seq![bytes::DOT, bytes::SLASH]);
            }
        }
        assert(child.len() >= 2);
    }
}

/// Reads the tree of a layer: the directory `rel` below `root`.
pub fn walk<H: Host>(s: &mut Session<H>, root: &[u8], rel: &[u8], rules: &Vec<Rule>) -> (r: Result<
    Tree,
    Error,
>)
    requires
        walkable(rel@),
    ensures
        walk_program(root@, rel@, rules::seen(rules@)).ran(old(s)@, final(s)@, planted(r)),
    decreases usize::MAX - rel.len(),
{
    let dir = path::extend(root, rel);
    let names = s.names(bytes::copied(&dir))?;
    let ghost list = bytes::all(names@);
    let ghost models = rules::seen(rules@);
    let ghost whole = walk_program(root@, rel@, models);
    let mut read = Tree::new();
    let mut i: usize = 0;
    assert(list.skip(0) =~= list);
    while i < names.len()
        invariant
            walkable(rel@),
            dir@ == path::join(root@, rel@),
            models == rules::seen(rules@),
            whole == walk_program(root@, rel@, models),
            list == bytes::all(names@),
            host::all_plain(list),
            i <= names.len(),
            program::extends(old(s)@, s@),
            whole.now(old(s)@, s@) == walk_names_program(
                root@,
                rel@,
                models,
                list.skip(i as int),
                read.forest(),
            ),
        decreases names.len() - i,
    {
        let name: &Vec<u8> = &names[i];
        proof {
            assert(list[i as int] == name@);
            assert(path::is_plain(list[i as int]));
            entry::lemma_deeper(rel@, name@);
            assert(list.skip(i as int)[0] == name@);
            assert(list.skip(i as int).skip(1) =~= list.skip(i + 1));
        }
        if !bytes::is_utf8(name) {
            return Err(Error::Refused(Refusal::PathNotUtf8, bytes::copied(name)));
        }
        let child = path::extend(rel, name);
        let at = path::extend(&dir, name);
        proof {
            lemma_walkable(rel@, name@);
        }
        let m = s.stat(bytes::copied(&at))?;
        let action = match bytes::as_text(&child) {
            Ok(text) => rules::govern(rules, text, m.kind == Kind::Directory),
            Err(_) => None,
        };
        match place(m, action) {
            Placement::Skip => {},
            Placement::Symlink => {
                let target = s.data(Action::ReadLink(at))?;
                read.insert(bytes::copied(name), Entry::Symlink { target });
            },
            Placement::Directory(mode) => {
                let tree = walk(s, root, &child, rules)?;
                read.insert(bytes::copied(name), Entry::Directory { mode, tree });
            },
            Placement::Copy(mode) => {
                read.insert(bytes::copied(name), Entry::Copy { source: at, mode });
            },
            Placement::Link => {
                read.insert(bytes::copied(name), Entry::Link { source: at });
            },
            Placement::Unsupported => {
                return Err(Error::Refused(Refusal::Unsupported, at));
            },
        }
        i += 1;
    }
    Ok(read)
}

/// Whether a target is relative.
fn is_relative(target: &[u8]) -> (r: bool)
    ensures
        r == relative(target@),
{
    if target.len() == 0 {
        return false;
    }
    let list = path::parts(target);
    let ghost all = path::components(target@);
    let mut i: usize = 0;
    while i < list.len()
        invariant
            all == path::components(target@),
            all == path::seen(list@),
            i <= list.len(),
            forall|j: int|
                0 <= j < i ==> {
                    let c = #[trigger] all[j];
                    c is Normal || c is Current
                },
        decreases list.len() - i,
    {
        assert(all[i as int] == list@[i as int]@);
        match &list[i] {
            Component::Normal(_) => {},
            Component::Current => {},
            _ => {
                return false;
            },
        }
        i += 1;
    }
    true
}

/// Reads a layer.
pub fn read_layer<H: Host>(s: &mut Session<H>, layer: &Layer) -> (r: Result<Tree, Error>)
    ensures
        layer_program(layer@).ran(old(s)@, final(s)@, planted(r)),
{
    if !path::is_absolute(&layer.source) {
        return Err(Error::Refused(Refusal::SourceNotAbsolute, bytes::copied(&layer.source)));
    }
    let m = s.stat(bytes::copied(&layer.source))?;
    if m.kind != Kind::Directory {
        return Err(Error::Refused(Refusal::SourceNotDirectory, bytes::copied(&layer.source)));
    }
    if !is_relative(&layer.target) {
        return Err(Error::Refused(Refusal::TargetNotRelative, bytes::copied(&layer.target)));
    }
    let rules = rules::parse_rules(layer.rules.as_str())?;
    let none: Vec<u8> = Vec::new();
    assert(none@ =~= Seq::<u8>::empty());
    assert(walkable(none@)) by {
        reveal_with_fuel(vstd::utf8::valid_utf8, 2);
    }
    walk(s, &layer.source, &none, &rules)
}

/// Reads the layers of an image and lays them over each other.
pub fn compile<H: Host>(s: &mut Session<H>, image: &Image) -> (r: Result<Tree, Error>)
    ensures
        compile_program(image@).ran(old(s)@, final(s)@, planted(r)),
{
    let ghost list = image@.layers;
    let ghost whole = compile_program(image@);
    let mut read = Tree::new();
    let mut i: usize = 0;
    assert(list.skip(0) =~= list);
    while i < image.layers.len()
        invariant
            list == image@.layers,
            whole == compile_program(image@),
            i <= image.layers.len(),
            program::extends(old(s)@, s@),
            whole.now(old(s)@, s@) == layers_program(list.skip(i as int), read.forest()),
        decreases image.layers.len() - i,
    {
        let layer: &Layer = &image.layers[i];
        assert(list.skip(i as int)[0] == layer@);
        assert(list.skip(i as int).skip(1) =~= list.skip(i + 1));
        let tree = read_layer(s, layer)?;
        let wrapped = tree::wrap(tree, &layer.target);
        read.merge(wrapped);
        i += 1;
    }
    Ok(read)
}

} // verus!
