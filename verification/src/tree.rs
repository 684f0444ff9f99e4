//! Trees of managed entries.
use vstd::prelude::*;

use crate::bytes;
use crate::path;
use crate::path::Component;

verus! {

/// What is to stand at a managed path.
#[derive(Debug)]
pub enum Entry {
    /// Nothing.
    Absent,
    /// A directory with these permissions, and in it at least these entries.
    Directory { mode: u32, tree: Tree },
    /// A symbolic link to a file of a layer.
    Link { source: Vec<u8> },
    /// A copy of a file of a layer.
    Copy { source: Vec<u8>, mode: u32 },
    /// A symbolic link that a layer holds.
    Symlink { target: Vec<u8> },
    /// A backup: what stands at `source`, with the permissions by relative path.
    Snapshot { source: Vec<u8>, modes: Vec<(Vec<u8>, u32)> },
}

/// Entries by name, in the order of their names.
#[derive(Debug)]
pub struct Tree {
    pub entries: Vec<(Vec<u8>, Entry)>,
}

/// An entry as contracts speak of it.
pub enum Node {
    Absent,
    Directory { mode: u32, tree: Forest },
    Link { source: Seq<u8> },
    Copy { source: Seq<u8>, mode: u32 },
    Symlink { target: Seq<u8> },
    Snapshot { source: Seq<u8>, modes: Modes },
}

/// A tree as contracts speak of it.
pub type Forest = Seq<(Seq<u8>, Node)>;

/// Permissions by relative path.
pub type Modes = Seq<(Seq<u8>, u32)>;

/// Permissions by relative path, as contracts speak of them.
pub open spec fn modes(list: Seq<(Vec<u8>, u32)>) -> Modes {
    list.map_values(|item: (Vec<u8>, u32)| (item.0@, item.1))
}

impl Entry {
    /// The entry as contracts speak of it.
    pub open spec fn node(self) -> Node
        decreases self,
    {
        match self {
            Entry::Absent => Node::Absent,
            Entry::Directory { mode, tree } => Node::Directory { mode, tree: tree.forest() },
            Entry::Link { source } => Node::Link { source: source@ },
            Entry::Copy { source, mode } => Node::Copy { source: source@, mode },
            Entry::Symlink { target } => Node::Symlink { target: target@ },
            Entry::Snapshot { source, modes: list } => Node::Snapshot {
                source: source@,
                modes: modes(list@),
            },
        }
    }
}

impl Tree {
    /// The tree as contracts speak of it.
    pub open spec fn forest(self) -> Forest
        decreases self,
    {
        Seq::new(
            self.entries@.len(),
            |i: int|
                if 0 <= i < self.entries@.len() {
                    (self.entries@[i].0@, self.entries@[i].1.node())
                } else {
                    arbitrary()
                },
        )
    }
}

/// The place of the first entry called `name`, or the number of entries where there is none.
pub open spec fn slot(f: Forest, name: Seq<u8>) -> int
    decreases f.len(),
{
    if f.len() == 0 || f[0].0 == name {
        0
    } else {
        1 + slot(f.skip(1), name)
    }
}

/// The entry called `name`.
pub open spec fn lookup(f: Forest, name: Seq<u8>) -> Option<Node> {
    if 0 <= slot(f, name) < f.len() {
        Some(f[slot(f, name)].1)
    } else {
        None
    }
}

/// The place of the first entry with a name after `name`, or the number of entries.
pub open spec fn place(f: Forest, name: Seq<u8>) -> int
    decreases f.len(),
{
    if f.len() == 0 || bytes::precedes(name, f[0].0) {
        0
    } else {
        1 + place(f.skip(1), name)
    }
}

/// `f` with `node` under `name`: in the place of the entry of that name, else before the first
/// entry with a later name.
pub open spec fn put(f: Forest, name: Seq<u8>, node: Node) -> Forest {
    if lookup(f, name) is Some {
        f.update(slot(f, name), (name, node))
    } else {
        f.insert(place(f, name), (name, node))
    }
}

/// `node` laid over what stands in its place: two directories become one, with the permissions
/// of the later; anything else replaces.
pub open spec fn laid_over(earlier: Option<Node>, node: Node) -> Node
    decreases node, 1int,
{
    match (earlier, node) {
        (Some(Node::Directory { tree, .. }), Node::Directory { mode, tree: later }) => {
            Node::Directory { mode, tree: merged(tree, later) }
        },
        _ => node,
    }
}

/// `earlier` with every entry of `later` laid over it.
pub open spec fn merged(earlier: Forest, later: Forest) -> Forest
    decreases later, 0int,
{
    if later.len() == 0 {
        earlier
    } else {
        let so_far = merged(earlier, later.drop_last());
        let (name, node) = (later.last().0, later.last().1);
        put(so_far, name, laid_over(lookup(so_far, name), node))
    }
}

/// `f` inside directories called after the names among `list`, the last innermost.
pub open spec fn wrapped(f: Forest, list: Seq<Component<Seq<u8>>>) -> Forest
    decreases list.len(),
{
    if list.len() == 0 {
        f
    } else {
        match list.last() {
            Component::Normal(name) => wrapped(
                seq![(name, Node::Directory { mode: 0o755, tree: f })],
                list.drop_last(),
            ),
            _ => wrapped(f, list.drop_last()),
        }
    }
}

/// Where the store is.
pub open spec fn store() -> Seq<u8> {
    bytes::text("/nix/store"@)
}

/// The store paths that an entry refers to.
pub open spec fn node_sources(node: Node) -> Seq<Seq<u8>>
    decreases node, 1int,
{
    match node {
        Node::Directory { tree, .. } => sources(tree),
        Node::Link { source } => seq![source],
        Node::Copy { source, .. } => seq![source],
        Node::Snapshot { source, .. } => seq![source],
        Node::Symlink { target } => if path::within(target, store()) {
            seq![target]
        } else {
            Seq::empty()
        },
        Node::Absent => Seq::empty(),
    }
}

/// The store paths that a tree refers to, in the order of its entries.
pub open spec fn sources(f: Forest) -> Seq<Seq<u8>>
    decreases f, 0int,
{
    if f.len() == 0 {
        Seq::empty()
    } else {
        sources(f.drop_last()) + node_sources(f.last().1)
    }
}

/// Whether names come in order, each once, here and in every directory below.
pub open spec fn orderly(f: Forest) -> bool
    decreases f, 0int,
{
    &&& sorted(f)
    &&& forall|i: int| 0 <= i < f.len() ==> orderly_node((#[trigger] f[i]).1)
}

/// Whether names come in order in every directory of an entry.
pub open spec fn orderly_node(node: Node) -> bool
    decreases node, 1int,
{
    match node {
        Node::Directory { tree, .. } => orderly(tree),
        _ => true,
    }
}

impl Tree {
    /// Whether the names come in order, each once, here and in every directory below.
    pub open spec fn well_formed(self) -> bool {
        orderly(self.forest())
    }

    /// A tree without entries.
    pub fn new() -> (r: Tree)
        ensures
            r.forest() == Seq::<(Seq<u8>, Node)>::empty(),
            r.well_formed(),
    {
        let r = Tree { entries: Vec::new() };
        assert(r.forest() =~= Seq::<(Seq<u8>, Node)>::empty());
        r
    }

    /// The place of the entry called `name`.
    pub fn find(&self, name: &[u8]) -> (r: Option<usize>)
        ensures
            match r {
                Some(i) => i == slot(self.forest(), name@) && i < self.entries.len(),
                None => lookup(self.forest(), name@) is None,
            },
    {
        let ghost f = self.forest();
        let mut i: usize = 0;
        assert(f.skip(0) =~= f);
        while i < self.entries.len()
            invariant
                f == self.forest(),
                i <= self.entries.len(),
                slot(f, name@) == i + slot(f.skip(i as int), name@),
            decreases self.entries.len() - i,
        {
            assert(f.skip(i as int)[0] == f[i as int]);
            assert(f.skip(i as int).skip(1) =~= f.skip(i + 1));
            if bytes::same(&self.entries[i].0, name) {
                return Some(i);
            }
            i += 1;
        }
        None
    }

    /// Puts `entry` under `name`, in the place of the entry of that name if there is one.
    pub fn insert(&mut self, name: Vec<u8>, entry: Entry)
        ensures
            final(self).forest() == put(old(self).forest(), name@, entry.node()),
            old(self).well_formed() && orderly_node(entry.node()) ==> final(self).well_formed(),
    {
        let ghost f = self.forest();
        let ghost item = (name@, entry.node());
        proof {
            if orderly(f) && orderly_node(entry.node()) {
                law_put_orderly(f, name@, entry.node());
            }
        }
        match self.find(&name) {
            Some(i) => {
                self.entries.set(i, (name, entry));
                assert(self.forest() =~= f.update(i as int, item));
            },
            None => {
                let mut i: usize = 0;
                assert(f.skip(0) =~= f);
                while i < self.entries.len() && !bytes::less(&name, &self.entries[i].0)
                    invariant
                        f == self.forest(),
                        i <= self.entries.len(),
                        place(f, name@) == i + place(f.skip(i as int), name@),
                    decreases self.entries.len() - i,
                {
                    assert(f.skip(i as int)[0] == f[i as int]);
                    assert(f.skip(i as int).skip(1) =~= f.skip(i + 1));
                    i += 1;
                }
                self.entries.insert(i, (name, entry));
                assert(self.forest() =~= f.insert(i as int, item));
            },
        }
    }

    /// Lays every entry of `later` over this tree.
    pub fn merge(&mut self, later: Tree)
        ensures
            final(self).forest() == merged(old(self).forest(), later.forest()),
            old(self).well_formed() && later.well_formed() ==> final(self).well_formed(),
        decreases later,
    {
        let ghost g = later.forest();
        proof {
            if self.well_formed() && later.well_formed() {
                law_merged_orderly(self.forest(), g);
            }
        }
        assert(g.take(0) =~= Seq::<(Seq<u8>, Node)>::empty());
        for item in it: later.entries
            invariant
                it.seq() == later.entries@,
                g == later.forest(),
                self.forest() == merged(old(self).forest(), g.take(it.index() as int)),
        {
            let ghost n = it.index();
            let ghost before = self.forest();
            assert(g.take(n + 1).drop_last() =~= g.take(n as int));
            assert(item == later.entries@[n as int]);
            let (name, entry) = item;
            let at = self.find(&name);
            assert(g.take(n + 1).last() == (name@, entry.node()));
            match (at, entry) {
                (Some(i), Entry::Directory { mode, tree: inner }) => {
                    let mut taken: (Vec<u8>, Entry) = (Vec::new(), Entry::Absent);
                    std::mem::swap(&mut self.entries[i], &mut taken);
                    match taken.1 {
                        Entry::Directory { mode: _, tree: mut mine } => {
                            mine.merge(inner);
                            self.entries.set(i, (name, Entry::Directory { mode, tree: mine }));
                        },
                        _ => {
                            self.entries.set(i, (name, Entry::Directory { mode, tree: inner }));
                        },
                    }
                    assert(self.forest() =~= put(
                        before,
                        name@,
                        laid_over(lookup(before, name@), g[n as int].1),
                    ));
                },
                (_, entry) => {
                    self.insert(name, entry);
                },
            }
        }
        assert(g.take(g.len() as int) =~= g);
    }

    /// Adds to `found` the store paths that this tree refers to.
    pub fn sources(&self, found: &mut Vec<Vec<u8>>)
        ensures
            bytes::all(final(found)@) == bytes::all(old(found)@) + sources(self.forest()),
        decreases self,
    {
        let ghost f = self.forest();
        let ghost given = bytes::all(found@);
        let mut i: usize = 0;
        assert(f.take(0) =~= Seq::<(Seq<u8>, Node)>::empty());
        assert(given + sources(f.take(0)) =~= given);
        while i < self.entries.len()
            invariant
                f == self.forest(),
                i <= self.entries.len(),
                bytes::all(found@) == given + sources(f.take(i as int)),
            decreases self.entries.len() - i,
        {
            let ghost before = bytes::all(found@);
            let ghost some = f.take(i + 1);
            assert(some.drop_last() =~= f.take(i as int));
            assert(some.last() == f[i as int]);
            let entry: &Entry = &self.entries[i].1;
            match entry {
                Entry::Directory { mode: _, tree } => {
                    tree.sources(found);
                },
                Entry::Link { source } => {
                    found.push(bytes::copied(source));
                },
                Entry::Copy { source, mode: _ } => {
                    found.push(bytes::copied(source));
                },
                Entry::Snapshot { source, modes: _ } => {
                    found.push(bytes::copied(source));
                },
                Entry::Symlink { target } => {
                    let store = bytes::literal("/nix/store");
                    if path::starts_with(target, &store) {
                        found.push(bytes::copied(target));
                    }
                },
                Entry::Absent => {},
            }
            assert(bytes::all(found@) =~= before + node_sources(entry.node()));
            assert(bytes::all(found@) =~= given + sources(some));
            i += 1;
        }
        assert(f.take(f.len() as int) =~= f);
    }
}

/// A copy of permissions by relative path.
fn copied_modes(list: &Vec<(Vec<u8>, u32)>) -> (r: Vec<(Vec<u8>, u32)>)
    ensures
        modes(r@) == modes(list@),
{
    let mut r: Vec<(Vec<u8>, u32)> = Vec::new();
    let mut i: usize = 0;
    while i < list.len()
        invariant
            i <= list.len(),
            modes(r@) == modes(list@).take(i as int),
        decreases list.len() - i,
    {
        let ghost before = modes(r@);
        r.push((bytes::copied(&list[i].0), list[i].1));
        assert(modes(r@) =~= before.push(modes(list@)[i as int]));
        assert(modes(r@) =~= modes(list@).take(i + 1));
        i += 1;
    }
    assert(modes(list@).take(i as int) =~= modes(list@));
    r
}

impl Entry {
    /// A copy of this entry.
    pub fn duplicate(&self) -> (r: Entry)
        ensures
            r.node() == self.node(),
        decreases self,
    {
        match self {
            Entry::Absent => Entry::Absent,
            Entry::Directory { mode, tree } => Entry::Directory {
                mode: *mode,
                tree: tree.duplicate(),
            },
            Entry::Link { source } => Entry::Link { source: bytes::copied(source) },
            Entry::Copy { source, mode } => Entry::Copy {
                source: bytes::copied(source),
                mode: *mode,
            },
            Entry::Symlink { target } => Entry::Symlink { target: bytes::copied(target) },
            Entry::Snapshot { source, modes } => Entry::Snapshot {
                source: bytes::copied(source),
                modes: copied_modes(modes),
            },
        }
    }
}

impl Tree {
    /// A copy of this tree.
    pub fn duplicate(&self) -> (r: Tree)
        ensures
            r.forest() == self.forest(),
        decreases self,
    {
        let mut r = Tree { entries: Vec::new() };
        let mut i: usize = 0;
        while i < self.entries.len()
            invariant
                i <= self.entries.len(),
                r.forest() == self.forest().take(i as int),
            decreases self.entries.len() - i,
        {
            let ghost before = r.forest();
            let name = bytes::copied(&self.entries[i].0);
            let entry = self.entries[i].1.duplicate();
            r.entries.push((name, entry));
            assert(r.forest() =~= before.push(self.forest()[i as int]));
            assert(r.forest() =~= self.forest().take(i + 1));
            i += 1;
        }
        assert(self.forest().take(i as int) =~= self.forest());
        r
    }
}

/// `tree` inside the directories that `target` names.
pub fn wrap(tree: Tree, target: &[u8]) -> (r: Tree)
    ensures
        r.forest() == wrapped(tree.forest(), path::components(target@)),
        tree.well_formed() ==> r.well_formed(),
{
    proof {
        if tree.well_formed() {
            law_wrapped_orderly(tree.forest(), path::components(target@));
        }
    }
    let list = path::parts(target);
    let ghost all = path::components(target@);
    let mut r = tree;
    let mut i: usize = list.len();
    assert(all.take(i as int) =~= all);
    while i > 0
        invariant
            all == path::seen(list@),
            i <= list.len(),
            wrapped(tree.forest(), all) == wrapped(r.forest(), all.take(i as int)),
        decreases i,
    {
        let ghost some = all.take(i as int);
        assert(some.drop_last() =~= all.take(i - 1));
        assert(some.last() == list@[i - 1]@);
        i -= 1;
        match &list[i] {
            Component::Normal(name) => {
                let ghost inner = r.forest();
                let mut outer = Tree { entries: Vec::new() };
                outer.entries.push((bytes::copied(name), Entry::Directory { mode: 0o755, tree: r }));
                assert(outer.forest() =~= seq![
                    (name@, Node::Directory { mode: 0o755, tree: inner }),
                ]);
                r = outer;
            },
            _ => {},
        }
    }
    r
}

/// A place in a tree is the place of an entry or that behind the last.
pub proof fn lemma_slot(f: Forest, name: Seq<u8>)
    ensures
        0 <= slot(f, name) <= f.len(),
        slot(f, name) < f.len() ==> f[slot(f, name)].0 == name,
        forall|i: int| 0 <= i < slot(f, name) ==> (#[trigger] f[i]).0 != name,
    decreases f.len(),
{
    if f.len() > 0 && f[0].0 != name {
        let later = f.skip(1);
        lemma_slot(later, name);
        assert forall|i: int| 0 <= i < slot(f, name) implies (#[trigger] f[i]).0 != name by {
            if i > 0 {
                assert(later[i - 1] == f[i]);
            }
        }
        if slot(f, name) < f.len() {
            assert(later[slot(later, name)] == f[slot(f, name)]);
        }
    }
}

/// The first entry of a name is where its place is.
pub proof fn lemma_slot_is(f: Forest, name: Seq<u8>, at: int)
    requires
        0 <= at <= f.len(),
        at < f.len() ==> f[at].0 == name,
        forall|i: int| 0 <= i < at ==> (#[trigger] f[i]).0 != name,
    ensures
        slot(f, name) == at,
{
    lemma_slot(f, name);
    let s = slot(f, name);
    if s < at {
        assert(f[s].0 != name);
    }
    if at < s {
        assert(f[at].0 != name);
    }
}

/// The place of an entry with a new name: behind the entries that do not come after it.
pub proof fn lemma_place(f: Forest, name: Seq<u8>)
    ensures
        0 <= place(f, name) <= f.len(),
        place(f, name) < f.len() ==> bytes::precedes(name, f[place(f, name)].0),
        forall|i: int| 0 <= i < place(f, name) ==> !bytes::precedes(name, (#[trigger] f[i]).0),
    decreases f.len(),
{
    if f.len() > 0 && !bytes::precedes(name, f[0].0) {
        let later = f.skip(1);
        lemma_place(later, name);
        assert forall|i: int| 0 <= i < place(f, name) implies !bytes::precedes(
            name,
            (#[trigger] f[i]).0,
        ) by {
            if i > 0 {
                assert(later[i - 1] == f[i]);
            }
        }
        if place(f, name) < f.len() {
            assert(later[place(later, name)] == f[place(f, name)]);
        }
    }
}

/// After an entry was put it is found under its name, and under every other name what was found
/// before.
pub proof fn law_put(f: Forest, name: Seq<u8>, node: Node, other: Seq<u8>)
    ensures
        lookup(put(f, name, node), other) == (if other == name {
            Some(node)
        } else {
            lookup(f, other)
        }),
{
    let g = put(f, name, node);
    let at = slot(f, name);
    lemma_slot(f, name);
    lemma_slot(f, other);
    let s = slot(f, other);
    if at < f.len() {
        assert forall|i: int| 0 <= i < f.len() implies (#[trigger] g[i]).0 == f[i].0 by {}
        lemma_slot_is(g, other, s);
    } else {
        lemma_place(f, name);
        let k = place(f, name);
        assert forall|i: int| 0 <= i < g.len() implies (#[trigger] g[i]) == (if i < k {
            f[i]
        } else if i == k {
            (name, node)
        } else {
            f[i - 1]
        }) by {}
        if other == name {
            assert forall|i: int| 0 <= i < k implies (#[trigger] g[i]).0 != name by {
                assert(f[i].0 != name);
            }
            lemma_slot_is(g, name, k);
        } else {
            let t = if s < k {
                s
            } else {
                s + 1
            };
            assert forall|i: int| 0 <= i < t implies (#[trigger] g[i]).0 != other by {
                if i < k {
                    assert(f[i].0 != other);
                } else if i > k {
                    assert(f[i - 1].0 != other);
                }
            }
            lemma_slot_is(g, other, t);
        }
    }
}

/// Whether no two entries of a tree have the same name.
pub open spec fn distinct(f: Forest) -> bool {
    forall|i: int, j: int|
        0 <= i < j < f.len() ==> (#[trigger] f[i]).0 != (#[trigger] f[j]).0
}

/// Of two trees laid over each other the later wins: what it does not name stays, and what it
/// names is laid over what the earlier has under that name.
pub proof fn law_merged(earlier: Forest, later: Forest, name: Seq<u8>)
    requires
        distinct(later),
    ensures
        lookup(merged(earlier, later), name) == (match lookup(later, name) {
            Some(node) => Some(laid_over(lookup(earlier, name), node)),
            None => lookup(earlier, name),
        }),
    decreases later.len(),
{
    lemma_slot(later, name);
    if later.len() > 0 {
        let before = later.drop_last();
        let (last, node) = (later.last().0, later.last().1);
        let so_far = merged(earlier, before);
        assert forall|i: int, j: int| 0 <= i < j < before.len() implies (#[trigger] before[i]).0
            != (#[trigger] before[j]).0 by {
            assert(before[i] == later[i] && before[j] == later[j]);
        }
        law_merged(earlier, before, name);
        law_put(so_far, last, laid_over(lookup(so_far, last), node), name);
        lemma_slot(before, name);
        let s = slot(before, name);
        if s < before.len() {
            assert(later[s] == before[s]);
            assert(later[later.len() - 1].0 != later[s].0);
            assert forall|i: int| 0 <= i < s implies (#[trigger] later[i]).0 != name by {
                assert(before[i] == later[i]);
            }
            lemma_slot_is(later, name, s);
        } else {
            assert forall|i: int| 0 <= i < before.len() implies (#[trigger] later[i]).0 != name by {
                assert(before[i] == later[i]);
            }
            assert(later[later.len() - 1].0 == last);
            if last == name {
                lemma_slot_is(later, name, later.len() - 1);
            } else {
                lemma_slot_is(later, name, later.len() as int);
            }
        }
    }
}

/// Whether the names of a tree come in order.
pub open spec fn sorted(f: Forest) -> bool {
    forall|i: int, j: int|
        0 <= i < j < f.len() ==> bytes::precedes((#[trigger] f[i]).0, (#[trigger] f[j]).0)
}

/// Putting an entry keeps the names in order.
pub proof fn law_put_sorted(f: Forest, name: Seq<u8>, node: Node)
    requires
        sorted(f),
    ensures
        sorted(put(f, name, node)),
        forall|i: int|
            0 <= i < put(f, name, node).len() ==> (#[trigger] put(f, name, node)[i]) == (name, node)
                || f.contains(put(f, name, node)[i]),
{
    let g = put(f, name, node);
    lemma_slot(f, name);
    lemma_place(f, name);
    let at = slot(f, name);
    let k = place(f, name);
    if at < f.len() {
        assert forall|i: int, j: int| 0 <= i < j < g.len() implies bytes::precedes(
            (#[trigger] g[i]).0,
            (#[trigger] g[j]).0,
        ) by {
            assert(bytes::precedes(f[i].0, f[j].0));
        }
        assert forall|i: int| 0 <= i < g.len() implies (#[trigger] g[i]) == (name, node)
            || f.contains(g[i]) by {
            if i != at {
                assert(f.contains(f[i]));
            }
        }
    } else {
        assert forall|i: int, j: int| 0 <= i < j < g.len() implies bytes::precedes(
            (#[trigger] g[i]).0,
            (#[trigger] g[j]).0,
        ) by {
            if j == k {
                assert(f[i].0 != name);
                bytes::lemma_precedes_total(f[i].0, name);
            } else if i == k {
                if j - 1 > k {
                    assert(bytes::precedes(f[k].0, f[j - 1].0));
                    bytes::lemma_precedes_transitive(name, f[k].0, f[j - 1].0);
                }
            } else {
                let a = if i < k {
                    i
                } else {
                    i - 1
                };
                let b = if j < k {
                    j
                } else {
                    j - 1
                };
                assert(bytes::precedes(f[a].0, f[b].0));
            }
        }
        assert forall|i: int| 0 <= i < g.len() implies (#[trigger] g[i]) == (name, node)
            || f.contains(g[i]) by {
            if i < k {
                assert(f.contains(f[i]));
            } else if i > k {
                assert(f.contains(f[i - 1]));
            }
        }
    }
}

/// Putting an orderly entry keeps a tree orderly.
pub proof fn law_put_orderly(f: Forest, name: Seq<u8>, node: Node)
    requires
        orderly(f),
        orderly_node(node),
    ensures
        orderly(put(f, name, node)),
{
    let g = put(f, name, node);
    law_put_sorted(f, name, node);
    assert forall|i: int| 0 <= i < g.len() implies orderly_node((#[trigger] g[i]).1) by {
        if g[i] != (name, node) {
            let k = choose|k: int| 0 <= k < f.len() && f[k] == g[i];
            assert(orderly_node(f[k].1));
        }
    }
}

/// Of two orderly trees laid over each other comes an orderly one.
pub proof fn law_merged_orderly(earlier: Forest, later: Forest)
    requires
        orderly(earlier),
        orderly(later),
    ensures
        orderly(merged(earlier, later)),
    decreases later, 0int,
{
    if later.len() > 0 {
        let before = later.drop_last();
        let so_far = merged(earlier, before);
        let (name, node) = (later.last().0, later.last().1);
        assert(orderly(before)) by {
            assert forall|i: int, j: int| 0 <= i < j < before.len() implies bytes::precedes(
                (#[trigger] before[i]).0,
                (#[trigger] before[j]).0,
            ) by {
                assert(before[i] == later[i] && before[j] == later[j]);
            }
            assert forall|i: int| 0 <= i < before.len() implies orderly_node(
                (#[trigger] before[i]).1,
            ) by {
                assert(before[i] == later[i]);
            }
        }
        law_merged_orderly(earlier, before);
        lemma_slot(so_far, name);
        assert(later.last() == later[later.len() - 1]);
        if lookup(so_far, name) is Some {
            assert(orderly_node(so_far[slot(so_far, name)].1));
        }
        lemma_laid_over_orderly(lookup(so_far, name), node);
        law_put_orderly(so_far, name, laid_over(lookup(so_far, name), node));
    }
}

proof fn lemma_laid_over_orderly(earlier: Option<Node>, node: Node)
    requires
        orderly_node(node),
        earlier is Some ==> orderly_node(earlier->Some_0),
    ensures
        orderly_node(laid_over(earlier, node)),
    decreases node, 1int,
{
    match (earlier, node) {
        (Some(Node::Directory { tree, .. }), Node::Directory { tree: later, .. }) => {
            law_merged_orderly(tree, later);
        },
        _ => {},
    }
}

/// An orderly tree inside directories makes an orderly one.
pub proof fn law_wrapped_orderly(f: Forest, list: Seq<Component<Seq<u8>>>)
    requires
        orderly(f),
    ensures
        orderly(wrapped(f, list)),
    decreases list.len(),
{
    if list.len() > 0 {
        match list.last() {
            Component::Normal(name) => {
                let node = Node::Directory { mode: 0o755, tree: f };
                let g = seq![(name, node)];
                assert(orderly_node(node));
                assert(orderly(g));
                law_wrapped_orderly(g, list.drop_last());
            },
            _ => {
                law_wrapped_orderly(f, list.drop_last());
            },
        }
    }
}

} // verus!
