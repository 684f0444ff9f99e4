//! How a managed tree gives way to another one at the same root.
use vstd::prelude::*;

use crate::atomic;
use crate::bytes;
use crate::entry;
use crate::error;
use crate::error::{Error, Refusal, Stage, Trouble};
use crate::host::{Action, Host, Kind, Metadata, Request};
use crate::path;
use crate::placing;
use crate::program;
use crate::program::Program;
use crate::session;
use crate::session::Session;
use crate::tree;
use crate::tree::{Entry, Forest, Node, Tree};

verus! {

broadcast use crate::program::group_program;

/// Looks whether the directory at `p` holds managed entries only, and so on in the managed
/// directories in it.
pub open spec fn unmanaged_program(f: Forest, p: Seq<u8>) -> Program<Result<(), Trouble>>
    decreases f, 1int, 0int,
{
    session::names(p).and_then(|names: Seq<Seq<u8>>| unmanaged_names_program(f, p, names))
}

/// Looks at the names in turn.
pub open spec fn unmanaged_names_program(f: Forest, p: Seq<u8>, names: Seq<Seq<u8>>) -> Program<
    Result<(), Trouble>,
>
    decreases f, 0int, names.len(),
{
    if names.len() == 0 {
        program::give(())
    } else {
        let at = tree::slot(f, names[0]);
        if !(0 <= at < f.len()) {
            program::fail(Error::Refused(Refusal::Unmanaged, p))
        } else if !vstd::utf8::valid_utf8(names[0]) {
            program::fail(Error::Refused(Refusal::EntryNotUtf8, p))
        } else {
            match f[at].1 {
                Node::Directory { tree, .. } => {
                    let child = path::join(p, names[0]);
                    session::stat(child).and_then(
                        |m: Metadata|
                            if m.kind is Directory {
                                unmanaged_program(tree, child).and_then(
                                    |u: ()| unmanaged_names_program(f, p, names.skip(1)),
                                )
                            } else {
                                unmanaged_names_program(f, p, names.skip(1))
                            },
                    )
                },
                _ => unmanaged_names_program(f, p, names.skip(1)),
            }
        }
    }
}

/// Looks whether what had stood at `p` can be put back there.
pub open spec fn restorable_program(node: Node, former: Node, p: Seq<u8>) -> Program<
    Result<(), Trouble>,
>
    decreases node, 1int,
{
    match (node, former) {
        (
            Node::Directory { tree, .. },
            Node::Directory { tree: former_tree, .. },
        ) => tree_restorable_program(tree, former_tree, p),
        (Node::Directory { tree, .. }, Node::Snapshot { .. }) => unmanaged_program(tree, p),
        _ => program::give(()),
    }
}

/// Looks whether what had stood below `root` can be put back there.
pub open spec fn tree_restorable_program(f: Forest, former: Forest, root: Seq<u8>) -> Program<
    Result<(), Trouble>,
>
    decreases f, 0int,
{
    if f.len() == 0 {
        program::give(())
    } else {
        let at = path::join(root, f[0].0);
        match tree::lookup(former, f[0].0) {
            None => program::fail(entry::malformed(at)),
            Some(node) => restorable_program(f[0].1, node, at).and_then(
                |u: ()| tree_restorable_program(f.skip(1), former, root),
            ),
        }
    }
}

/// Removes the directory at `p` if it is empty, and then does `after`.
pub open spec fn remove_empty_program(p: Seq<u8>, after: Program<Result<(), Trouble>>) -> Program<
    Result<(), Trouble>,
> {
    session::act(Request::RemoveDir(p)).bind(
        |r: Result<(), Trouble>|
            match r {
                Ok(u) => after,
                Err(e) => if error::not_empty(e) || error::missing(e) {
                    program::give(())
                } else {
                    program::fail(e)
                },
            },
    )
}

/// Removes the managed entries from the directory at `p`; a managed directory stays where it
/// holds anything else.
pub open spec fn remove_managed_program(f: Forest, p: Seq<u8>) -> Program<Result<(), Trouble>>
    decreases f, 1int,
{
    placing::writable_program(p).and_then(|u: ()| remove_entries_program(f, p))
}

/// Removes the managed entries in their order.
pub open spec fn remove_entries_program(f: Forest, p: Seq<u8>) -> Program<Result<(), Trouble>>
    decreases f, 0int,
{
    if f.len() == 0 {
        program::give(())
    } else {
        remove_entry_program(f[0].1, p, path::join(p, f[0].0)).and_then(
            |u: ()| remove_entries_program(f.skip(1), p),
        )
    }
}

/// Removes the managed entry at `child` from the directory at `p`.
pub open spec fn remove_entry_program(node: Node, p: Seq<u8>, child: Seq<u8>) -> Program<
    Result<(), Trouble>,
>
    decreases node, 2int,
{
    match node {
        Node::Directory { tree, .. } => session::stat(child).bind(
            |m: Result<Metadata, Trouble>|
                if placing::found_directory(m) {
                    remove_managed_program(tree, child).and_then(
                        |u: ()| remove_empty_program(child, atomic::sync_program(p)),
                    )
                } else {
                    placing::remove_program(child)
                },
        ),
        _ => placing::remove_program(child),
    }
}

/// The refusal of a path that is neither as it was left nor as it is to become.
pub open spec fn changed(p: Seq<u8>) -> Trouble {
    Error::Refused(Refusal::ChangedInTransition, p)
}

/// Removes what stands at `p`, which must be as `from` says, and puts `to` in its place.
pub open spec fn swap_program(from: Node, to: Node, p: Seq<u8>) -> Program<Result<(), Trouble>> {
    entry::matches_program(from, p).and_then(
        |same: bool|
            if same {
                placing::remove_program(p).and_then(|u: ()| placing::materialise_program(to, p))
            } else {
                program::fail(changed(p))
            },
    )
}

/// A directory becomes something that is not managed as a directory.
pub open spec fn dissolve_program(from: Node, tree: Forest, to: Node, p: Seq<u8>) -> Program<
    Result<(), Trouble>,
> {
    session::stat(p).bind(
        |m: Result<Metadata, Trouble>|
            match m {
                Ok(m) => if m.kind is Directory {
                    unmanaged_program(tree, p).and_then(
                        |u: ()|
                            session::act(Request::RemoveTree(p)).and_then(
                                |u: ()|
                                    atomic::sync_parent_program(p).and_then(
                                        |u: ()| placing::materialise_program(to, p),
                                    ),
                            ),
                    )
                } else {
                    swap_program(from, to, p)
                },
                Err(e) => if error::missing(e) {
                    placing::materialise_program(to, p)
                } else {
                    program::fail(e)
                },
            },
    )
}

/// Something that is not managed as a directory becomes a directory.
pub open spec fn found_program(from: Node, mode: u32, tree: Forest, p: Seq<u8>) -> Program<
    Result<(), Trouble>,
> {
    let to = Node::Directory { mode, tree };
    session::stat(p).bind(
        |m: Result<Metadata, Trouble>|
            match m {
                Ok(m) => if m.kind is Directory {
                    placing::writable_program(p).and_then(
                        |u: ()|
                            placing::tree_repair_program(tree, p).and_then(
                                |u: ()| placing::seal_program(p, mode),
                            ),
                    )
                } else {
                    swap_program(from, to, p)
                },
                Err(e) => if error::missing(e) {
                    placing::materialise_program(to, p)
                } else {
                    program::fail(e)
                },
            },
    )
}

/// Looks whether an entry that is not managed as a directory is the backup of one.
pub open spec fn unfolds_program(to: Node) -> Program<Result<bool, Trouble>> {
    match to {
        Node::Snapshot { source, .. } => session::stat(source).and_then(
            |m: Metadata| program::give(m.kind is Directory),
        ),
        _ => program::give(false),
    }
}

/// Something that is not managed as a directory becomes something of that kind.
pub open spec fn exchange_program(from: Node, to: Node, p: Seq<u8>) -> Program<
    Result<(), Trouble>,
> {
    session::stat(p).bind(
        |m: Result<Metadata, Trouble>|
            if m matches Err(e) && error::missing(e) {
                placing::materialise_program(to, p)
            } else {
                entry::matches_program(from, p).and_then(
                    |same: bool|
                        if !same {
                            program::fail(changed(p))
                        } else {
                            session::stat(p).bind(
                                |m: Result<Metadata, Trouble>|
                                    unfolds_program(to).and_then(
                                        |unfolds: bool|
                                            if placing::found_directory(m) || unfolds {
                                                placing::remove_program(p).and_then(
                                                    |u: ()| placing::materialise_program(to, p),
                                                )
                                            } else {
                                                placing::materialise_program(to, p)
                                            },
                                    ),
                            )
                        },
                )
            },
    )
}

/// A managed directory leaves; it stays where it holds entries that are not managed.
pub open spec fn withdraw_program(tree: Forest, p: Seq<u8>) -> Program<Result<(), Trouble>> {
    session::stat(p).bind(
        |m: Result<Metadata, Trouble>|
            if placing::found_directory(m) {
                remove_managed_program(tree, p).and_then(
                    |u: ()| remove_empty_program(p, atomic::sync_parent_program(p)),
                )
            } else {
                program::fail(changed(p))
            },
    )
}

/// Something that is not managed as a directory leaves.
pub open spec fn drop_program(from: Node, p: Seq<u8>) -> Program<Result<(), Trouble>> {
    entry::matches_program(from, p).and_then(
        |same: bool|
            if same {
                placing::remove_program(p)
            } else {
                program::fail(changed(p))
            },
    )
}

/// Turns what stands at `p` from `from` into `to`; nothing is done where it is `to` already.
pub open spec fn transition_program(from: Node, to: Node, p: Seq<u8>) -> Program<
    Result<(), Trouble>,
>
    decreases from, 1int,
{
    entry::matches_program(to, p).and_then(
        |same: bool|
            if same {
                program::give(())
            } else {
                match (from, to) {
                    (
                        Node::Directory { tree: from_tree, .. },
                        Node::Directory { mode, tree: to_tree },
                    ) => session::stat(p).bind(
                        |m: Result<Metadata, Trouble>|
                            if placing::found_directory(m) {
                                placing::writable_program(p).and_then(
                                    |u: ()|
                                        tree_transition_program(from_tree, to_tree, p).and_then(
                                            |u: ()| placing::seal_program(p, mode),
                                        ),
                                )
                            } else {
                                program::fail(changed(p))
                            },
                    ),
                    (Node::Directory { tree, .. }, Node::Absent) => withdraw_program(tree, p),
                    (Node::Directory { tree, .. }, _) => dissolve_program(from, tree, to, p),
                    (_, Node::Directory { mode, tree }) => found_program(from, mode, tree, p),
                    (_, Node::Absent) => drop_program(from, p),
                    _ => exchange_program(from, to, p),
                }
            },
    )
}

/// Turns the entries below `root` one after the other.
pub open spec fn tree_transition_program(from: Forest, to: Forest, root: Seq<u8>) -> Program<
    Result<(), Trouble>,
>
    decreases from, 0int,
{
    if from.len() == 0 {
        program::give(())
    } else {
        let p = path::join(root, from[0].0);
        match tree::lookup(to, from[0].0) {
            None => program::fail(entry::malformed(p)),
            Some(node) => transition_program(from[0].1, node, p).bind(
                |r: Result<(), Trouble>|
                    match r {
                        Ok(u) => tree_transition_program(from.skip(1), to, root),
                        Err(e) => program::fail(Error::Within(Stage::Transition, p, Box::new(e))),
                    },
            ),
        }
    }
}

/// Looks whether the directory at `p` holds managed entries only, and so on in the managed
/// directories in it.
pub fn ensure_no_unmanaged<H: Host>(s: &mut Session<H>, tree: &Tree, p: &[u8]) -> (r: Result<
    (),
    Error,
>)
    ensures
        unmanaged_program(tree.forest(), p@).ran(old(s)@, final(s)@, error::outcome(r)),
    decreases tree,
{
    let ghost f = tree.forest();
    let names = s.names(bytes::copied(p))?;
    let ghost list = bytes::all(names@);
    let ghost whole = unmanaged_program(f, p@);
    let mut i: usize = 0;
    assert(list.skip(0) =~= list);
    while i < names.len()
        invariant
            f == tree.forest(),
            whole == unmanaged_program(f, p@),
            list == bytes::all(names@),
            i <= names.len(),
            program::extends(old(s)@, s@),
            whole.now(old(s)@, s@) == unmanaged_names_program(f, p@, list.skip(i as int)),
        decreases names.len() - i,
    {
        let name: &Vec<u8> = &names[i];
        proof {
            assert(list.skip(i as int)[0] == name@);
            assert(list.skip(i as int).skip(1) =~= list.skip(i + 1));
        }
        match tree.find(name) {
            None => {
                return Err(Error::Refused(Refusal::Unmanaged, bytes::copied(p)));
            },
            Some(at) => {
                if !bytes::is_utf8(name) {
                    return Err(Error::Refused(Refusal::EntryNotUtf8, bytes::copied(p)));
                }
                let entry: &Entry = &tree.entries[at].1;
                assert(f[at as int].1 == entry.node());
                match entry {
                    Entry::Directory { mode: _, tree: inner } => {
                        let child = path::extend(p, name);
                        let m = s.stat(bytes::copied(&child))?;
                        if m.kind == Kind::Directory {
                            ensure_no_unmanaged(s, inner, &child)?;
                        }
                    },
                    _ => {},
                }
            },
        }
        i += 1;
    }
    Ok(())
}

/// Looks whether what had stood at `p` can be put back there.
pub fn ensure_restorable<H: Host>(
    s: &mut Session<H>,
    projected: &Entry,
    baseline: &Entry,
    p: &[u8],
) -> (r: Result<(), Error>)
    ensures
        restorable_program(projected.node(), baseline.node(), p@).ran(
            old(s)@,
            final(s)@,
            error::outcome(r),
        ),
    decreases projected,
{
    match (projected, baseline) {
        (
            Entry::Directory { mode: _, tree },
            Entry::Directory { mode: _, tree: former },
        ) => ensure_tree_restorable(s, tree, former, p),
        (Entry::Directory { mode: _, tree }, Entry::Snapshot { .. }) => ensure_no_unmanaged(
            s,
            tree,
            p,
        ),
        _ => Ok(()),
    }
}

/// Looks whether what had stood below `root` can be put back there.
pub fn ensure_tree_restorable<H: Host>(
    s: &mut Session<H>,
    projection: &Tree,
    baseline: &Tree,
    root: &[u8],
) -> (r: Result<(), Error>)
    ensures
        tree_restorable_program(projection.forest(), baseline.forest(), root@).ran(
            old(s)@,
            final(s)@,
            error::outcome(r),
        ),
    decreases projection,
{
    let ghost f = projection.forest();
    let ghost former = baseline.forest();
    let ghost whole = tree_restorable_program(f, former, root@);
    let mut i: usize = 0;
    assert(f.skip(0) =~= f);
    while i < projection.entries.len()
        invariant
            f == projection.forest(),
            former == baseline.forest(),
            whole == tree_restorable_program(f, former, root@),
            i <= projection.entries.len(),
            program::extends(old(s)@, s@),
            whole.now(old(s)@, s@) == tree_restorable_program(f.skip(i as int), former, root@),
        decreases projection.entries.len() - i,
    {
        assert(f.skip(i as int)[0] == f[i as int]);
        assert(f.skip(i as int).skip(1) =~= f.skip(i + 1));
        let at = path::extend(root, &projection.entries[i].0);
        match baseline.find(&projection.entries[i].0) {
            None => {
                return Err(entry::refuse_malformed(&at));
            },
            Some(k) => {
                assert(former[k as int].1 == baseline.entries@[k as int].1.node());
                ensure_restorable(s, &projection.entries[i].1, &baseline.entries[k].1, &at)?;
            },
        }
        i += 1;
    }
    Ok(())
}

/// Whether a directory that was to be removed was left or is gone.
fn may_stay(e: &Error) -> (r: bool)
    ensures
        r == (error::not_empty(e.seen()) || error::missing(e.seen())),
{
    e.is_not_empty() || e.is_missing()
}

/// Removes the managed entries from the directory at `p`; a managed directory stays where it
/// holds anything else.
pub fn remove_managed<H: Host>(s: &mut Session<H>, tree: &Tree, p: &[u8]) -> (r: Result<(), Error>)
    ensures
        remove_managed_program(tree.forest(), p@).ran(old(s)@, final(s)@, error::outcome(r)),
    decreases tree, 1int,
{
    placing::make_directory_writable(s, p)?;
    let ghost f = tree.forest();
    let ghost whole = remove_managed_program(f, p@);
    let mut i: usize = 0;
    assert(f.skip(0) =~= f);
    while i < tree.entries.len()
        invariant
            f == tree.forest(),
            whole == remove_managed_program(f, p@),
            i <= tree.entries.len(),
            program::extends(old(s)@, s@),
            whole.now(old(s)@, s@) == remove_entries_program(f.skip(i as int), p@),
        decreases tree.entries.len() - i,
    {
        assert(f.skip(i as int)[0] == f[i as int]);
        assert(f.skip(i as int).skip(1) =~= f.skip(i + 1));
        let child = path::extend(p, &tree.entries[i].0);
        remove_entry(s, &tree.entries[i].1, p, &child)?;
        i += 1;
    }
    Ok(())
}

/// Removes the managed entry at `child` from the directory at `p`.
fn remove_entry<H: Host>(s: &mut Session<H>, entry: &Entry, p: &[u8], child: &[u8]) -> (r: Result<
    (),
    Error,
>)
    ensures
        remove_entry_program(entry.node(), p@, child@).ran(
            old(s)@,
            final(s)@,
            error::outcome(r),
        ),
    decreases entry, 2int,
{
    match entry {
        Entry::Directory { mode: _, tree } => if placing::is_directory(
            s.stat(bytes::copied(child)),
        ) {
            remove_managed(s, tree, child)?;
            match s.act(Action::RemoveDir(bytes::copied(child))) {
                Ok(()) => atomic::sync(s, p),
                Err(e) => if may_stay(&e) {
                    Ok(())
                } else {
                    Err(e)
                },
            }
        } else {
            placing::remove(s, child)
        },
        _ => placing::remove(s, child),
    }
}

/// The refusal of a path that is neither as it was left nor as it is to become.
fn refuse_changed(p: &[u8]) -> (r: Error)
    ensures
        r.seen() == changed(p@),
{
    Error::Refused(Refusal::ChangedInTransition, bytes::copied(p))
}

/// Removes what stands at `p`, which must be as `from` says, and puts `to` in its place.
fn swap<H: Host>(s: &mut Session<H>, from: &Entry, to: &Entry, p: &[u8]) -> (r: Result<(), Error>)
    ensures
        swap_program(from.node(), to.node(), p@).ran(old(s)@, final(s)@, error::outcome(r)),
{
    if !from.matches(s, p)? {
        return Err(refuse_changed(p));
    }
    placing::remove(s, p)?;
    to.materialise(s, p)
}

/// A directory becomes something that is not managed as a directory.
fn dissolve<H: Host>(s: &mut Session<H>, from: &Entry, tree: &Tree, to: &Entry, p: &[u8]) -> (r:
    Result<(), Error>)
    ensures
        dissolve_program(from.node(), tree.forest(), to.node(), p@).ran(
            old(s)@,
            final(s)@,
            error::outcome(r),
        ),
{
    match s.stat(bytes::copied(p)) {
        Ok(m) => if m.kind == Kind::Directory {
            ensure_no_unmanaged(s, tree, p)?;
            s.act(Action::RemoveTree(bytes::copied(p)))?;
            atomic::sync_parent(s, p)?;
            to.materialise(s, p)
        } else {
            swap(s, from, to, p)
        },
        Err(e) => if e.is_missing() {
            to.materialise(s, p)
        } else {
            Err(e)
        },
    }
}

/// Something that is not managed as a directory becomes the directory `to`.
fn found<H: Host>(
    s: &mut Session<H>,
    from: &Entry,
    to: &Entry,
    mode: u32,
    tree: &Tree,
    p: &[u8],
) -> (r: Result<(), Error>)
    requires
        to.node() == (Node::Directory { mode, tree: tree.forest() }),
    ensures
        found_program(from.node(), mode, tree.forest(), p@).ran(
            old(s)@,
            final(s)@,
            error::outcome(r),
        ),
{
    match s.stat(bytes::copied(p)) {
        Ok(m) => if m.kind == Kind::Directory {
            placing::make_directory_writable(s, p)?;
            tree.repair(s, p)?;
            placing::seal(s, p, mode)
        } else {
            swap(s, from, to, p)
        },
        Err(e) => if e.is_missing() {
            to.materialise(s, p)
        } else {
            Err(e)
        },
    }
}

/// Looks whether an entry that is not managed as a directory is the backup of one.
fn unfolds<H: Host>(s: &mut Session<H>, to: &Entry) -> (r: Result<bool, Error>)
    ensures
        unfolds_program(to.node()).ran(old(s)@, final(s)@, error::outcome(r)),
{
    match to {
        Entry::Snapshot { source, modes: _ } => {
            let m = s.stat(bytes::copied(source))?;
            Ok(m.kind == Kind::Directory)
        },
        _ => Ok(false),
    }
}

/// Something that is not managed as a directory becomes something of that kind.
fn exchange<H: Host>(s: &mut Session<H>, from: &Entry, to: &Entry, p: &[u8]) -> (r: Result<
    (),
    Error,
>)
    ensures
        exchange_program(from.node(), to.node(), p@).ran(old(s)@, final(s)@, error::outcome(r)),
{
    let gone: bool = match s.stat(bytes::copied(p)) {
        Ok(_) => false,
        Err(e) => e.is_missing(),
    };
    if gone {
        return to.materialise(s, p);
    }
    if !from.matches(s, p)? {
        return Err(refuse_changed(p));
    }
    let current: bool = placing::is_directory(s.stat(bytes::copied(p)));
    let target: bool = unfolds(s, to)?;
    if current || target {
        placing::remove(s, p)?;
    }
    to.materialise(s, p)
}

/// A managed directory leaves; it stays where it holds entries that are not managed.
fn withdraw<H: Host>(s: &mut Session<H>, tree: &Tree, p: &[u8]) -> (r: Result<(), Error>)
    ensures
        withdraw_program(tree.forest(), p@).ran(old(s)@, final(s)@, error::outcome(r)),
{
    if !placing::is_directory(s.stat(bytes::copied(p))) {
        return Err(refuse_changed(p));
    }
    remove_managed(s, tree, p)?;
    match s.act(Action::RemoveDir(bytes::copied(p))) {
        Ok(()) => atomic::sync_parent(s, p),
        Err(e) => if may_stay(&e) {
            Ok(())
        } else {
            Err(e)
        },
    }
}

/// Something that is not managed as a directory leaves.
fn drop_entry<H: Host>(s: &mut Session<H>, from: &Entry, p: &[u8]) -> (r: Result<(), Error>)
    ensures
        drop_program(from.node(), p@).ran(old(s)@, final(s)@, error::outcome(r)),
{
    if !from.matches(s, p)? {
        return Err(refuse_changed(p));
    }
    placing::remove(s, p)
}

/// Turns what stands at `p` from `from` into `to`; nothing is done where it is `to` already.
pub fn transition<H: Host>(s: &mut Session<H>, from: &Entry, to: &Entry, p: &[u8]) -> (r: Result<
    (),
    Error,
>)
    ensures
        transition_program(from.node(), to.node(), p@).ran(old(s)@, final(s)@, error::outcome(r)),
    decreases from,
{
    if to.matches(s, p)? {
        return Ok(());
    }
    match (from, to) {
        (
            Entry::Directory { mode: _, tree: from_tree },
            Entry::Directory { mode, tree: to_tree },
        ) => {
            if !placing::is_directory(s.stat(bytes::copied(p))) {
                return Err(refuse_changed(p));
            }
            placing::make_directory_writable(s, p)?;
            transition_tree(s, from_tree, to_tree, p)?;
            placing::seal(s, p, *mode)
        },
        (Entry::Directory { mode: _, tree }, Entry::Absent) => withdraw(s, tree, p),
        (Entry::Directory { mode: _, tree }, _) => dissolve(s, from, tree, to, p),
        (_, Entry::Directory { mode, tree }) => found(s, from, to, *mode, tree, p),
        (_, Entry::Absent) => drop_entry(s, from, p),
        _ => exchange(s, from, to, p),
    }
}

/// Turns the entries below `root` one after the other.
pub fn transition_tree<H: Host>(s: &mut Session<H>, from: &Tree, to: &Tree, root: &[u8]) -> (r:
    Result<(), Error>)
    ensures
        tree_transition_program(from.forest(), to.forest(), root@).ran(
            old(s)@,
            final(s)@,
            error::outcome(r),
        ),
    decreases from,
{
    let ghost f = from.forest();
    let ghost g = to.forest();
    let ghost whole = tree_transition_program(f, g, root@);
    let mut i: usize = 0;
    assert(f.skip(0) =~= f);
    while i < from.entries.len()
        invariant
            f == from.forest(),
            g == to.forest(),
            whole == tree_transition_program(f, g, root@),
            i <= from.entries.len(),
            program::extends(old(s)@, s@),
            whole.now(old(s)@, s@) == tree_transition_program(f.skip(i as int), g, root@),
        decreases from.entries.len() - i,
    {
        assert(f.skip(i as int)[0] == f[i as int]);
        assert(f.skip(i as int).skip(1) =~= f.skip(i + 1));
        let at = path::extend(root, &from.entries[i].0);
        match to.find(&from.entries[i].0) {
            None => {
                return Err(entry::refuse_malformed(&at));
            },
            Some(k) => {
                assert(g[k as int].1 == to.entries@[k as int].1.node());
                match transition(s, &from.entries[i].1, &to.entries[k].1, &at) {
                    Ok(()) => {},
                    Err(e) => {
                        return Err(Error::Within(Stage::Transition, at, Box::new(e)));
                    },
                }
            },
        }
        i += 1;
    }
    Ok(())
}

} // verus!
