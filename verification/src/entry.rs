//! Managed entries on the disk: whether they are as they should be, and how they become so.
use vstd::prelude::*;

use crate::bytes;
use crate::error;
use crate::error::{Error, Refusal, Trouble};
use crate::host;
use crate::host::{Action, Host, Kind, Metadata, Request};
use crate::path;
use crate::program;
use crate::program::Program;
use crate::session;
use crate::session::Session;
use crate::tree;
use crate::tree::{Entry, Forest, Modes, Node, Tree};

verus! {

broadcast use crate::program::group_program;

/// How a managed path differs from what it should be.
#[derive(Debug)]
pub enum Drift<B = Vec<u8>> {
    /// A directory is missing.
    Missing(B),
    /// Something else stands where a directory should be.
    Replaced(B),
    /// A link is missing or is not the one that should be there.
    Modified(B),
    /// A copy is missing or is not like the file that it was made from.
    CopyModified { path: B, expected: B },
    /// A directory has other permissions.
    Permissions(B),
}

impl View for Drift {
    type V = Drift<Seq<u8>>;

    open spec fn view(&self) -> Drift<Seq<u8>> {
        match *self {
            Drift::Missing(p) => Drift::Missing(p@),
            Drift::Replaced(p) => Drift::Replaced(p@),
            Drift::Modified(p) => Drift::Modified(p@),
            Drift::CopyModified { path: p, expected } => Drift::CopyModified {
                path: p@,
                expected: expected@,
            },
            Drift::Permissions(p) => Drift::Permissions(p@),
        }
    }
}

/// The drifts held by a vector.
pub open spec fn seen(list: Seq<Drift>) -> Seq<Drift<Seq<u8>>> {
    list.map_values(|drift: Drift| drift@)
}

impl Drift<Seq<u8>> {
    /// The path that differs.
    pub open spec fn at(self) -> Seq<u8> {
        match self {
            Drift::Missing(p) => p,
            Drift::Replaced(p) => p,
            Drift::Modified(p) => p,
            Drift::CopyModified { path: p, .. } => p,
            Drift::Permissions(p) => p,
        }
    }

    /// The file that a copy should be like.
    pub open spec fn model(self) -> Option<Seq<u8>> {
        match self {
            Drift::CopyModified { expected, .. } => Some(expected),
            _ => None,
        }
    }

    /// The word for the difference.
    pub open spec fn word(self) -> Seq<char> {
        match self {
            Drift::Missing(_) => "missing"@,
            Drift::Replaced(_) => "replaced"@,
            Drift::Modified(_) => "modified"@,
            Drift::CopyModified { .. } => "modified"@,
            Drift::Permissions(_) => "permissions"@,
        }
    }
}

impl Drift {
    /// The path that differs.
    pub fn path(&self) -> (r: &Vec<u8>)
        ensures
            r@ == self@.at(),
    {
        match self {
            Drift::Missing(p) => p,
            Drift::Replaced(p) => p,
            Drift::Modified(p) => p,
            Drift::CopyModified { path: p, expected: _ } => p,
            Drift::Permissions(p) => p,
        }
    }

    /// The file that a copy should be like.
    pub fn expected(&self) -> (r: Option<&Vec<u8>>)
        ensures
            match r {
                Some(p) => self@.model() == Some(p@),
                None => self@.model() is None,
            },
    {
        match self {
            Drift::CopyModified { path: _, expected } => Some(expected),
            _ => None,
        }
    }

    /// The word for the difference.
    pub fn label(&self) -> (r: &'static str)
        ensures
            r@ == self@.word(),
    {
        match self {
            Drift::Missing(_) => "missing",
            Drift::Replaced(_) => "replaced",
            Drift::Modified(_) => "modified",
            Drift::CopyModified { .. } => "modified",
            Drift::Permissions(_) => "permissions",
        }
    }
}

/// The refusal of a recorded activation that mounting does not record.
pub open spec fn malformed(p: Seq<u8>) -> Trouble {
    Error::Refused(Refusal::Malformed, p)
}

/// The refusal of a recorded activation that mounting does not record.
pub fn refuse_malformed(p: &[u8]) -> (r: Error)
    ensures
        r.seen() == malformed(p@),
{
    Error::Refused(Refusal::Malformed, bytes::copied(p))
}

/// What came of looking for drifts, and the drifts found.
pub type Tally = (Result<(), Trouble>, Seq<Drift<Seq<u8>>>);

/// Ends a look for drifts.
pub open spec fn tally(r: Result<(), Trouble>, found: Seq<Drift<Seq<u8>>>) -> Program<Tally> {
    Program::Done((r, found))
}

/// Ends a look for drifts, with one more if something changed.
pub open spec fn noted(
    found: Seq<Drift<Seq<u8>>>,
    changed: bool,
    drift: Drift<Seq<u8>>,
) -> Program<Tally> {
    tally(
        Ok(()),
        if changed {
            found.push(drift)
        } else {
            found
        },
    )
}

/// Looks whether the symbolic link that should be at `p` is there.
pub open spec fn link_drift_program(
    m: Result<Metadata, Trouble>,
    target: Seq<u8>,
    p: Seq<u8>,
    found: Seq<Drift<Seq<u8>>>,
) -> Program<Tally> {
    match m {
        Ok(m) => if m.kind is Symlink {
            session::data(Request::ReadLink(p)).bind(
                |t: Result<Seq<u8>, Trouble>|
                    match t {
                        Ok(t) => noted(found, !path::equal(t, target), Drift::Modified(p)),
                        Err(e) => tally(Err(e), found),
                    },
            )
        } else {
            noted(found, true, Drift::Modified(p))
        },
        Err(e) => if error::missing(e) {
            noted(found, true, Drift::Modified(p))
        } else {
            tally(Err(e), found)
        },
    }
}

/// Looks whether the copy that should be at `p` is there.
pub open spec fn copy_drift_program(
    m: Result<Metadata, Trouble>,
    source: Seq<u8>,
    mode: u32,
    p: Seq<u8>,
    found: Seq<Drift<Seq<u8>>>,
) -> Program<Tally> {
    let drift = Drift::CopyModified { path: p, expected: source };
    match m {
        Ok(m) => if m.kind is File {
            session::data(Request::ReadFile(p)).bind(
                |a: Result<Seq<u8>, Trouble>|
                    match a {
                        Ok(a) => session::data(Request::ReadFile(source)).bind(
                            |b: Result<Seq<u8>, Trouble>|
                                match b {
                                    Ok(b) => noted(found, a != b || m.permissions() != mode, drift),
                                    Err(e) => tally(Err(e), found),
                                },
                        ),
                        Err(e) => tally(Err(e), found),
                    },
            )
        } else {
            noted(found, true, drift)
        },
        Err(e) => if error::missing(e) {
            noted(found, true, drift)
        } else {
            tally(Err(e), found)
        },
    }
}

/// Looks for the drifts of an entry at `p`, adding to those found before.
pub open spec fn drifts_program(node: Node, p: Seq<u8>, found: Seq<Drift<Seq<u8>>>) -> Program<Tally>
    decreases node, 1int,
{
    session::stat(p).bind(
        |m: Result<Metadata, Trouble>|
            match node {
                Node::Directory { mode, tree } => match m {
                    Ok(m) => if m.kind is Directory {
                        tree_drifts_program(
                            tree,
                            p,
                            if m.permissions() != mode {
                                found.push(Drift::Permissions(p))
                            } else {
                                found
                            },
                        )
                    } else {
                        noted(found, true, Drift::Replaced(p))
                    },
                    Err(e) => if error::missing(e) {
                        noted(found, true, Drift::Missing(p))
                    } else {
                        tally(Err(e), found)
                    },
                },
                Node::Link { source } => link_drift_program(m, source, p, found),
                Node::Copy { source, mode } => copy_drift_program(m, source, mode, p, found),
                Node::Symlink { target } => link_drift_program(m, target, p, found),
                _ => tally(Err(malformed(p)), found),
            },
    )
}

/// Looks for the drifts of the entries below `root`, in their order, up to the first failure.
pub open spec fn tree_drifts_program(
    f: Forest,
    root: Seq<u8>,
    found: Seq<Drift<Seq<u8>>>,
) -> Program<Tally>
    decreases f, 0int,
{
    if f.len() == 0 {
        tally(Ok(()), found)
    } else {
        drifts_program(f[0].1, path::join(root, f[0].0), found).bind(
            |t: Tally|
                match t.0 {
                    Ok(u) => tree_drifts_program(f.skip(1), root, t.1),
                    Err(e) => Program::Done(t),
                },
        )
    }
}

/// The path `rel` below `base`; `base` itself where `rel` is empty.
pub open spec fn spot(base: Seq<u8>, rel: Seq<u8>) -> Seq<u8> {
    if rel.len() == 0 {
        base
    } else {
        path::join(base, rel)
    }
}

/// The recorded permissions of the relative path `rel`.
pub open spec fn mode_at(modes: Modes, rel: Seq<u8>) -> Option<u32>
    decreases modes.len(),
{
    if modes.len() == 0 {
        None
    } else if path::equal(modes[0].0, rel) {
        Some(modes[0].1)
    } else {
        mode_at(modes.skip(1), rel)
    }
}

/// Compares what two requests for data are answered with.
pub open spec fn compare_program(a: Request, b: Request) -> Program<Result<bool, Trouble>> {
    session::data(a).and_then(
        |x: Seq<u8>| session::data(b).and_then(|y: Seq<u8>| program::give(x == y)),
    )
}

/// Compares the targets of two symbolic links.
pub open spec fn compare_links_program(a: Seq<u8>, b: Seq<u8>) -> Program<Result<bool, Trouble>> {
    session::data(Request::ReadLink(a)).and_then(
        |x: Seq<u8>|
            session::data(Request::ReadLink(b)).and_then(
                |y: Seq<u8>| program::give(path::equal(x, y)),
            ),
    )
}

/// Whether the length of `child` shows that it lies below `rel`.
pub open spec fn deeper(rel: Seq<u8>, child: Seq<u8>) -> bool {
    rel.len() < child.len() <= usize::MAX
}

/// Looks whether what stands at `rel` below `target` is like what stands at `rel` below
/// `source`, with the recorded permissions.
pub open spec fn snapshot_program(
    source: Seq<u8>,
    target: Seq<u8>,
    rel: Seq<u8>,
    modes: Modes,
) -> Program<Result<bool, Trouble>>
    decreases usize::MAX - rel.len(), 1int, 0int,
{
    let from = spot(source, rel);
    let to = spot(target, rel);
    session::stat(from).and_then(
        |a: Metadata|
            session::stat(to).bind(
                |b: Result<Metadata, Trouble>|
                    match b {
                        Err(e) => if error::missing(e) {
                            program::give(false)
                        } else {
                            program::fail(e)
                        },
                        Ok(b) => if a.kind is Symlink {
                            if b.kind is Symlink {
                                compare_links_program(from, to)
                            } else {
                                program::give(false)
                            }
                        } else if a.kind is File {
                            if b.kind is File {
                                match mode_at(modes, rel) {
                                    None => program::fail(malformed(rel)),
                                    Some(mode) => if b.permissions() == mode {
                                        compare_program(
                                            Request::ReadFile(from),
                                            Request::ReadFile(to),
                                        )
                                    } else {
                                        program::give(false)
                                    },
                                }
                            } else {
                                program::give(false)
                            }
                        } else if b.kind is Directory {
                            match mode_at(modes, rel) {
                                None => program::fail(malformed(rel)),
                                Some(mode) => if b.permissions() == mode {
                                    session::names(from).and_then(
                                        |x: Seq<Seq<u8>>|
                                            session::names(to).and_then(
                                                |y: Seq<Seq<u8>>|
                                                    if bytes::ascending(x) == bytes::ascending(y) {
                                                        snapshot_names_program(
                                                            source,
                                                            target,
                                                            rel,
                                                            modes,
                                                            bytes::ascending(x),
                                                        )
                                                    } else {
                                                        program::give(false)
                                                    },
                                            ),
                                    )
                                } else {
                                    program::give(false)
                                },
                            }
                        } else {
                            program::give(false)
                        },
                    },
            ),
    )
}

/// Looks at the names in turn, until one differs.
pub open spec fn snapshot_names_program(
    source: Seq<u8>,
    target: Seq<u8>,
    rel: Seq<u8>,
    modes: Modes,
    names: Seq<Seq<u8>>,
) -> Program<Result<bool, Trouble>>
    decreases usize::MAX - rel.len(), 0int, names.len(),
{
    if names.len() == 0 {
        program::give(true)
    } else {
        let child = path::join(rel, names[0]);
        if deeper(rel, child) {
            snapshot_program(source, target, child, modes).and_then(
                |same: bool|
                    if same {
                        snapshot_names_program(source, target, rel, modes, names.skip(1))
                    } else {
                        program::give(false)
                    },
            )
        } else {
            Program::Stuck
        }
    }
}

/// Looks whether the symbolic link at `p` leads to `target`.
pub open spec fn leads_program(m: Metadata, target: Seq<u8>, p: Seq<u8>) -> Program<
    Result<bool, Trouble>,
> {
    if m.kind is Symlink {
        session::data(Request::ReadLink(p)).and_then(
            |t: Seq<u8>| program::give(path::equal(t, target)),
        )
    } else {
        program::give(false)
    }
}

/// Looks whether an entry is at `p` as it should be.
pub open spec fn matches_program(node: Node, p: Seq<u8>) -> Program<Result<bool, Trouble>>
    decreases node, 1int,
{
    session::stat(p).bind(
        |m: Result<Metadata, Trouble>|
            match m {
                Err(e) => if error::missing(e) {
                    program::give(node is Absent)
                } else {
                    program::fail(e)
                },
                Ok(m) => match node {
                    Node::Absent => program::give(false),
                    Node::Directory { mode, tree } => if m.kind is Directory && m.permissions()
                        == mode {
                        tree_matches_program(tree, p)
                    } else {
                        program::give(false)
                    },
                    Node::Link { source } => leads_program(m, source, p),
                    Node::Copy { source, mode } => if m.kind is File && m.permissions() == mode {
                        compare_program(Request::ReadFile(p), Request::ReadFile(source))
                    } else {
                        program::give(false)
                    },
                    Node::Symlink { target } => leads_program(m, target, p),
                    Node::Snapshot { source, modes } => snapshot_program(
                        source,
                        p,
                        Seq::empty(),
                        modes,
                    ),
                },
            },
    )
}

/// Looks at the entries below `root` in their order, until one is not as it should be.
pub open spec fn tree_matches_program(f: Forest, root: Seq<u8>) -> Program<Result<bool, Trouble>>
    decreases f, 0int,
{
    if f.len() == 0 {
        program::give(true)
    } else {
        matches_program(f[0].1, path::join(root, f[0].0)).and_then(
            |same: bool|
                if same {
                    tree_matches_program(f.skip(1), root)
                } else {
                    program::give(false)
                },
        )
    }
}

/// Adds a drift if something changed.
fn note(found: &mut Vec<Drift>, changed: bool, drift: Drift)
    ensures
        seen(final(found)@) == (if changed {
            seen(old(found)@).push(drift@)
        } else {
            seen(old(found)@)
        }),
{
    if changed {
        found.push(drift);
        assert(seen(found@) =~= seen(old(found)@).push(drift@));
    }
}

/// Looks whether the symbolic link that should be at `p` is there.
fn link_drift<H: Host>(
    s: &mut Session<H>,
    m: Result<Metadata, Error>,
    target: &[u8],
    p: &[u8],
    found: &mut Vec<Drift>,
) -> (r: Result<(), Error>)
    ensures
        link_drift_program(error::outcome(m), target@, p@, seen(old(found)@)).ran(
            old(s)@,
            final(s)@,
            (error::outcome(r), seen(final(found)@)),
        ),
{
    let changed: bool = match m {
        Ok(m) => if m.kind == Kind::Symlink {
            let t = s.data(Action::ReadLink(bytes::copied(p)))?;
            !path::same(&t, target)
        } else {
            true
        },
        Err(e) => if e.is_missing() {
            true
        } else {
            return Err(e);
        },
    };
    note(found, changed, Drift::Modified(bytes::copied(p)));
    Ok(())
}

/// Looks whether the copy that should be at `p` is there.
fn copy_drift<H: Host>(
    s: &mut Session<H>,
    m: Result<Metadata, Error>,
    source: &[u8],
    mode: u32,
    p: &[u8],
    found: &mut Vec<Drift>,
) -> (r: Result<(), Error>)
    ensures
        copy_drift_program(error::outcome(m), source@, mode, p@, seen(old(found)@)).ran(
            old(s)@,
            final(s)@,
            (error::outcome(r), seen(final(found)@)),
        ),
{
    let changed: bool = match m {
        Ok(m) => if m.kind == Kind::File {
            let a = s.data(Action::ReadFile(bytes::copied(p)))?;
            let b = s.data(Action::ReadFile(bytes::copied(source)))?;
            !bytes::same(&a, &b) || m.bits() != mode
        } else {
            true
        },
        Err(e) => if e.is_missing() {
            true
        } else {
            return Err(e);
        },
    };
    note(
        found,
        changed,
        Drift::CopyModified { path: bytes::copied(p), expected: bytes::copied(source) },
    );
    Ok(())
}

/// The recorded permissions of the relative path `rel`.
fn find_mode(list: &Vec<(Vec<u8>, u32)>, rel: &[u8]) -> (r: Option<u32>)
    ensures
        r == mode_at(tree::modes(list@), rel@),
{
    let ghost modes = tree::modes(list@);
    let mut i: usize = 0;
    assert(modes.skip(0) =~= modes);
    while i < list.len()
        invariant
            modes == tree::modes(list@),
            i <= list.len(),
            mode_at(modes, rel@) == mode_at(modes.skip(i as int), rel@),
        decreases list.len() - i,
    {
        assert(modes.skip(i as int)[0] == modes[i as int]);
        assert(modes.skip(i as int).skip(1) =~= modes.skip(i + 1));
        if path::same(&list[i].0, rel) {
            return Some(list[i].1);
        }
        i += 1;
    }
    None
}

/// The path `rel` below `base`.
pub fn below(base: &[u8], rel: &[u8]) -> (r: Vec<u8>)
    ensures
        r@ == spot(base@, rel@),
{
    if rel.len() == 0 {
        bytes::copied(base)
    } else {
        path::extend(base, rel)
    }
}

/// Compares what two files hold.
fn compare_files<H: Host>(s: &mut Session<H>, a: Vec<u8>, b: Vec<u8>) -> (r: Result<bool, Error>)
    ensures
        compare_program(Request::ReadFile(a@), Request::ReadFile(b@)).ran(
            old(s)@,
            final(s)@,
            error::outcome(r),
        ),
{
    let x = s.data(Action::ReadFile(a))?;
    let y = s.data(Action::ReadFile(b))?;
    Ok(bytes::same(&x, &y))
}

/// Compares the targets of two symbolic links.
fn compare_links<H: Host>(s: &mut Session<H>, a: Vec<u8>, b: Vec<u8>) -> (r: Result<bool, Error>)
    ensures
        compare_links_program(a@, b@).ran(old(s)@, final(s)@, error::outcome(r)),
{
    let x = s.data(Action::ReadLink(a))?;
    let y = s.data(Action::ReadLink(b))?;
    Ok(path::same(&x, &y))
}

/// A path that a plain name extends grows longer.
pub proof fn lemma_deeper(rel: Seq<u8>, name: Seq<u8>)
    requires
        path::is_plain(name),
    ensures
        rel.len() < path::join(rel, name).len(),
{
    if path::absolute(name) {
        assert(name.contains(name[0]));
    }
}

/// Looks whether what stands at `rel` below `target` is like what stands at `rel` below
/// `source`, with the recorded permissions.
pub fn snapshot_matches<H: Host>(
    s: &mut Session<H>,
    source: &[u8],
    target: &[u8],
    rel: &[u8],
    modes: &Vec<(Vec<u8>, u32)>,
) -> (r: Result<bool, Error>)
    ensures
        snapshot_program(source@, target@, rel@, tree::modes(modes@)).ran(
            old(s)@,
            final(s)@,
            error::outcome(r),
        ),
    decreases usize::MAX - rel.len(),
{
    let from = below(source, rel);
    let to = below(target, rel);
    let a = s.stat(bytes::copied(&from))?;
    let b: Metadata = match s.stat(bytes::copied(&to)) {
        Ok(b) => b,
        Err(e) => {
            return if e.is_missing() {
                Ok(false)
            } else {
                Err(e)
            };
        },
    };
    if a.kind == Kind::Symlink {
        if b.kind == Kind::Symlink {
            return compare_links(s, from, to);
        }
        return Ok(false);
    }
    if a.kind == Kind::File {
        if b.kind != Kind::File {
            return Ok(false);
        }
        return match find_mode(modes, rel) {
            None => Err(refuse_malformed(rel)),
            Some(mode) => if b.bits() == mode {
                compare_files(s, from, to)
            } else {
                Ok(false)
            },
        };
    }
    if b.kind != Kind::Directory {
        return Ok(false);
    }
    match find_mode(modes, rel) {
        None => {
            return Err(refuse_malformed(rel));
        },
        Some(mode) => if b.bits() != mode {
            return Ok(false);
        },
    }
    let x = s.names(from)?;
    let y = s.names(to)?;
    let names = bytes::sort(&x);
    let others = bytes::sort(&y);
    if !bytes::same_list(&names, &others) {
        return Ok(false);
    }
    let ghost list = bytes::ascending(bytes::all(x@));
    proof {
        bytes::lemma_ascending(bytes::all(x@));
    }
    let ghost whole = snapshot_program(source@, target@, rel@, tree::modes(modes@));
    let mut i: usize = 0;
    assert(list.skip(0) =~= list);
    while i < names.len()
        invariant
            whole == snapshot_program(source@, target@, rel@, tree::modes(modes@)),
            list == bytes::all(names@),
            host::all_plain(bytes::all(x@)),
            forall|n: Seq<u8>| #[trigger] list.contains(n) <==> bytes::all(x@).contains(n),
            i <= names.len(),
            program::extends(old(s)@, s@),
            whole.now(old(s)@, s@) == snapshot_names_program(
                source@,
                target@,
                rel@,
                tree::modes(modes@),
                list.skip(i as int),
            ),
        decreases names.len() - i,
    {
        let name: &Vec<u8> = &names[i];
        proof {
            assert(list[i as int] == name@);
            assert(list.contains(name@));
            let k = choose|k: int| 0 <= k < x@.len() && bytes::all(x@)[k] == name@;
            assert(path::is_plain(bytes::all(x@)[k]));
            lemma_deeper(rel@, name@);
            assert(list.skip(i as int)[0] == name@);
            assert(list.skip(i as int).skip(1) =~= list.skip(i + 1));
        }
        let child = path::extend(rel, name);
        if !snapshot_matches(s, source, target, &child, modes)? {
            return Ok(false);
        }
        i += 1;
    }
    Ok(true)
}

/// Looks whether the symbolic link at `p` leads to `target`.
fn leads<H: Host>(s: &mut Session<H>, m: Metadata, target: &[u8], p: &[u8]) -> (r: Result<
    bool,
    Error,
>)
    ensures
        leads_program(m, target@, p@).ran(old(s)@, final(s)@, error::outcome(r)),
{
    if m.kind == Kind::Symlink {
        let t = s.data(Action::ReadLink(bytes::copied(p)))?;
        Ok(path::same(&t, target))
    } else {
        Ok(false)
    }
}

impl Entry {
    /// Looks for the drifts of this entry at `p`, adding to those found before.
    pub fn drifts<H: Host>(&self, s: &mut Session<H>, p: &[u8], found: &mut Vec<Drift>) -> (r:
        Result<(), Error>)
        ensures
            drifts_program(self.node(), p@, seen(old(found)@)).ran(
                old(s)@,
                final(s)@,
                (error::outcome(r), seen(final(found)@)),
            ),
        decreases self,
    {
        let m = s.stat(bytes::copied(p));
        match self {
            Entry::Directory { mode, tree } => match m {
                Ok(m) => if m.kind == Kind::Directory {
                    let changed = m.bits() != *mode;
                    note(found, changed, Drift::Permissions(bytes::copied(p)));
                    tree.drifts(s, p, found)
                } else {
                    note(found, true, Drift::Replaced(bytes::copied(p)));
                    Ok(())
                },
                Err(e) => if e.is_missing() {
                    note(found, true, Drift::Missing(bytes::copied(p)));
                    Ok(())
                } else {
                    Err(e)
                },
            },
            Entry::Link { source } => link_drift(s, m, source, p, found),
            Entry::Copy { source, mode } => copy_drift(s, m, source, *mode, p, found),
            Entry::Symlink { target } => link_drift(s, m, target, p, found),
            _ => Err(refuse_malformed(p)),
        }
    }

    /// Looks whether this entry is at `p` as it should be.
    pub fn matches<H: Host>(&self, s: &mut Session<H>, p: &[u8]) -> (r: Result<bool, Error>)
        ensures
            matches_program(self.node(), p@).ran(old(s)@, final(s)@, error::outcome(r)),
        decreases self,
    {
        let m: Metadata = match s.stat(bytes::copied(p)) {
            Ok(m) => m,
            Err(e) => {
                return if e.is_missing() {
                    match self {
                        Entry::Absent => Ok(true),
                        _ => Ok(false),
                    }
                } else {
                    Err(e)
                };
            },
        };
        match self {
            Entry::Absent => Ok(false),
            Entry::Directory { mode, tree } => if m.kind == Kind::Directory && m.bits() == *mode {
                tree.matches(s, p)
            } else {
                Ok(false)
            },
            Entry::Link { source } => leads(s, m, source, p),
            Entry::Copy { source, mode } => if m.kind == Kind::File && m.bits() == *mode {
                compare_files(s, bytes::copied(p), bytes::copied(source))
            } else {
                Ok(false)
            },
            Entry::Symlink { target } => leads(s, m, target, p),
            Entry::Snapshot { source, modes } => {
                let none: Vec<u8> = Vec::new();
                assert(none@ =~= Seq::<u8>::empty());
                snapshot_matches(s, source, p, &none, modes)
            },
        }
    }
}

impl Tree {
    /// Looks for the drifts of the entries below `root`, in their order, up to the first failure,
    /// adding to those found before.
    pub fn drifts<H: Host>(&self, s: &mut Session<H>, root: &[u8], found: &mut Vec<Drift>) -> (r:
        Result<(), Error>)
        ensures
            tree_drifts_program(self.forest(), root@, seen(old(found)@)).ran(
                old(s)@,
                final(s)@,
                (error::outcome(r), seen(final(found)@)),
            ),
        decreases self,
    {
        let ghost f = self.forest();
        let ghost whole = tree_drifts_program(f, root@, seen(found@));
        let mut i: usize = 0;
        assert(f.skip(0) =~= f);
        while i < self.entries.len()
            invariant
                f == self.forest(),
                whole == tree_drifts_program(f, root@, seen(old(found)@)),
                i <= self.entries.len(),
                program::extends(old(s)@, s@),
                whole.now(old(s)@, s@) == tree_drifts_program(
                    f.skip(i as int),
                    root@,
                    seen(found@),
                ),
            decreases self.entries.len() - i,
        {
            assert(f.skip(i as int)[0] == f[i as int]);
            assert(f.skip(i as int).skip(1) =~= f.skip(i + 1));
            let at = path::extend(root, &self.entries[i].0);
            self.entries[i].1.drifts(s, &at, found)?;
            i += 1;
        }
        Ok(())
    }

    /// Looks at the entries below `root` in their order, until one is not as it should be.
    pub fn matches<H: Host>(&self, s: &mut Session<H>, root: &[u8]) -> (r: Result<bool, Error>)
        ensures
            tree_matches_program(self.forest(), root@).ran(
                old(s)@,
                final(s)@,
                error::outcome(r),
            ),
        decreases self,
    {
        let ghost f = self.forest();
        let ghost whole = tree_matches_program(f, root@);
        let mut i: usize = 0;
        assert(f.skip(0) =~= f);
        while i < self.entries.len()
            invariant
                f == self.forest(),
                whole == tree_matches_program(f, root@),
                i <= self.entries.len(),
                program::extends(old(s)@, s@),
                whole.now(old(s)@, s@) == tree_matches_program(f.skip(i as int), root@),
            decreases self.entries.len() - i,
        {
            assert(f.skip(i as int)[0] == f[i as int]);
            assert(f.skip(i as int).skip(1) =~= f.skip(i + 1));
            let at = path::extend(root, &self.entries[i].0);
            if !self.entries[i].1.matches(s, &at)? {
                return Ok(false);
            }
            i += 1;
        }
        Ok(true)
    }
}

} // verus!
