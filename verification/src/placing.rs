//! How managed entries come to stand on the disk, and how they leave it.
use vstd::prelude::*;

use crate::atomic;
use crate::bytes;
use crate::entry;
use crate::error;
use crate::error::{Error, Trouble};
use crate::host;
use crate::host::{Action, Host, Kind, Metadata, Request};
use crate::path;
use crate::program;
use crate::program::Program;
use crate::session;
use crate::session::Session;
use crate::tree;
use crate::tree::{Entry, Forest, Modes, Node, Tree};

verus! {

broadcast use crate::program::group_program;

/// Whether a look at a path found a directory.
pub open spec fn found_directory(m: Result<Metadata, Trouble>) -> bool {
    m matches Ok(m) && m.kind is Directory
}

/// Removes what stands at `p`, if anything does.
pub open spec fn remove_program(p: Seq<u8>) -> Program<Result<(), Trouble>> {
    session::stat(p).bind(
        |m: Result<Metadata, Trouble>|
            match m {
                Ok(m) => session::act(
                    if m.kind is Directory {
                        Request::RemoveTree(p)
                    } else {
                        Request::RemoveFile(p)
                    },
                ).and_then(|u: ()| atomic::sync_parent_program(p)),
                Err(e) => if error::missing(e) {
                    program::give(())
                } else {
                    program::fail(e)
                },
            },
    )
}

/// Lets the owner write in the directory at `p`.
pub open spec fn writable_program(p: Seq<u8>) -> Program<Result<(), Trouble>> {
    session::stat(p).and_then(
        |m: Metadata|
            if m.mode & 0o200 == 0 {
                session::act(Request::SetMode(p, m.mode | 0o200)).and_then(
                    |u: ()| atomic::sync_program(p),
                )
            } else {
                program::give(())
            },
    )
}

/// Gives the directory at `p` its permissions for good.
pub open spec fn seal_program(p: Seq<u8>, mode: u32) -> Program<Result<(), Trouble>> {
    session::act(Request::SetMode(p, mode)).and_then(|u: ()| atomic::sync_program(p))
}

/// Creates a directory at `p`.
pub open spec fn create_program(p: Seq<u8>) -> Program<Result<(), Trouble>> {
    session::act(Request::CreateDir(p)).and_then(|u: ()| atomic::sync_parent_program(p))
}

/// Copies what stands at `source` to `target`, where nothing stands; symbolic links stay links.
pub open spec fn copy_entry_program(source: Seq<u8>, target: Seq<u8>) -> Program<
    Result<(), Trouble>,
>
    decreases usize::MAX - source.len(), 1int, 0int,
{
    session::stat(source).and_then(
        |m: Metadata|
            if m.kind is Symlink {
                session::data(Request::ReadLink(source)).and_then(
                    |t: Seq<u8>| session::act(Request::Symlink(t, target)),
                )
            } else if m.kind is Directory {
                session::act(Request::CreateDir(target)).and_then(
                    |u: ()|
                        session::names(source).and_then(
                            |names: Seq<Seq<u8>>| copy_names_program(source, target, names),
                        ),
                )
            } else {
                session::act(Request::CopyFile(source, target)).and_then(
                    |u: ()| atomic::sync_program(target),
                )
            },
    )
}

/// Copies the named entries of a directory, then syncs the copy.
pub open spec fn copy_names_program(
    source: Seq<u8>,
    target: Seq<u8>,
    names: Seq<Seq<u8>>,
) -> Program<Result<(), Trouble>>
    decreases usize::MAX - source.len(), 0int, names.len(),
{
    if names.len() == 0 {
        atomic::sync_program(target)
    } else {
        let child = path::join(source, names[0]);
        if entry::deeper(source, child) {
            copy_entry_program(child, path::join(target, names[0])).and_then(
                |u: ()| copy_names_program(source, target, names.skip(1)),
            )
        } else {
            Program::Stuck
        }
    }
}

/// Gives what stands at `base` the recorded permissions, the last first.
pub open spec fn modes_program(base: Seq<u8>, modes: Modes) -> Program<Result<(), Trouble>>
    decreases modes.len(),
{
    if modes.len() == 0 {
        program::give(())
    } else {
        seal_program(entry::spot(base, modes.last().0), modes.last().1).and_then(
            |u: ()| modes_program(base, modes.drop_last()),
        )
    }
}

/// Where a backup stands before it is moved to its place.
pub open spec fn staged_snapshot(temporary: Seq<u8>) -> Seq<u8> {
    path::join(temporary, bytes::text("snapshot"@))
}

/// Copies a backup into a temporary directory and moves it to `p`.
pub open spec fn restore_body(
    source: Seq<u8>,
    modes: Modes,
    p: Seq<u8>,
    dir: Seq<u8>,
    temporary: Seq<u8>,
) -> Program<Result<(), Trouble>> {
    let staged = staged_snapshot(temporary);
    copy_entry_program(source, staged).and_then(
        |u: ()|
            modes_program(staged, modes).and_then(
                |u: ()|
                    session::act(Request::Rename(staged, p)).and_then(
                        |u: ()| atomic::sync_program(dir),
                    ),
            ),
    )
}

/// Puts a backup at `p`.
pub open spec fn restore_program(source: Seq<u8>, modes: Modes, p: Seq<u8>) -> Program<
    Result<(), Trouble>,
> {
    atomic::with_parent(
        p,
        |dir: Seq<u8>|
            session::data(Request::TempDir(dir)).and_then(
                |temporary: Seq<u8>|
                    atomic::cleaned(temporary, restore_body(source, modes, p, dir, temporary)),
            ),
    )
}

/// Puts an entry at `p`, where no directory stands.
pub open spec fn materialise_program(node: Node, p: Seq<u8>) -> Program<Result<(), Trouble>>
    decreases node, 1int,
{
    match node {
        Node::Absent => program::give(()),
        Node::Directory { mode, tree } => create_program(p).and_then(
            |u: ()|
                tree_materialise_program(tree, p).and_then(|u: ()| seal_program(p, mode)),
        ),
        Node::Link { source } => atomic::link_program(source, p),
        Node::Copy { source, mode } => atomic::copy_program(source, p, mode),
        Node::Symlink { target } => atomic::link_program(target, p),
        Node::Snapshot { source, modes } => restore_program(source, modes, p),
    }
}

/// Puts the entries below `root`, in their order.
pub open spec fn tree_materialise_program(f: Forest, root: Seq<u8>) -> Program<Result<(), Trouble>>
    decreases f, 0int,
{
    if f.len() == 0 {
        program::give(())
    } else {
        materialise_program(f[0].1, path::join(root, f[0].0)).and_then(
            |u: ()| tree_materialise_program(f.skip(1), root),
        )
    }
}

/// Makes sure that a directory in which the owner may write stands at `p`.
pub open spec fn ready_program(p: Seq<u8>) -> Program<Result<(), Trouble>> {
    session::stat(p).bind(
        |m: Result<Metadata, Trouble>|
            match m {
                Ok(m) => if m.kind is Directory {
                    writable_program(p)
                } else {
                    remove_program(p).and_then(|u: ()| create_program(p))
                },
                Err(e) => if error::missing(e) {
                    create_program(p)
                } else {
                    program::fail(e)
                },
            },
    )
}

/// Puts an entry at `p` in the place of a directory or of anything else.
pub open spec fn replace_program(node: Node, p: Seq<u8>) -> Program<Result<(), Trouble>> {
    session::stat(p).bind(
        |m: Result<Metadata, Trouble>|
            if found_directory(m) {
                session::act(Request::RemoveTree(p)).and_then(|u: ()| materialise_program(node, p))
            } else {
                materialise_program(node, p)
            },
    )
}

/// Makes an entry at `p` what it should be; nothing is done where it is.
pub open spec fn repair_program(node: Node, p: Seq<u8>) -> Program<Result<(), Trouble>>
    decreases node, 1int,
{
    entry::matches_program(node, p).and_then(
        |same: bool|
            if same {
                program::give(())
            } else {
                match node {
                    Node::Directory { mode, tree } => ready_program(p).and_then(
                        |u: ()|
                            tree_repair_program(tree, p).and_then(|u: ()| seal_program(p, mode)),
                    ),
                    Node::Absent => remove_program(p),
                    _ => replace_program(node, p),
                }
            },
    )
}

/// Makes the entries below `root` what they should be, in their order.
pub open spec fn tree_repair_program(f: Forest, root: Seq<u8>) -> Program<Result<(), Trouble>>
    decreases f, 0int,
{
    if f.len() == 0 {
        program::give(())
    } else {
        repair_program(f[0].1, path::join(root, f[0].0)).and_then(
            |u: ()| tree_repair_program(f.skip(1), root),
        )
    }
}

/// Removes what stands at `p`, if anything does.
pub fn remove<H: Host>(s: &mut Session<H>, p: &[u8]) -> (r: Result<(), Error>)
    ensures
        remove_program(p@).ran(old(s)@, final(s)@, error::outcome(r)),
{
    match s.stat(bytes::copied(p)) {
        Ok(m) => {
            if m.kind == Kind::Directory {
                s.act(Action::RemoveTree(bytes::copied(p)))?;
            } else {
                s.act(Action::RemoveFile(bytes::copied(p)))?;
            }
            atomic::sync_parent(s, p)
        },
        Err(e) => if e.is_missing() {
            Ok(())
        } else {
            Err(e)
        },
    }
}

/// Lets the owner write in the directory at `p`.
pub fn make_directory_writable<H: Host>(s: &mut Session<H>, p: &[u8]) -> (r: Result<(), Error>)
    ensures
        writable_program(p@).ran(old(s)@, final(s)@, error::outcome(r)),
{
    let m = s.stat(bytes::copied(p))?;
    if m.mode & 0o200 == 0 {
        s.act(Action::SetMode(bytes::copied(p), m.mode | 0o200))?;
        atomic::sync(s, p)
    } else {
        Ok(())
    }
}

/// Gives the directory at `p` its permissions for good.
pub fn seal<H: Host>(s: &mut Session<H>, p: &[u8], mode: u32) -> (r: Result<(), Error>)
    ensures
        seal_program(p@, mode).ran(old(s)@, final(s)@, error::outcome(r)),
{
    s.act(Action::SetMode(bytes::copied(p), mode))?;
    atomic::sync(s, p)
}

/// Creates a directory at `p`.
fn create<H: Host>(s: &mut Session<H>, p: &[u8]) -> (r: Result<(), Error>)
    ensures
        create_program(p@).ran(old(s)@, final(s)@, error::outcome(r)),
{
    s.act(Action::CreateDir(bytes::copied(p)))?;
    atomic::sync_parent(s, p)
}

/// Copies what stands at `source` to `target`, where nothing stands; symbolic links stay links.
pub fn copy_entry<H: Host>(s: &mut Session<H>, source: &[u8], target: &[u8]) -> (r: Result<
    (),
    Error,
>)
    ensures
        copy_entry_program(source@, target@).ran(old(s)@, final(s)@, error::outcome(r)),
    decreases usize::MAX - source.len(),
{
    let m = s.stat(bytes::copied(source))?;
    if m.kind == Kind::Symlink {
        let t = s.data(Action::ReadLink(bytes::copied(source)))?;
        return s.act(Action::Symlink(t, bytes::copied(target)));
    }
    if m.kind != Kind::Directory {
        s.act(Action::CopyFile(bytes::copied(source), bytes::copied(target)))?;
        return atomic::sync(s, target);
    }
    s.act(Action::CreateDir(bytes::copied(target)))?;
    let names = s.names(bytes::copied(source))?;
    let ghost list = bytes::all(names@);
    let ghost whole = copy_entry_program(source@, target@);
    let mut i: usize = 0;
    assert(list.skip(0) =~= list);
    while i < names.len()
        invariant
            whole == copy_entry_program(source@, target@),
            list == bytes::all(names@),
            host::all_plain(list),
            i <= names.len(),
            program::extends(old(s)@, s@),
            whole.now(old(s)@, s@) == copy_names_program(source@, target@, list.skip(i as int)),
        decreases names.len() - i,
    {
        let name: &Vec<u8> = &names[i];
        proof {
            assert(list[i as int] == name@);
            entry::lemma_deeper(source@, name@);
            assert(list.skip(i as int)[0] == name@);
            assert(list.skip(i as int).skip(1) =~= list.skip(i + 1));
        }
        let from = path::extend(source, name);
        let to = path::extend(target, name);
        copy_entry(s, &from, &to)?;
        i += 1;
    }
    atomic::sync(s, target)
}

/// Gives what stands at `base` the recorded permissions, the last first.
fn set_modes<H: Host>(s: &mut Session<H>, base: &[u8], list: &Vec<(Vec<u8>, u32)>) -> (r: Result<
    (),
    Error,
>)
    ensures
        modes_program(base@, tree::modes(list@)).ran(old(s)@, final(s)@, error::outcome(r)),
{
    let ghost modes = tree::modes(list@);
    let ghost whole = modes_program(base@, modes);
    let mut i: usize = list.len();
    assert(modes.take(i as int) =~= modes);
    while i > 0
        invariant
            modes == tree::modes(list@),
            whole == modes_program(base@, modes),
            i <= list.len(),
            program::extends(old(s)@, s@),
            whole.now(old(s)@, s@) == modes_program(base@, modes.take(i as int)),
        decreases i,
    {
        assert(modes.take(i as int).drop_last() =~= modes.take(i - 1));
        assert(modes.take(i as int).last() == modes[i - 1]);
        i -= 1;
        let at = entry::below(base, &list[i].0);
        seal(s, &at, list[i].1)?;
    }
    Ok(())
}

fn place_backup<H: Host>(
    s: &mut Session<H>,
    source: &[u8],
    modes: &Vec<(Vec<u8>, u32)>,
    p: &[u8],
    dir: &[u8],
    temporary: &[u8],
) -> (r: Result<(), Error>)
    ensures
        restore_body(source@, tree::modes(modes@), p@, dir@, temporary@).ran(
            old(s)@,
            final(s)@,
            error::outcome(r),
        ),
{
    let name = bytes::literal("snapshot");
    let staged = path::extend(temporary, &name);
    copy_entry(s, source, &staged)?;
    set_modes(s, &staged, modes)?;
    s.act(Action::Rename(staged, bytes::copied(p)))?;
    atomic::sync(s, dir)
}

/// Puts a backup at `p`.
fn restore<H: Host>(
    s: &mut Session<H>,
    source: &[u8],
    modes: &Vec<(Vec<u8>, u32)>,
    p: &[u8],
) -> (r: Result<(), Error>)
    ensures
        restore_program(source@, tree::modes(modes@), p@).ran(
            old(s)@,
            final(s)@,
            error::outcome(r),
        ),
{
    let dir = atomic::parent(p)?;
    let temporary = s.data(Action::TempDir(bytes::copied(&dir)))?;
    let r = place_backup(s, source, modes, p, &dir, &temporary);
    s.tell(Action::Discard(temporary));
    r
}

/// Makes sure that a directory in which the owner may write stands at `p`.
fn ready<H: Host>(s: &mut Session<H>, p: &[u8]) -> (r: Result<(), Error>)
    ensures
        ready_program(p@).ran(old(s)@, final(s)@, error::outcome(r)),
{
    match s.stat(bytes::copied(p)) {
        Ok(m) => if m.kind == Kind::Directory {
            make_directory_writable(s, p)
        } else {
            remove(s, p)?;
            create(s, p)
        },
        Err(e) => if e.is_missing() {
            create(s, p)
        } else {
            Err(e)
        },
    }
}

impl Entry {
    /// Puts this entry at `p`, where no directory stands.
    pub fn materialise<H: Host>(&self, s: &mut Session<H>, p: &[u8]) -> (r: Result<(), Error>)
        ensures
            materialise_program(self.node(), p@).ran(old(s)@, final(s)@, error::outcome(r)),
        decreases self,
    {
        match self {
            Entry::Absent => Ok(()),
            Entry::Directory { mode, tree } => {
                create(s, p)?;
                tree.materialise(s, p)?;
                seal(s, p, *mode)
            },
            Entry::Link { source } => atomic::link(s, source, p),
            Entry::Copy { source, mode } => atomic::copy(s, source, p, *mode),
            Entry::Symlink { target } => atomic::link(s, target, p),
            Entry::Snapshot { source, modes } => restore(s, source, modes, p),
        }
    }

    /// Puts this entry at `p` in the place of a directory or of anything else.
    fn replace<H: Host>(&self, s: &mut Session<H>, p: &[u8]) -> (r: Result<(), Error>)
        ensures
            replace_program(self.node(), p@).ran(old(s)@, final(s)@, error::outcome(r)),
    {
        if is_directory(s.stat(bytes::copied(p))) {
            s.act(Action::RemoveTree(bytes::copied(p)))?;
        }
        self.materialise(s, p)
    }

    /// Makes this entry at `p` what it should be; nothing is done where it is.
    pub fn repair<H: Host>(&self, s: &mut Session<H>, p: &[u8]) -> (r: Result<(), Error>)
        ensures
            repair_program(self.node(), p@).ran(old(s)@, final(s)@, error::outcome(r)),
        decreases self,
    {
        if self.matches(s, p)? {
            return Ok(());
        }
        match self {
            Entry::Directory { mode, tree } => {
                ready(s, p)?;
                tree.repair(s, p)?;
                seal(s, p, *mode)
            },
            Entry::Absent => remove(s, p),
            _ => self.replace(s, p),
        }
    }
}

/// Whether a look at a path found a directory.
pub fn is_directory(m: Result<Metadata, Error>) -> (r: bool)
    ensures
        r == found_directory(error::outcome(m)),
{
    match m {
        Ok(m) => m.kind == Kind::Directory,
        Err(_) => false,
    }
}

impl Tree {
    /// Puts the entries below `root`, in their order.
    pub fn materialise<H: Host>(&self, s: &mut Session<H>, root: &[u8]) -> (r: Result<(), Error>)
        ensures
            tree_materialise_program(self.forest(), root@).ran(
                old(s)@,
                final(s)@,
                error::outcome(r),
            ),
        decreases self,
    {
        let ghost f = self.forest();
        let ghost whole = tree_materialise_program(f, root@);
        let mut i: usize = 0;
        assert(f.skip(0) =~= f);
        while i < self.entries.len()
            invariant
                f == self.forest(),
                whole == tree_materialise_program(f, root@),
                i <= self.entries.len(),
                program::extends(old(s)@, s@),
                whole.now(old(s)@, s@) == tree_materialise_program(f.skip(i as int), root@),
            decreases self.entries.len() - i,
        {
            assert(f.skip(i as int)[0] == f[i as int]);
            assert(f.skip(i as int).skip(1) =~= f.skip(i + 1));
            let at = path::extend(root, &self.entries[i].0);
            self.entries[i].1.materialise(s, &at)?;
            i += 1;
        }
        Ok(())
    }

    /// Makes the entries below `root` what they should be, in their order.
    pub fn repair<H: Host>(&self, s: &mut Session<H>, root: &[u8]) -> (r: Result<(), Error>)
        ensures
            tree_repair_program(self.forest(), root@).ran(
                old(s)@,
                final(s)@,
                error::outcome(r),
            ),
        decreases self,
    {
        let ghost f = self.forest();
        let ghost whole = tree_repair_program(f, root@);
        let mut i: usize = 0;
        assert(f.skip(0) =~= f);
        while i < self.entries.len()
            invariant
                f == self.forest(),
                whole == tree_repair_program(f, root@),
                i <= self.entries.len(),
                program::extends(old(s)@, s@),
                whole.now(old(s)@, s@) == tree_repair_program(f.skip(i as int), root@),
            decreases self.entries.len() - i,
        {
            assert(f.skip(i as int)[0] == f[i as int]);
            assert(f.skip(i as int).skip(1) =~= f.skip(i + 1));
            let at = path::extend(root, &self.entries[i].0);
            self.entries[i].1.repair(s, &at)?;
            i += 1;
        }
        Ok(())
    }
}

} // verus!
