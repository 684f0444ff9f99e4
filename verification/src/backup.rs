//! Backups: what stands at the managed paths before they are managed.
use vstd::prelude::*;

use crate::bytes;
use crate::entry;
use crate::error;
use crate::error::{Error, Refusal, Trouble};
use crate::host;
use crate::host::{Host, Kind, Metadata};
use crate::path;
use crate::program;
use crate::program::Program;
use crate::session;
use crate::session::Session;
use crate::store;
use crate::tree;
use crate::tree::{Entry, Forest, Modes, Node, Tree};

verus! {

broadcast use crate::program::group_program;

/// `list` with the permissions `mode` for the path `rel`: in the place of an equal path, else
/// before the first later path.
pub open spec fn with_mode(list: Modes, rel: Seq<u8>, mode: u32) -> Modes
    decreases list.len(),
{
    if list.len() == 0 {
        seq![(rel, mode)]
    } else if path::equal(list[0].0, rel) {
        seq![(list[0].0, mode)] + list.skip(1)
    } else if path::precedes(rel, list[0].0) {
        seq![(rel, mode)] + list
    } else {
        seq![list[0]] + with_mode(list.skip(1), rel, mode)
    }
}

/// Collects the permissions of what stands at `rel` below `root`, which is as `m` says; symbolic
/// links have none.
pub open spec fn modes_program(root: Seq<u8>, rel: Seq<u8>, m: Metadata, modes: Modes) -> Program<
    Result<Modes, Trouble>,
>
    decreases usize::MAX - rel.len(), 1int, 0int,
{
    match m.kind {
        Kind::Symlink => program::give(modes),
        Kind::Other => program::fail(Error::Refused(Refusal::SpecialFile, path::join(root, rel))),
        Kind::File => program::give(with_mode(modes, rel, m.permissions())),
        Kind::Directory => session::names(path::join(root, rel)).and_then(
            |names: Seq<Seq<u8>>|
                names_modes_program(root, rel, names, with_mode(modes, rel, m.permissions())),
        ),
    }
}

/// Collects the permissions of the named entries of a directory.
pub open spec fn names_modes_program(
    root: Seq<u8>,
    rel: Seq<u8>,
    names: Seq<Seq<u8>>,
    modes: Modes,
) -> Program<Result<Modes, Trouble>>
    decreases usize::MAX - rel.len(), 0int, names.len(),
{
    if names.len() == 0 {
        program::give(modes)
    } else {
        let child = path::join(rel, names[0]);
        session::stat(path::join(path::join(root, rel), names[0])).and_then(
            |m: Metadata|
                if entry::deeper(rel, child) {
                    modes_program(root, child, m, modes).and_then(
                        |modes: Modes| names_modes_program(root, rel, names.skip(1), modes),
                    )
                } else {
                    Program::Stuck
                },
        )
    }
}

/// The number after `n`; the largest number is followed by zero.
pub open spec fn next(n: usize) -> usize {
    if n == usize::MAX {
        0
    } else {
        (n + 1) as usize
    }
}

/// Backs up what stands at `p` in the store, kept by the root with the number `n` in `roots`.
pub open spec fn snapshot_program(p: Seq<u8>, m: Metadata, roots: Seq<u8>, n: usize) -> Program<
    Result<(Node, usize), Trouble>,
> {
    modes_program(p, Seq::empty(), m, Seq::empty()).and_then(
        |modes: Modes|
            store::add_program(
                p,
                bytes::text("nar"@),
                bytes::text("tohru-backup"@),
                path::join(roots, bytes::decimal(n as nat)),
                u64::MAX as nat,
            ).and_then(
                |source: Seq<u8>| program::give((Node::Snapshot { source, modes }, next(n))),
            ),
    )
}

/// Captures what stands where an entry is to be put, and the number of the next backup.
///
/// Where a directory is to be put and one stands, its permissions are captured, and what stands
/// where its entries are to be put; anything else that stands is backed up.
pub open spec fn capture_program(node: Node, p: Seq<u8>, roots: Seq<u8>, n: usize) -> Program<
    Result<(Node, usize), Trouble>,
>
    decreases node, 1int,
{
    session::stat(p).bind(
        |m: Result<Metadata, Trouble>|
            match m {
                Err(e) => if error::missing(e) {
                    program::give((Node::Absent, n))
                } else {
                    program::fail(e)
                },
                Ok(m) => match node {
                    Node::Directory { tree, .. } => if m.kind is Directory {
                        tree_capture_program(tree, p, roots, n, Seq::empty()).and_then(
                            |r: (Forest, usize)|
                                program::give(
                                    (
                                        Node::Directory { mode: m.permissions(), tree: r.0 },
                                        r.1,
                                    ),
                                ),
                        )
                    } else {
                        snapshot_program(p, m, roots, n)
                    },
                    _ => snapshot_program(p, m, roots, n),
                },
            },
    )
}

/// Captures what stands where the entries of a tree are to be put, adding to what was captured
/// before.
pub open spec fn tree_capture_program(
    f: Forest,
    root: Seq<u8>,
    roots: Seq<u8>,
    n: usize,
    captured: Forest,
) -> Program<Result<(Forest, usize), Trouble>>
    decreases f, 0int,
{
    if f.len() == 0 {
        program::give((captured, n))
    } else {
        capture_program(f[0].1, path::join(root, f[0].0), roots, n).and_then(
            |r: (Node, usize)|
                tree_capture_program(
                    f.skip(1),
                    root,
                    roots,
                    r.1,
                    tree::put(captured, f[0].0, r.0),
                ),
        )
    }
}

/// Records the permissions `mode` for the path `rel`.
fn set_mode(list: &mut Vec<(Vec<u8>, u32)>, rel: &[u8], mode: u32)
    ensures
        tree::modes(final(list)@) == with_mode(tree::modes(old(list)@), rel@, mode),
{
    let ghost before = tree::modes(list@);
    let mut i: usize = 0;
    assert(before.take(0) + with_mode(before.skip(0), rel@, mode) =~= with_mode(
        before,
        rel@,
        mode,
    )) by {
        assert(before.skip(0) =~= before);
    }
    while i < list.len()
        invariant
            before == tree::modes(list@),
            list@ == old(list)@,
            i <= list.len(),
            before.take(i as int) + with_mode(before.skip(i as int), rel@, mode) == with_mode(
                before,
                rel@,
                mode,
            ),
        decreases list.len() - i,
    {
        let ghost rest = before.skip(i as int);
        assert(rest[0] == before[i as int]);
        if path::same(&list[i].0, rel) {
            let key = bytes::copied(&list[i].0);
            list.set(i, (key, mode));
            assert(tree::modes(list@) =~= before.take(i as int) + (seq![(rest[0].0, mode)]
                + rest.skip(1)));
            return ;
        }
        if path::less(rel, &list[i].0) {
            list.insert(i, (bytes::copied(rel), mode));
            assert(tree::modes(list@) =~= before.take(i as int) + (seq![(rel@, mode)] + rest));
            return ;
        }
        assert(rest.skip(1) =~= before.skip(i + 1));
        assert(before.take(i as int) + (seq![rest[0]] + with_mode(rest.skip(1), rel@, mode))
            =~= before.take(i + 1) + with_mode(before.skip(i + 1), rel@, mode));
        i += 1;
    }
    list.push((bytes::copied(rel), mode));
    assert(tree::modes(list@) =~= before.take(i as int) + seq![(rel@, mode)]);
}

/// A result with the permissions as contracts speak of them.
pub open spec fn collected(r: Result<Vec<(Vec<u8>, u32)>, Error>) -> Result<Modes, Trouble> {
    match r {
        Ok(list) => Ok(tree::modes(list@)),
        Err(e) => Err(e.seen()),
    }
}

/// Collects the permissions of what stands at `rel` below `root`, which is as `m` says, adding
/// to those collected before; symbolic links have none.
pub fn collect_modes<H: Host>(
    s: &mut Session<H>,
    root: &[u8],
    rel: &[u8],
    m: Metadata,
    modes: Vec<(Vec<u8>, u32)>,
) -> (r: Result<Vec<(Vec<u8>, u32)>, Error>)
    ensures
        modes_program(root@, rel@, m, tree::modes(modes@)).ran(
            old(s)@,
            final(s)@,
            collected(r),
        ),
    decreases usize::MAX - rel.len(),
{
    let ghost whole = modes_program(root@, rel@, m, tree::modes(modes@));
    let mut found = modes;
    let dir = path::extend(root, rel);
    match m.kind {
        Kind::Symlink => {
            return Ok(found);
        },
        Kind::Other => {
            return Err(Error::Refused(Refusal::SpecialFile, dir));
        },
        Kind::File => {
            set_mode(&mut found, rel, m.bits());
            return Ok(found);
        },
        Kind::Directory => {
            set_mode(&mut found, rel, m.bits());
        },
    }
    let names = s.names(bytes::copied(&dir))?;
    let ghost list = bytes::all(names@);
    let mut i: usize = 0;
    assert(list.skip(0) =~= list);
    while i < names.len()
        invariant
            dir@ == path::join(root@, rel@),
            list == bytes::all(names@),
            host::all_plain(list),
            whole == modes_program(root@, rel@, m, tree::modes(modes@)),
            i <= names.len(),
            program::extends(old(s)@, s@),
            whole.now(old(s)@, s@) == names_modes_program(
                root@,
                rel@,
                list.skip(i as int),
                tree::modes(found@),
            ),
        decreases names.len() - i,
    {
        let name: &Vec<u8> = &names[i];
        proof {
            assert(list[i as int] == name@);
            assert(path::is_plain(list[i as int]));
            entry::lemma_deeper(rel@, name@);
            assert(list.skip(i as int)[0] == name@);
            assert(list.skip(i as int).skip(1) =~= list.skip(i + 1));
        }
        let child = path::extend(rel, name);
        let below = s.stat(path::extend(&dir, name))?;
        found = collect_modes(s, root, &child, below, found)?;
        i += 1;
    }
    Ok(found)
}

/// A result with the entry as contracts speak of it.
pub open spec fn captured_entry(r: Result<(Entry, usize), Error>) -> Result<
    (Node, usize),
    Trouble,
> {
    match r {
        Ok((entry, n)) => Ok((entry.node(), n)),
        Err(e) => Err(e.seen()),
    }
}

/// A result with the tree as contracts speak of it.
pub open spec fn captured_tree(r: Result<(Tree, usize), Error>) -> Result<
    (Forest, usize),
    Trouble,
> {
    match r {
        Ok((tree, n)) => Ok((tree.forest(), n)),
        Err(e) => Err(e.seen()),
    }
}

/// Backs up what stands at `p` in the store, kept by the root with the number `n` in `roots`.
fn snapshot<H: Host>(s: &mut Session<H>, p: &[u8], m: Metadata, roots: &[u8], n: usize) -> (r:
    Result<(Entry, usize), Error>)
    ensures
        snapshot_program(p@, m, roots@, n).ran(old(s)@, final(s)@, captured_entry(r)),
{
    let none: Vec<u8> = Vec::new();
    let start: Vec<(Vec<u8>, u32)> = Vec::new();
    assert(none@ =~= Seq::<u8>::empty());
    assert(tree::modes(start@) =~= Seq::<(Seq<u8>, u32)>::empty());
    let modes = collect_modes(s, p, &none, m, start)?;
    let number = bytes::number(n);
    let root = path::extend(roots, &number);
    let source = store::add_store_path(s, p, "nar", "tohru-backup", &root)?;
    let after: usize = if n == usize::MAX {
        0
    } else {
        n + 1
    };
    Ok((Entry::Snapshot { source, modes }, after))
}

/// Captures what stands where an entry is to be put, and the number of the next backup.
pub fn capture<H: Host>(s: &mut Session<H>, projected: &Entry, p: &[u8], roots: &[u8], n: usize)
    -> (r: Result<(Entry, usize), Error>)
    ensures
        capture_program(projected.node(), p@, roots@, n).ran(
            old(s)@,
            final(s)@,
            captured_entry(r),
        ),
    decreases projected,
{
    let m: Metadata = match s.stat(bytes::copied(p)) {
        Ok(m) => m,
        Err(e) => {
            return if e.is_missing() {
                Ok((Entry::Absent, n))
            } else {
                Err(e)
            };
        },
    };
    match projected {
        Entry::Directory { mode: _, tree } => if m.kind == Kind::Directory {
            let (captured, after) = capture_tree(s, tree, p, roots, n)?;
            Ok((Entry::Directory { mode: m.bits(), tree: captured }, after))
        } else {
            snapshot(s, p, m, roots, n)
        },
        _ => snapshot(s, p, m, roots, n),
    }
}

/// Captures what stands where the entries of a tree are to be put, and the number of the next
/// backup.
pub fn capture_tree<H: Host>(
    s: &mut Session<H>,
    projection: &Tree,
    root: &[u8],
    roots: &[u8],
    n: usize,
) -> (r: Result<(Tree, usize), Error>)
    ensures
        tree_capture_program(projection.forest(), root@, roots@, n, Seq::empty()).ran(
            old(s)@,
            final(s)@,
            captured_tree(r),
        ),
    decreases projection,
{
    let ghost f = projection.forest();
    let ghost whole = tree_capture_program(f, root@, roots@, n, Seq::empty());
    let mut captured = Tree::new();
    let mut after: usize = n;
    let mut i: usize = 0;
    assert(f.skip(0) =~= f);
    while i < projection.entries.len()
        invariant
            f == projection.forest(),
            whole == tree_capture_program(f, root@, roots@, n, Seq::empty()),
            i <= projection.entries.len(),
            program::extends(old(s)@, s@),
            whole.now(old(s)@, s@) == tree_capture_program(
                f.skip(i as int),
                root@,
                roots@,
                after,
                captured.forest(),
            ),
        decreases projection.entries.len() - i,
    {
        assert(f.skip(i as int)[0] == f[i as int]);
        assert(f.skip(i as int).skip(1) =~= f.skip(i + 1));
        let at = path::extend(root, &projection.entries[i].0);
        let (entry, number) = capture(s, &projection.entries[i].1, &at, roots, after)?;
        after = number;
        captured.insert(bytes::copied(&projection.entries[i].0), entry);
        i += 1;
    }
    Ok((captured, after))
}

/// Whether recorded permissions come in the order of their paths, each path once.
pub open spec fn ascending(list: Modes) -> bool {
    forall|i: int, j: int|
        0 <= i < j < list.len() ==> path::precedes((#[trigger] list[i]).0, (#[trigger] list[j]).0)
}

/// Permissions are recorded in the order of their paths, so that those of a directory come before
/// those of what lies in it.
pub proof fn law_with_mode_ascending(list: Modes, rel: Seq<u8>, mode: u32)
    requires
        ascending(list),
    ensures
        ascending(with_mode(list, rel, mode)),
        forall|i: int, j: int|
            #![trigger with_mode(list, rel, mode)[i], with_mode(list, rel, mode)[j]]
            0 <= i < with_mode(list, rel, mode).len() && 0 <= j < with_mode(list, rel, mode).len()
                && path::within(
                with_mode(list, rel, mode)[j].0,
                with_mode(list, rel, mode)[i].0,
            ) ==> i <= j,
{
    let r = with_mode(list, rel, mode);
    lemma_with_mode_ascending(list, rel, mode);
    assert forall|i: int, j: int|
        #![trigger r[i], r[j]]
        0 <= i < r.len() && 0 <= j < r.len() && path::within(r[j].0, r[i].0) implies i <= j by {
        if j < i {
            path::law_order_total(r[i].0, r[j].0);
            path::law_order_nested(r[i].0, r[j].0);
        }
    }
}

proof fn lemma_with_mode_ascending(list: Modes, rel: Seq<u8>, mode: u32)
    requires
        ascending(list),
    ensures
        ascending(with_mode(list, rel, mode)),
        forall|i: int|
            0 <= i < with_mode(list, rel, mode).len() ==> path::equal(
                (#[trigger] with_mode(list, rel, mode)[i]).0,
                rel,
            ) || exists|k: int|
                0 <= k < list.len() && (#[trigger] list[k]).0 == with_mode(list, rel, mode)[i].0,
    decreases list.len(),
{
    let r = with_mode(list, rel, mode);
    if list.len() == 0 {
    } else if path::equal(list[0].0, rel) {
        assert forall|i: int| 0 <= i < r.len() implies (#[trigger] r[i]).0 == list[i].0 by {}
        assert forall|i: int, j: int| 0 <= i < j < r.len() implies path::precedes(
            (#[trigger] r[i]).0,
            (#[trigger] r[j]).0,
        ) by {
            assert(path::precedes(list[i].0, list[j].0));
        }
    } else if path::precedes(rel, list[0].0) {
        assert forall|i: int, j: int| 0 <= i < j < r.len() implies path::precedes(
            (#[trigger] r[i]).0,
            (#[trigger] r[j]).0,
        ) by {
            assert(r[j] == list[j - 1]);
            if i > 0 {
                assert(r[i] == list[i - 1]);
            } else if j > 1 {
                assert(path::precedes(list[0].0, list[j - 1].0));
                path::law_order_transitive(rel, list[0].0, list[j - 1].0);
            }
        }
        assert forall|i: int| 0 < i < r.len() implies #[trigger] r[i] == list[i - 1] by {}
    } else {
        let later = list.skip(1);
        let rest = with_mode(later, rel, mode);
        assert forall|i: int, j: int| 0 <= i < j < later.len() implies path::precedes(
            (#[trigger] later[i]).0,
            (#[trigger] later[j]).0,
        ) by {
            assert(later[i] == list[i + 1] && later[j] == list[j + 1]);
        }
        lemma_with_mode_ascending(later, rel, mode);
        path::law_order_total(rel, list[0].0);
        assert forall|k: int| 0 <= k < rest.len() implies path::precedes(
            list[0].0,
            (#[trigger] rest[k]).0,
        ) && (path::equal(rest[k].0, rel) || exists|m: int|
            0 <= m < list.len() && (#[trigger] list[m]).0 == rest[k].0) by {
            if !path::equal(rest[k].0, rel) {
                let m = choose|m: int| 0 <= m < later.len() && (#[trigger] later[m]).0 == rest[k].0;
                assert(later[m] == list[m + 1]);
            }
        }
        assert forall|i: int, j: int| 0 <= i < j < r.len() implies path::precedes(
            (#[trigger] r[i]).0,
            (#[trigger] r[j]).0,
        ) by {
            assert(r[j] == rest[j - 1]);
            if i > 0 {
                assert(r[i] == rest[i - 1]);
            }
        }
        assert forall|i: int| 0 < i < r.len() implies #[trigger] r[i] == rest[i - 1] by {}
    }
}

} // verus!
