//! That what is changed is brought to the disk, and nothing is moved to its place before.
use vstd::prelude::*;

use crate::atomic;
use crate::bytes;
use crate::disk;
use crate::disk::Spot;
use crate::entry;
use crate::error::Trouble;
use crate::host;
use crate::host::{Answer, Request};
use crate::mounted;
use crate::path;
use crate::path::Component;
use crate::placed;
use crate::placing;
use crate::program::Program;
use crate::quiet;
use crate::quiet::Witness;
use crate::reason;
use crate::reason::World;
use crate::session;
use crate::state;
use crate::state::{StatePaths, Transaction};
use crate::transition;
use crate::tree;
use crate::tree::{Forest, Modes, Node};

verus! {

broadcast use crate::reason::group_reason;

/// A world that answers anything and notes what was changed and not yet brought to the disk, and whether
/// something was moved to its place before it was.
pub struct Medium {
    pub dirty: Set<Spot>,
    pub torn: bool,
}

/// Those of the places that are not at `c` or below.
pub open spec fn apart_from(s: Set<Spot>, c: Spot) -> Set<Spot> {
    s.filter(|j: Spot| !disk::below(c, j))
}

/// The place of the directory that holds an entry.
pub open spec fn above(p: Seq<u8>) -> Spot {
    path::components(p).drop_last()
}

/// What is not yet on the disk after a request was done.
pub open spec fn after(s: Set<Spot>, request: Request, x: Answer) -> Set<Spot> {
    match request {
        Request::WriteFile(p, _) => s.insert(path::components(p)),
        Request::CopyFile(_, p) => s.insert(path::components(p)),
        Request::SetMode(p, _) => s.insert(path::components(p)),
        Request::CreateDir(p) => if x is Done { s.insert(above(p)) } else { s },
        Request::Symlink(_, p) => if x is Done { s.insert(above(p)) } else { s },
        Request::RemoveFile(p) | Request::RemoveDir(p) => if x is Done {
            apart_from(s, path::components(p)).insert(above(p))
        } else {
            s
        },
        Request::RemoveTree(p) => if disk::tells_missing(x) {
            s
        } else {
            s.insert(above(p))
        },
        Request::Rename(a, b) | Request::Persist(a, b) => if x is Done {
            apart_from(s, path::components(a)).insert(above(b))
        } else {
            s
        },
        Request::Sync(p) => if x is Done { s.remove(path::components(p)) } else { s },
        Request::Discard(p) => apart_from(s, path::components(p)),
        Request::TempFile(_) | Request::TempDir(_) => match x {
            Answer::Data(t) => apart_from(s, path::components(t)),
            _ => s,
        },
        _ => s,
    }
}

/// Whether a request moves something to its place that is not yet on the disk.
pub open spec fn tears(s: Set<Spot>, request: Request) -> bool {
    match request {
        Request::Rename(a, _) | Request::Persist(a, _) => exists|j: Spot| #[trigger]
            s.contains(j) && disk::below(path::components(a), j),
        _ => false,
    }
}

impl World for Medium {
    open spec fn leads(self, request: Request, x: Answer, next: Medium) -> bool {
        &&& next.dirty == after(self.dirty, request, x)
        &&& next.torn == (self.torn || tears(self.dirty, request))
    }
}

/// Whether nothing was torn, and what is not on the disk is among these places.
pub open spec fn settled(w: Medium, s: Set<Spot>) -> bool {
    !w.torn && w.dirty.subset_of(s)
}

/// That, if the operation succeeded, nothing was torn, and what is not on the disk is among these places.
pub open spec fn settles<R>(s: Set<Spot>) -> spec_fn(Medium, Result<R, Trouble>) -> bool {
    |v: Medium, r: Result<R, Trouble>| r is Ok ==> settled(v, s)
}

/// The directory that holds an entry is the one that it is an entry of.
proof fn lemma_above(dir: Seq<u8>, name: Seq<u8>)
    requires
        path::is_plain(name),
    ensures
        above(path::join(dir, name)) == path::components(dir),
        path::parent(path::join(dir, name)) matches Some(d) && path::components(d)
            == path::components(dir),
{
    path::lemma_entry(dir, name);
    path::lemma_parent(dir, name);
    let d = path::components(dir);
    assert(d.push(Component::Normal(name)).drop_last() =~= d);
}

/// What is written to an entry of a directory is on the disk before it takes its place, and that it did
/// is on the disk when the operation succeeded.
pub proof fn law_write_synced(w: Medium, dir: Seq<u8>, name: Seq<u8>, contents: Seq<u8>, s: Set<Spot>)
    requires
        settled(w, s),
        path::is_plain(name),
    ensures
        atomic::write_program(path::join(dir, name), contents).meets(w, settles(s)),
{
    lemma_above(dir, name);
}

/// A copy is on the disk before it takes its place, and that it did when the operation succeeded.
pub proof fn law_copy_synced(
    w: Medium,
    source: Seq<u8>,
    mode: u32,
    dir: Seq<u8>,
    name: Seq<u8>,
    s: Set<Spot>,
)
    requires
        settled(w, s.insert(path::components(dir))),
        path::is_plain(name),
    ensures
        atomic::copy_program(source, path::join(dir, name), mode).meets(w, settles(s)),
{
    lemma_above(dir, name);
}

/// That a symbolic link took its place is on the disk when the operation succeeded.
pub proof fn law_link_synced(w: Medium, target: Seq<u8>, dir: Seq<u8>, name: Seq<u8>, s: Set<Spot>)
    requires
        settled(w, s.insert(path::components(dir))),
        path::is_plain(name),
    ensures
        atomic::link_program(target, path::join(dir, name)).meets(w, settles(s)),
{
    lemma_above(dir, name);
    placed::lemma_staged_names();
    let p = path::join(dir, name);
    let d = path::parent(p)->Some_0;
    assert forall|t: Seq<u8>, w1: Medium|
        #![trigger w.leads(Request::TempDir(d), Answer::Data(t), w1)]
        w.leads(Request::TempDir(d), Answer::Data(t), w1) implies atomic::cleaned(
        t,
        atomic::link_body(target, p, d, t),
    ).meets(w1, settles(s)) by {
        lemma_link_body(w1, target, dir, name, t, s);
        lemma_cleaned(atomic::link_body(target, p, d, t), w1, t, s);
    }
}

/// A temporary object that was discarded need not be on the disk.
proof fn lemma_cleaned(
    body: Program<Result<(), Trouble>>,
    w: Medium,
    t: Seq<u8>,
    s: Set<Spot>,
)
    requires
        body.meets(w, settles(s.insert(path::components(t)))),
    ensures
        atomic::cleaned(t, body).meets(w, settles(s)),
{
    let c = path::components(t);
    let mid = settles::<()>(s.insert(c));
    assert(c.take(c.len() as int) =~= c);
    assert forall|v: Medium, r: Result<(), Trouble>, x: Answer, u: Medium|
        #![trigger mid(v, r), v.leads(Request::Discard(t), x, u)]
        mid(v, r) && v.leads(Request::Discard(t), x, u) implies settles::<()>(s)(u, r) by {
        if r is Ok {
            assert forall|j: Spot| #[trigger] u.dirty.contains(j) implies s.contains(j) by {
                assert(v.dirty.contains(j) && !disk::below(c, j));
                assert(s.insert(c).contains(j));
            }
        }
    }
}

proof fn lemma_link_body(
    w: Medium,
    target: Seq<u8>,
    dir: Seq<u8>,
    name: Seq<u8>,
    t: Seq<u8>,
    s: Set<Spot>,
)
    requires
        settled(w, apart_from(s.insert(path::components(dir)), path::components(t))),
        path::is_plain(name),
    ensures
        atomic::link_body(
            target,
            path::join(dir, name),
            path::parent(path::join(dir, name))->Some_0,
            t,
        ).meets(w, settles(s.insert(path::components(t)))),
{
    let (c, q) = (path::components(t), path::components(atomic::staged_link(t)));
    lemma_above(dir, name);
    placed::lemma_staged_names();
    lemma_staged(t, bytes::text("link"@));
    assert(staged_in(t, atomic::staged_link(t)));
    assert forall|j: Spot| #[trigger]
        apart_from(s.insert(path::components(dir)), c).insert(c).contains(j) implies !disk::below(
        q,
        j,
    ) by {
        if disk::below(q, j) {
            assert(disk::below(c, j));
        }
    }
}

/// Whether `q` is an entry of the directory `t`, so that what lies there lies in that directory.
spec fn staged_in(t: Seq<u8>, q: Seq<u8>) -> bool {
    &&& above(q) == path::components(t)
    &&& !disk::below(path::components(q), path::components(t))
    &&& forall|j: Spot| #[trigger]
        disk::below(path::components(q), j) ==> disk::below(path::components(t), j)
}

proof fn lemma_staged(t: Seq<u8>, name: Seq<u8>)
    requires
        path::is_plain(name),
    ensures
        staged_in(t, path::join(t, name)),
{
    let (d, c) = (path::components(t), path::components(path::join(t, name)));
    lemma_above(t, name);
    path::lemma_entry(t, name);
    placed::lemma_below_push(d, Component::Normal(name));
    assert(c.len() == d.len() + 1);
    assert forall|j: Spot| #[trigger] disk::below(c, j) implies disk::below(d, j) by {
        placed::lemma_below_trans(d, c, j);
    }
}

/// That a file was removed is on the disk when the operation succeeded.
pub proof fn law_remove_synced(w: Medium, dir: Seq<u8>, name: Seq<u8>, s: Set<Spot>)
    requires
        settled(w, s),
        path::is_plain(name),
    ensures
        atomic::remove_program(path::join(dir, name)).meets(w, settles(s)),
        placing::remove_program(path::join(dir, name)).meets(w, settles(s)),
{
    lemma_above(dir, name);
}

/// That a directory was created is on the disk when the operation succeeded.
pub proof fn law_create_synced(w: Medium, dir: Seq<u8>, name: Seq<u8>, s: Set<Spot>)
    requires
        settled(w, s.insert(path::components(dir))),
        path::is_plain(name),
    ensures
        placing::create_program(path::join(dir, name)).meets(w, settles(s)),
{
    lemma_above(dir, name);
}

/// That permissions were set is on the disk when the operation succeeded.
pub proof fn law_seal_synced(w: Medium, p: Seq<u8>, mode: u32, s: Set<Spot>)
    requires
        settled(w, s),
    ensures
        placing::seal_program(p, mode).meets(w, settles(s)),
        placing::writable_program(p).meets(w, settles(s)),
{
}

/// Copying is on the disk when it succeeded, but for that the copy is an entry of its directory.
proof fn lemma_copy_entry(w: Medium, source: Seq<u8>, dir: Seq<u8>, name: Seq<u8>, s: Set<Spot>)
    requires
        settled(w, s),
        path::is_plain(name),
    ensures
        placing::copy_entry_program(source, path::join(dir, name)).meets(
            w,
            settles(s.insert(path::components(dir))),
        ),
    decreases usize::MAX - source.len(), 1int, 0int,
{
    let target = path::join(dir, name);
    let more = s.insert(path::components(dir));
    lemma_above(dir, name);
    assert forall|x: Answer, v: Medium|
        #![trigger x.names(), settled(v, more)]
        x.names() is Ok && settled(v, more) implies placing::copy_names_program(
        source,
        target,
        x.names()->Ok_0,
    ).meets(v, settles(more)) by {
        lemma_copy_names(v, source, target, x.names()->Ok_0, more);
    }
    assert forall|v: Medium| #[trigger] v.dirty.subset_of(more) && !v.torn implies settled(
        v,
        more,
    ) by {}
}

proof fn lemma_copy_names(
    w: Medium,
    source: Seq<u8>,
    target: Seq<u8>,
    names: Seq<Seq<u8>>,
    s: Set<Spot>,
)
    requires
        settled(w, s.insert(path::components(target))),
        host::all_plain(names),
    ensures
        placing::copy_names_program(source, target, names).meets(w, settles(s)),
    decreases usize::MAX - source.len(), 0int, names.len(),
{
    let t = path::components(target);
    let more = s.insert(t);
    if names.len() > 0 {
        let later = names.skip(1);
        let child = path::join(source, names[0]);
        assert(path::is_plain(names[0]));
        assert forall|i: int| 0 <= i < later.len() implies path::is_plain(#[trigger] later[i]) by {
            assert(later[i] == names[i + 1]);
        }
        if entry::deeper(source, child) {
            lemma_copy_entry(w, child, target, names[0], more);
            assert(more.insert(t) =~= more);
        }
        assert forall|v: Medium| #[trigger] settled(v, more) implies placing::copy_names_program(
            source,
            target,
            later,
        ).meets(v, settles(s)) by {
            lemma_copy_names(v, source, target, later, s);
        }
    }
}

/// Recorded permissions are on the disk when they were given.
proof fn lemma_modes(w: Medium, base: Seq<u8>, modes: Modes, s: Set<Spot>)
    requires
        settled(w, s),
    ensures
        placing::modes_program(base, modes).meets(w, settles(s)),
    decreases modes.len(),
{
    if modes.len() > 0 {
        law_seal_synced(w, entry::spot(base, modes.last().0), modes.last().1, s);
        assert forall|v: Medium| #[trigger] settled(v, s) implies placing::modes_program(
            base,
            modes.drop_last(),
        ).meets(v, settles(s)) by {
            lemma_modes(v, base, modes.drop_last(), s);
        }
    }
}

/// A backup is on the disk before it takes its place, and that it did when the operation succeeded.
pub proof fn law_restore_synced(
    w: Medium,
    source: Seq<u8>,
    modes: Modes,
    dir: Seq<u8>,
    name: Seq<u8>,
    s: Set<Spot>,
)
    requires
        settled(w, s.insert(path::components(dir))),
        path::is_plain(name),
    ensures
        placing::restore_program(source, modes, path::join(dir, name)).meets(w, settles(s)),
{
    let p = path::join(dir, name);
    let d = path::parent(p)->Some_0;
    lemma_above(dir, name);
    placed::lemma_staged_names();
    assert forall|t: Seq<u8>, w1: Medium|
        #![trigger w.leads(Request::TempDir(d), Answer::Data(t), w1)]
        w.leads(Request::TempDir(d), Answer::Data(t), w1) implies atomic::cleaned(
        t,
        placing::restore_body(source, modes, p, d, t),
    ).meets(w1, settles(s)) by {
        lemma_restore_body(w1, source, modes, dir, name, t, s);
        lemma_cleaned(placing::restore_body(source, modes, p, d, t), w1, t, s);
    }
}

proof fn lemma_restore_body(
    w: Medium,
    source: Seq<u8>,
    modes: Modes,
    dir: Seq<u8>,
    name: Seq<u8>,
    t: Seq<u8>,
    s: Set<Spot>,
)
    requires
        settled(w, apart_from(s.insert(path::components(dir)), path::components(t))),
        path::is_plain(name),
    ensures
        placing::restore_body(
            source,
            modes,
            path::join(dir, name),
            path::parent(path::join(dir, name))->Some_0,
            t,
        ).meets(w, settles(s.insert(path::components(t)))),
{
    let staged = placing::staged_snapshot(t);
    let c = path::components(t);
    let some = apart_from(s.insert(path::components(dir)), c);
    let more = some.insert(c);
    lemma_above(dir, name);
    placed::lemma_staged_names();
    lemma_staged(t, bytes::text("snapshot"@));
    lemma_copy_entry(w, source, t, bytes::text("snapshot"@), some);
    assert forall|v: Medium| #[trigger] settled(v, more) implies placing::modes_program(
        staged,
        modes,
    ).meets(v, settles(more)) by {
        lemma_modes(v, staged, modes, more);
    }
    assert(staged_in(t, staged));
}

/// That an entry was put in its place is on the disk when the operation succeeded, and so is all that it
/// holds.
pub proof fn law_materialise_synced(w: Medium, node: Node, dir: Seq<u8>, name: Seq<u8>, s: Set<Spot>)
    requires
        settled(w, s.insert(path::components(dir))),
        node is Absent ==> settled(w, s),
        path::is_plain(name),
        placed::proper(node),
    ensures
        placing::materialise_program(node, path::join(dir, name)).meets(w, settles(s)),
    decreases node, 1int,
{
    let p = path::join(dir, name);
    match node {
        Node::Directory { mode, tree } => {
            law_create_synced(w, dir, name, s);
            assert forall|v: Medium| #[trigger]
                settled(v, s) implies placing::tree_materialise_program(tree, p).meets(
                v,
                settles(s),
            ) && placing::seal_program(p, mode).meets(v, settles(s)) by {
                lemma_tree_materialise(v, tree, p, s);
                law_seal_synced(v, p, mode, s);
            }
        },
        Node::Link { source } => {
            law_link_synced(w, source, dir, name, s);
        },
        Node::Copy { source, mode } => {
            law_copy_synced(w, source, mode, dir, name, s);
        },
        Node::Symlink { target } => {
            law_link_synced(w, target, dir, name, s);
        },
        Node::Snapshot { source, modes } => {
            law_restore_synced(w, source, modes, dir, name, s);
        },
        Node::Absent => {},
    }
}

proof fn lemma_tree_materialise(w: Medium, f: Forest, p: Seq<u8>, s: Set<Spot>)
    requires
        settled(w, s),
        placed::tree_proper(f),
    ensures
        placing::tree_materialise_program(f, p).meets(w, settles(s)),
    decreases f, 0int,
{
    if f.len() > 0 {
        law_materialise_synced(w, f[0].1, p, f[0].0, s);
        assert forall|v: Medium| #[trigger]
            settled(v, s) implies placing::tree_materialise_program(f.skip(1), p).meets(
            v,
            settles(s),
        ) by {
            lemma_tree_materialise(v, f.skip(1), p, s);
        }
    }
}

/// What is written down for an image is on the disk when the operation succeeded: what is under way, what
/// is mounted, and that nothing is.
pub proof fn law_state_synced(
    w: Medium,
    paths: StatePaths<Seq<u8>>,
    t: Transaction<Seq<u8>>,
    p: Seq<u8>,
    s: Set<Spot>,
)
    requires
        settled(w, s),
        mounted::are_places(paths),
    ensures
        state::write_transaction_program(paths, t).meets(w, settles(s)),
        state::clear_transaction_program(paths).meets(w, settles(s)),
        state::write_current_program(paths, p).meets(w, settles(s)),
        state::remove_current_program(paths).meets(w, settles(s)),
{
    mounted::lemma_state_names();
    law_remove_synced(w, paths.directory, bytes::text("transaction"@), s);
    law_remove_synced(w, paths.directory, bytes::text("current"@), s);
    law_write_synced(w, paths.directory, bytes::text("current"@), state::line_of(p), s);
    assert forall|form: Seq<u8>, v: Medium|
        #![trigger atomic::write_program(paths.journal, form).meets(v, settles(s))]
        settled(v, s) implies atomic::write_program(paths.journal, form).meets(v, settles(s)) by {
        law_write_synced(v, paths.directory, bytes::text("transaction"@), form, s);
    }
}

/// A program that only looks leaves nothing to be brought to the disk.
proof fn lemma_quiet<R>(p: Program<R>, w: Medium, s: Set<Spot>)
    requires
        quiet::quiet(p),
        settled(w, s),
    ensures
        p.meets(w, |v: Medium, r: R| settled(v, s)),
    decreases p,
{
    match p {
        Program::Ask(request, f) => {
            let a = Witness { moved: false };
            assert forall|x: Answer, v: Medium| #[trigger] w.leads(request, x, v) implies f(x).meets(
                v,
                |u: Medium, r: R| settled(u, s),
            ) by {
                let b = Witness { moved: !disk::is_look(request) };
                assert(a.leads(request, x, b));
                assert(f(x).upholds(b, quiet::unmoved(), quiet::any()));
                assert(quiet::unmoved()(b));
                assert(b == a);
                assert(settled(v, s));
                lemma_quiet(f(x), v, s);
            }
        },
        _ => {},
    }
}

/// That an entry was repaired is on the disk when the operation succeeded.
pub proof fn law_repair_synced(w: Medium, node: Node, dir: Seq<u8>, name: Seq<u8>, s: Set<Spot>)
    requires
        settled(w, s),
        path::is_plain(name),
        placed::proper(node),
    ensures
        placing::repair_program(node, path::join(dir, name)).meets(w, settles(s)),
    decreases node, 1int,
{
    let p = path::join(dir, name);
    let look = entry::matches_program(node, p);
    quiet::lemma_matches(node, p);
    lemma_quiet(look, w, s);
    assert forall|v: Medium| #[trigger] settled(v, s) implies (match node {
        Node::Directory { mode, tree } => placing::ready_program(p).and_then(
            |u: ()|
                placing::tree_repair_program(tree, p).and_then(
                    |u: ()| placing::seal_program(p, mode),
                ),
        ),
        Node::Absent => placing::remove_program(p),
        _ => placing::replace_program(node, p),
    }).meets(v, settles(s)) by {
        match node {
            Node::Directory { mode, tree } => {
                lemma_ready(v, dir, name, s);
                assert forall|u: Medium| #[trigger]
                    settled(u, s) implies placing::tree_repair_program(tree, p).meets(
                    u,
                    settles(s),
                ) && placing::seal_program(p, mode).meets(u, settles(s)) by {
                    lemma_tree_repair(u, tree, p, s);
                    law_seal_synced(u, p, mode, s);
                }
            },
            Node::Absent => {
                law_remove_synced(v, dir, name, s);
            },
            _ => {
                lemma_replace(v, node, dir, name, s);
            },
        }
    }
}

proof fn lemma_ready(w: Medium, dir: Seq<u8>, name: Seq<u8>, s: Set<Spot>)
    requires
        settled(w, s),
        path::is_plain(name),
    ensures
        placing::ready_program(path::join(dir, name)).meets(w, settles(s)),
{
    let p = path::join(dir, name);
    assert forall|v: Medium| #[trigger] settled(v, s) implies placing::create_program(p).meets(
        v,
        settles(s),
    ) && placing::remove_program(p).meets(v, settles(s)) && placing::writable_program(p).meets(
        v,
        settles(s),
    ) by {
        assert(settled(v, s.insert(path::components(dir))));
        law_create_synced(v, dir, name, s);
        law_remove_synced(v, dir, name, s);
        law_seal_synced(v, p, 0, s);
    }
    assert forall|x: Answer, v: Medium| #[trigger]
        w.leads(Request::Stat(p), x, v) implies settled(v, s) by {}
}

proof fn lemma_replace(w: Medium, node: Node, dir: Seq<u8>, name: Seq<u8>, s: Set<Spot>)
    requires
        settled(w, s),
        path::is_plain(name),
        placed::proper(node),
        !(node is Absent),
    ensures
        placing::replace_program(node, path::join(dir, name)).meets(w, settles(s)),
{
    let p = path::join(dir, name);
    let more = s.insert(path::components(dir));
    lemma_above(dir, name);
    assert forall|v: Medium| #[trigger] settled(v, more) implies placing::materialise_program(
        node,
        p,
    ).meets(v, settles(s)) by {
        law_materialise_synced(v, node, dir, name, s);
    }
    assert forall|x: Answer, v: Medium| #[trigger]
        w.leads(Request::Stat(p), x, v) implies settled(v, more) && v.dirty == w.dirty && v.torn
        == w.torn by {}
    assert forall|v: Medium, x: Answer, u: Medium| #[trigger]
        v.leads(Request::RemoveTree(p), x, u) && settled(v, more) implies settled(u, more) by {}
}

proof fn lemma_tree_repair(w: Medium, f: Forest, p: Seq<u8>, s: Set<Spot>)
    requires
        settled(w, s),
        placed::tree_proper(f),
    ensures
        placing::tree_repair_program(f, p).meets(w, settles(s)),
    decreases f, 0int,
{
    if f.len() > 0 {
        law_repair_synced(w, f[0].1, p, f[0].0, s);
        assert forall|v: Medium| #[trigger]
            settled(v, s) implies placing::tree_repair_program(f.skip(1), p).meets(
            v,
            settles(s),
        ) by {
            lemma_tree_repair(v, f.skip(1), p, s);
        }
    }
}

/// Putting, removing and opening an entry are on the disk when they succeeded, whenever they are done.
proof fn lemma_any_time(to: Node, dir: Seq<u8>, name: Seq<u8>, s: Set<Spot>)
    requires
        path::is_plain(name),
        placed::proper(to),
    ensures
        forall|v: Medium| #[trigger]
            settled(v, s) ==> {
                &&& placing::materialise_program(to, path::join(dir, name)).meets(v, settles(s))
                &&& placing::remove_program(path::join(dir, name)).meets(v, settles(s))
                &&& placing::writable_program(path::join(dir, name)).meets(v, settles(s))
            },
{
    assert forall|v: Medium| #[trigger] settled(v, s) implies {
        &&& placing::materialise_program(to, path::join(dir, name)).meets(v, settles(s))
        &&& placing::remove_program(path::join(dir, name)).meets(v, settles(s))
        &&& placing::writable_program(path::join(dir, name)).meets(v, settles(s))
    } by {
        assert(settled(v, s.insert(path::components(dir))));
        law_materialise_synced(v, to, dir, name, s);
        law_remove_synced(v, dir, name, s);
        law_seal_synced(v, path::join(dir, name), 0, s);
    }
}

/// Looking whether an entry stands leaves nothing to be brought to the disk, whenever that is done.
proof fn lemma_look_any_time(node: Node, p: Seq<u8>, s: Set<Spot>)
    ensures
        forall|v: Medium| #[trigger]
            settled(v, s) ==> entry::matches_program(node, p).meets(
                v,
                |u: Medium, r: Result<bool, Trouble>| settled(u, s),
            ),
{
    assert forall|v: Medium| #[trigger] settled(v, s) implies entry::matches_program(node, p).meets(
        v,
        |u: Medium, r: Result<bool, Trouble>| settled(u, s),
    ) by {
        quiet::lemma_matches(node, p);
        lemma_quiet(entry::matches_program(node, p), v, s);
    }
}

proof fn lemma_remove_empty(w: Medium, dir: Seq<u8>, name: Seq<u8>, s: Set<Spot>)
    requires
        settled(w, s),
        path::is_plain(name),
    ensures
        transition::remove_empty_program(
            path::join(dir, name),
            atomic::sync_program(dir),
        ).meets(w, settles(s)),
        transition::remove_empty_program(
            path::join(dir, name),
            atomic::sync_parent_program(path::join(dir, name)),
        ).meets(w, settles(s)),
{
    lemma_above(dir, name);
}

proof fn lemma_remove_entry(w: Medium, node: Node, dir: Seq<u8>, name: Seq<u8>, s: Set<Spot>)
    requires
        settled(w, s),
        path::is_plain(name),
        placed::proper(node),
    ensures
        transition::remove_entry_program(node, dir, path::join(dir, name)).meets(w, settles(s)),
    decreases node, 2int,
{
    let p = path::join(dir, name);
    law_remove_synced(w, dir, name, s);
    match node {
        Node::Directory { tree, .. } => {
            assert forall|v: Medium| #[trigger]
                settled(v, s) implies transition::remove_managed_program(tree, p).meets(
                v,
                settles(s),
            ) && transition::remove_empty_program(p, atomic::sync_program(dir)).meets(
                v,
                settles(s),
            ) && placing::remove_program(p).meets(v, settles(s)) by {
                lemma_remove_managed(v, tree, p, s);
                lemma_remove_empty(v, dir, name, s);
                law_remove_synced(v, dir, name, s);
            }
            assert forall|x: Answer, v: Medium| #[trigger]
                w.leads(Request::Stat(p), x, v) implies settled(v, s) by {}
        },
        _ => {},
    }
}

proof fn lemma_remove_managed(w: Medium, f: Forest, p: Seq<u8>, s: Set<Spot>)
    requires
        settled(w, s),
        placed::tree_proper(f),
    ensures
        transition::remove_managed_program(f, p).meets(w, settles(s)),
    decreases f, 1int,
{
    law_seal_synced(w, p, 0, s);
    assert forall|v: Medium| #[trigger] settled(v, s) implies transition::remove_entries_program(
        f,
        p,
    ).meets(v, settles(s)) by {
        lemma_remove_entries(v, f, p, s);
    }
}

proof fn lemma_remove_entries(w: Medium, f: Forest, p: Seq<u8>, s: Set<Spot>)
    requires
        settled(w, s),
        placed::tree_proper(f),
    ensures
        transition::remove_entries_program(f, p).meets(w, settles(s)),
    decreases f, 0int,
{
    if f.len() > 0 {
        lemma_remove_entry(w, f[0].1, p, f[0].0, s);
        assert forall|v: Medium| #[trigger]
            settled(v, s) implies transition::remove_entries_program(f.skip(1), p).meets(
            v,
            settles(s),
        ) by {
            lemma_remove_entries(v, f.skip(1), p, s);
        }
    }
}

proof fn lemma_swap(w: Medium, from: Node, to: Node, dir: Seq<u8>, name: Seq<u8>, s: Set<Spot>)
    requires
        settled(w, s),
        path::is_plain(name),
        placed::proper(to),
    ensures
        transition::swap_program(from, to, path::join(dir, name)).meets(w, settles(s)),
        transition::drop_program(from, path::join(dir, name)).meets(w, settles(s)),
{
    lemma_any_time(to, dir, name, s);
    lemma_look_any_time(from, path::join(dir, name), s);
}

proof fn lemma_emptied(w: Medium, to: Node, dir: Seq<u8>, name: Seq<u8>, s: Set<Spot>)
    requires
        settled(w, s),
        path::is_plain(name),
        placed::proper(to),
    ensures
        session::act(Request::RemoveTree(path::join(dir, name))).and_then(
            |u: ()|
                atomic::sync_parent_program(path::join(dir, name)).and_then(
                    |u: ()| placing::materialise_program(to, path::join(dir, name)),
                ),
        ).meets(w, settles(s)),
{
    let p = path::join(dir, name);
    let d = path::parent(p)->Some_0;
    let more = s.insert(path::components(dir));
    lemma_above(dir, name);
    lemma_any_time(to, dir, name, s);
    assert forall|v: Medium, x: Answer, u: Medium| #[trigger]
        v.leads(Request::Sync(d), x, u) && x is Done && settled(v, more) implies settled(u, s) by {}
    assert forall|x: Answer, v: Medium| #[trigger]
        w.leads(Request::RemoveTree(p), x, v) implies settled(v, more) by {}
}

proof fn lemma_dissolve(
    w: Medium,
    from: Node,
    f: Forest,
    to: Node,
    dir: Seq<u8>,
    name: Seq<u8>,
    s: Set<Spot>,
)
    requires
        settled(w, s),
        path::is_plain(name),
        placed::proper(to),
    ensures
        transition::dissolve_program(from, f, to, path::join(dir, name)).meets(w, settles(s)),
{
    let p = path::join(dir, name);
    let none = |v: Medium, r: Result<(), Trouble>| settled(v, s);
    lemma_any_time(to, dir, name, s);
    assert forall|v: Medium| #[trigger] settled(v, s) implies transition::unmanaged_program(
        f,
        p,
    ).meets(v, none) && transition::swap_program(from, to, p).meets(v, settles(s))
        && session::act(Request::RemoveTree(p)).and_then(
        |u: ()|
            atomic::sync_parent_program(p).and_then(|u: ()| placing::materialise_program(to, p)),
    ).meets(v, settles(s)) by {
        quiet::lemma_unmanaged(f, p);
        lemma_quiet(transition::unmanaged_program(f, p), v, s);
        lemma_swap(v, from, to, dir, name, s);
        lemma_emptied(v, to, dir, name, s);
    }
    assert forall|x: Answer, v: Medium| #[trigger]
        w.leads(Request::Stat(p), x, v) implies settled(v, s) by {}
}

proof fn lemma_found(
    w: Medium,
    from: Node,
    mode: u32,
    f: Forest,
    dir: Seq<u8>,
    name: Seq<u8>,
    s: Set<Spot>,
)
    requires
        settled(w, s),
        path::is_plain(name),
        placed::proper(Node::Directory { mode, tree: f }),
    ensures
        transition::found_program(from, mode, f, path::join(dir, name)).meets(w, settles(s)),
{
    let p = path::join(dir, name);
    let to = Node::Directory { mode, tree: f };
    lemma_any_time(to, dir, name, s);
    assert forall|v: Medium| #[trigger] settled(v, s) implies placing::tree_repair_program(
        f,
        p,
    ).meets(v, settles(s)) && placing::seal_program(p, mode).meets(v, settles(s))
        && transition::swap_program(from, to, p).meets(v, settles(s)) by {
        lemma_tree_repair(v, f, p, s);
        law_seal_synced(v, p, mode, s);
        lemma_swap(v, from, to, dir, name, s);
    }
    assert forall|x: Answer, v: Medium| #[trigger]
        w.leads(Request::Stat(p), x, v) implies settled(v, s) by {}
}

proof fn lemma_exchange(w: Medium, from: Node, to: Node, dir: Seq<u8>, name: Seq<u8>, s: Set<Spot>)
    requires
        settled(w, s),
        path::is_plain(name),
        placed::proper(to),
    ensures
        transition::exchange_program(from, to, path::join(dir, name)).meets(w, settles(s)),
{
    let p = path::join(dir, name);
    lemma_any_time(to, dir, name, s);
    lemma_look_any_time(from, p, s);
    assert forall|x: Answer, v: Medium, u: Medium| #[trigger]
        v.leads(Request::Stat(p), x, u) && settled(v, s) implies settled(u, s) by {}
    assert forall|v: Medium| #[trigger] settled(v, s) implies transition::unfolds_program(to).meets(
        v,
        |u: Medium, r: Result<bool, Trouble>| settled(u, s),
    ) by {
        quiet::lemma_unfolds(to);
        lemma_quiet(transition::unfolds_program(to), v, s);
    }
}

proof fn lemma_withdraw(w: Medium, f: Forest, dir: Seq<u8>, name: Seq<u8>, s: Set<Spot>)
    requires
        settled(w, s),
        path::is_plain(name),
        placed::tree_proper(f),
    ensures
        transition::withdraw_program(f, path::join(dir, name)).meets(w, settles(s)),
{
    let p = path::join(dir, name);
    assert forall|v: Medium| #[trigger] settled(v, s) implies transition::remove_managed_program(
        f,
        p,
    ).meets(v, settles(s)) && transition::remove_empty_program(
        p,
        atomic::sync_parent_program(p),
    ).meets(v, settles(s)) by {
        lemma_remove_managed(v, f, p, s);
        lemma_remove_empty(v, dir, name, s);
    }
    assert forall|x: Answer, v: Medium| #[trigger]
        w.leads(Request::Stat(p), x, v) implies settled(v, s) by {}
}

/// That an entry was turned into another is on the disk when the operation succeeded.
pub proof fn law_transition_synced(
    w: Medium,
    from: Node,
    to: Node,
    dir: Seq<u8>,
    name: Seq<u8>,
    s: Set<Spot>,
)
    requires
        settled(w, s),
        path::is_plain(name),
        placed::proper(from),
        placed::proper(to),
    ensures
        transition::transition_program(from, to, path::join(dir, name)).meets(w, settles(s)),
    decreases from, 1int,
{
    let p = path::join(dir, name);
    lemma_look_any_time(to, p, s);
    match (from, to) {
        (
            Node::Directory { tree: from_tree, .. },
            Node::Directory { mode, tree: to_tree },
        ) => {
            lemma_any_time(to, dir, name, s);
            assert forall|v: Medium| #[trigger]
                settled(v, s) implies transition::tree_transition_program(
                from_tree,
                to_tree,
                p,
            ).meets(v, settles(s)) && placing::seal_program(p, mode).meets(v, settles(s)) by {
                law_tree_transition_synced(v, from_tree, to_tree, p, s);
                law_seal_synced(v, p, mode, s);
            }
            assert forall|x: Answer, v: Medium, u: Medium| #[trigger]
                v.leads(Request::Stat(p), x, u) && settled(v, s) implies settled(u, s) by {}
        },
        (Node::Directory { tree, .. }, Node::Absent) => {
            assert forall|v: Medium| #[trigger]
                settled(v, s) implies transition::withdraw_program(tree, p).meets(
                v,
                settles(s),
            ) by {
                lemma_withdraw(v, tree, dir, name, s);
            }
        },
        (Node::Directory { tree, .. }, _) => {
            assert forall|v: Medium| #[trigger]
                settled(v, s) implies transition::dissolve_program(from, tree, to, p).meets(
                v,
                settles(s),
            ) by {
                lemma_dissolve(v, from, tree, to, dir, name, s);
            }
        },
        (_, Node::Directory { mode, tree }) => {
            assert forall|v: Medium| #[trigger]
                settled(v, s) implies transition::found_program(from, mode, tree, p).meets(
                v,
                settles(s),
            ) by {
                lemma_found(v, from, mode, tree, dir, name, s);
            }
        },
        (_, Node::Absent) => {
            assert forall|v: Medium| #[trigger]
                settled(v, s) implies transition::drop_program(from, p).meets(v, settles(s)) by {
                lemma_swap(v, from, to, dir, name, s);
            }
        },
        _ => {
            assert forall|v: Medium| #[trigger]
                settled(v, s) implies transition::exchange_program(from, to, p).meets(
                v,
                settles(s),
            ) by {
                lemma_exchange(v, from, to, dir, name, s);
            }
        },
    }
}

/// That the entries of a directory were turned into others is on the disk when the operation succeeded.
pub proof fn law_tree_transition_synced(
    w: Medium,
    from: Forest,
    to: Forest,
    p: Seq<u8>,
    s: Set<Spot>,
)
    requires
        settled(w, s),
        placed::tree_proper(from),
        placed::tree_proper(to),
    ensures
        transition::tree_transition_program(from, to, p).meets(w, settles(s)),
    decreases from, 0int,
{
    if from.len() > 0 && tree::lookup(to, from[0].0) is Some {
        let node = tree::lookup(to, from[0].0)->Some_0;
        lemma_lookup_proper(to, from[0].0);
        law_transition_synced(w, from[0].1, node, p, from[0].0, s);
        assert forall|v: Medium| #[trigger]
            settled(v, s) implies transition::tree_transition_program(from.skip(1), to, p).meets(
            v,
            settles(s),
        ) by {
            law_tree_transition_synced(v, from.skip(1), to, p, s);
        }
    }
}

proof fn lemma_lookup_proper(f: Forest, name: Seq<u8>)
    requires
        placed::tree_proper(f),
        tree::lookup(f, name) is Some,
    ensures
        placed::proper(tree::lookup(f, name)->Some_0),
    decreases f.len(),
{
    if f[0].0 != name {
        let later = f.skip(1);
        tree::lemma_slot(later, name);
        assert(tree::slot(f, name) == 1 + tree::slot(later, name));
        assert(later[tree::slot(later, name)] == f[tree::slot(f, name)]);
        lemma_lookup_proper(later, name);
    }
}

} // verus!
