//! What a check of an image says and shows.
use vstd::prelude::*;

use crate::bytes;
use crate::command;
use crate::disk::{Disk, Object};
use crate::entry;
use crate::entry::{Drift, Tally};
use crate::error::Trouble;
use crate::host::{Answer, Request};
use crate::mounted;
use crate::path;
use crate::placing;
use crate::program::Program;
use crate::quiet;
use crate::reason;
use crate::reason::{Both, World};
use crate::sought;
use crate::sought::Setting;
use crate::standing;
use crate::state;
use crate::state::{ActivationModel, StatePaths};
use crate::tree::{Forest, Node};

verus! {

broadcast use crate::reason::group_reason;

/// A world that answers anything and notes the lines that were printed, and the commands that were run
/// on the terminal.
pub struct Watch {
    pub lines: Seq<Seq<u8>>,
    pub attached: Seq<Seq<Seq<u8>>>,
}

impl World for Watch {
    open spec fn leads(self, request: Request, x: Answer, next: Watch) -> bool {
        &&& next.lines == match request {
            Request::Print(line) => self.lines.push(line),
            _ => self.lines,
        }
        &&& next.attached == match request {
            Request::Attach(words) => self.attached.push(words),
            _ => self.attached,
        }
    }
}

/// How an entry at `p` differs on a disk from what it should be.
pub open spec fn changes_of(w: Disk, node: Node, p: Seq<u8>) -> Seq<Drift<Seq<u8>>>
    decreases node, 1int,
{
    match node {
        Node::Directory { mode, tree } => match w.at(p) {
            Some(Object::Directory(m)) => (if m == mode {
                Seq::empty()
            } else {
                seq![Drift::Permissions(p)]
            }) + tree_changes(w, tree, p),
            Some(_) => seq![Drift::Replaced(p)],
            None => seq![Drift::Missing(p)],
        },
        _ => if standing::stands(w, node, p) {
            Seq::empty()
        } else if node is Copy {
            seq![Drift::CopyModified { path: p, expected: node->Copy_source }]
        } else {
            seq![Drift::Modified(p)]
        },
    }
}

/// How the entries of a tree differ from what they should be, in their order.
pub open spec fn tree_changes(w: Disk, f: Forest, root: Seq<u8>) -> Seq<Drift<Seq<u8>>>
    decreases f, 0int,
{
    if f.len() == 0 {
        Seq::empty()
    } else {
        changes_of(w, f[0].1, path::join(root, f[0].0)) + tree_changes(w, f.skip(1), root)
    }
}

/// That nothing changed and, if the look did not fail, all differences were added to those found
/// before, in their order.
pub open spec fn adds(w: Disk, found: Seq<Drift<Seq<u8>>>, more: Seq<Drift<Seq<u8>>>) -> spec_fn(
    Disk,
    Tally,
) -> bool {
    |v: Disk, t: Tally| v == w && (t.0 is Ok ==> t.1 == found + more)
}

/// Looking for the drifts of an entry finds how it differs, each difference once and by its kind.
pub proof fn law_drifts_told(w: Disk, node: Node, p: Seq<u8>, found: Seq<Drift<Seq<u8>>>)
    requires
        w.sound(),
    ensures
        entry::drifts_program(node, p, found).meets(w, adds(w, found, changes_of(w, node, p))),
    decreases node, 1int,
{
    assert(found + Seq::<Drift<Seq<u8>>>::empty() =~= found);
    assert forall|x: Drift<Seq<u8>>| #[trigger] found.push(x) == found + seq![x] by {
        assert(found.push(x) =~= found + seq![x]);
    }
    match node {
        Node::Directory { mode, tree } => {
            let more = found.push(Drift::Permissions(p));
            let rest = tree_changes(w, tree, p);
            law_tree_drifts_told(w, tree, p, found);
            law_tree_drifts_told(w, tree, p, more);
            assert(more + rest =~= found + (seq![Drift::Permissions(p)] + rest));
            assert(Seq::<Drift<Seq<u8>>>::empty() + rest =~= rest);
        },
        _ => {},
    }
}

/// Looking for the drifts of a tree finds how its entries differ, in their order.
pub proof fn law_tree_drifts_told(w: Disk, f: Forest, root: Seq<u8>, found: Seq<Drift<Seq<u8>>>)
    requires
        w.sound(),
    ensures
        entry::tree_drifts_program(f, root, found).meets(w, adds(w, found, tree_changes(w, f, root))),
    decreases f, 0int,
{
    let post = adds(w, found, tree_changes(w, f, root));
    assert(found + Seq::<Drift<Seq<u8>>>::empty() =~= found);
    if f.len() > 0 {
        let p = path::join(root, f[0].0);
        let first = changes_of(w, f[0].1, p);
        let rest = tree_changes(w, f.skip(1), root);
        law_drifts_told(w, f[0].1, p, found);
        assert((found + first) + rest =~= found + (first + rest));
        assert forall|v: Disk, t: Tally| #[trigger] adds(w, found, first)(v, t)
            && t.0 is Ok implies entry::tree_drifts_program(f.skip(1), root, t.1).meets(w, post) by {
            law_tree_drifts_told(w, f.skip(1), root, t.1);
        }
    }
}

/// Nothing differs if and only if the tree stands.
pub proof fn law_changes_none(w: Disk, f: Forest, root: Seq<u8>)
    ensures
        tree_changes(w, f, root).len() == 0 <==> standing::tree_stands(w, f, root),
    decreases f, 0int,
{
    if f.len() > 0 {
        lemma_changes_none(w, f[0].1, path::join(root, f[0].0));
        law_changes_none(w, f.skip(1), root);
    }
}

proof fn lemma_changes_none(w: Disk, node: Node, p: Seq<u8>)
    ensures
        changes_of(w, node, p).len() == 0 <==> standing::stands(w, node, p),
    decreases node, 1int,
{
    match node {
        Node::Directory { tree, .. } => {
            law_changes_none(w, tree, p);
        },
        _ => {},
    }
}

/// The line that is to be printed of a difference: its kind, a tab, and the path.
pub open spec fn line_of(drift: Drift<Seq<u8>>) -> Seq<u8> {
    match drift {
        Drift::Missing(p) => bytes::text("missing"@) + bytes::text("\t"@) + p,
        Drift::Replaced(p) => bytes::text("replaced"@) + bytes::text("\t"@) + p,
        Drift::Modified(p) => bytes::text("modified"@) + bytes::text("\t"@) + p,
        Drift::CopyModified { path, .. } => bytes::text("modified"@) + bytes::text("\t"@) + path,
        Drift::Permissions(p) => bytes::text("permissions"@) + bytes::text("\t"@) + p,
    }
}

/// The lines that are to be printed of differences.
pub open spec fn lines_of(drifts: Seq<Drift<Seq<u8>>>) -> Seq<Seq<u8>> {
    drifts.map_values(|d: Drift<Seq<u8>>| line_of(d))
}

/// Whether a difference is that of a copy.
pub open spec fn of_copy() -> spec_fn(Drift<Seq<u8>>) -> bool {
    |d: Drift<Seq<u8>>| d is CopyModified
}

/// The command that shows the difference of a copy: the tool, the file that the copy was made from, and
/// the copy.
pub open spec fn shown_by(tool: Seq<u8>) -> spec_fn(Drift<Seq<u8>>) -> Seq<Seq<u8>> {
    |d: Drift<Seq<u8>>| seq![tool, d->expected, d->CopyModified_path]
}

/// The commands that show the differences of the copies, one for each, in their order.
pub open spec fn commands(tool: Seq<u8>, drifts: Seq<Drift<Seq<u8>>>) -> Seq<Seq<Seq<u8>>> {
    drifts.filter(of_copy()).map_values(shown_by(tool))
}

/// The commands of the first difference come before those of the others.
proof fn lemma_commands(tool: Seq<u8>, drifts: Seq<Drift<Seq<u8>>>)
    requires
        drifts.len() > 0,
    ensures
        commands(tool, drifts) == (if drifts[0] is CopyModified {
            seq![shown_by(tool)(drifts[0])]
        } else {
            Seq::empty()
        }) + commands(tool, drifts.skip(1)),
{
    let first = seq![drifts[0]];
    let later = drifts.skip(1);
    assert(drifts =~= first + later);
    Seq::filter_distributes_over_add(first, later, of_copy());
    reveal(Seq::filter);
    assert(first.drop_last() =~= Seq::<Drift<Seq<u8>>>::empty());
    assert(first.drop_last().filter(of_copy()) =~= Seq::<Drift<Seq<u8>>>::empty());
    if drifts[0] is CopyModified {
        assert(first.filter(of_copy()) =~= first);
    } else {
        assert(first.filter(of_copy()) =~= Seq::<Drift<Seq<u8>>>::empty());
    }
    assert(commands(tool, drifts) =~= first.filter(of_copy()).map_values(shown_by(tool))
        + later.filter(of_copy()).map_values(shown_by(tool)));
    assert(first.map_values(shown_by(tool)) =~= seq![shown_by(tool)(drifts[0])]);
}

/// That nothing was printed and, if all differences were shown, the commands that were run are those
/// that show them; else some of the first.
pub open spec fn shows(w: Watch, all: Seq<Seq<Seq<u8>>>) -> spec_fn(Watch, Result<(), Trouble>) -> bool {
    |v: Watch, r: Result<(), Trouble>|
        {
            &&& v.lines == w.lines
            &&& r is Ok ==> v.attached == w.attached + all
            &&& r is Err ==> exists|n: int|
                0 <= n <= all.len() && v.attached == w.attached + #[trigger] all.take(n)
            &&& r is Err ==> !standing::blames(r->Err_0)
        }
}

/// Showing the differences of copies runs the tool for each, in their order.
pub proof fn law_diffs(w: Watch, tool: Seq<u8>, drifts: Seq<Drift<Seq<u8>>>)
    ensures
        command::diffs_program(tool, drifts).meets(w, shows(w, commands(tool, drifts))),
    decreases drifts.len(),
{
    let all = commands(tool, drifts);
    let post = shows(w, all);
    if drifts.len() == 0 {
        reveal(Seq::filter);
        assert(all =~= Seq::<Seq<Seq<u8>>>::empty());
        assert(w.attached + all =~= w.attached);
    } else {
        let later = drifts.skip(1);
        let rest = commands(tool, later);
        lemma_commands(tool, drifts);
        if drifts[0] is CopyModified {
            let words = shown_by(tool)(drifts[0]);
            assert(all =~= seq![words] + rest);
            assert(all.take(1) =~= seq![words]);
            assert forall|v: Watch| v.lines == w.lines && v.attached == w.attached.push(
                words,
            ) implies #[trigger] command::diffs_program(tool, later).meets(v, post) by {
                law_diffs(v, tool, later);
                assert(v.attached + rest =~= w.attached + all);
                assert forall|u: Watch, r: Result<(), Trouble>| #[trigger]
                    shows(v, rest)(u, r) implies post(u, r) by {
                    if r is Err {
                        let n = choose|n: int|
                            0 <= n <= rest.len() && u.attached == v.attached + #[trigger] rest.take(
                                n,
                            );
                        assert(v.attached + rest.take(n) =~= w.attached + all.take(n + 1));
                    }
                }
            }
            assert(w.attached.push(words) =~= w.attached + all.take(1));
        } else {
            assert(all =~= rest);
            law_diffs(w, tool, later);
        }
    }
}

/// Showing differences, where that is asked for, runs the tool that is to show them for each copy that
/// differs, in their order; and runs nothing where it is not.
pub proof fn law_show(
    w: Both<Watch, Setting>,
    diff: bool,
    given: Option<Seq<u8>>,
    drifts: Seq<Drift<Seq<u8>>>,
)
    ensures
        command::show_program(diff, given, drifts).meets(
            w,
            |v: Both<Watch, Setting>, r: Result<(), Trouble>|
                {
                    let all = commands(sought::tool_of(w.other, given), drifts);
                    &&& v.one.lines == w.one.lines
                    &&& !diff ==> v == w && r is Ok
                    &&& diff && r is Ok ==> v.one.attached == w.one.attached + all
                    &&& r is Err ==> !standing::blames(r->Err_0)
                },
        ),
{
    let all = commands(sought::tool_of(w.other, given), drifts);
    let post = |v: Both<Watch, Setting>, r: Result<(), Trouble>|
        {
            &&& v.one.lines == w.one.lines
            &&& !diff ==> v == w && r is Ok
            &&& diff && r is Ok ==> v.one.attached == w.one.attached + all
            &&& r is Err ==> !standing::blames(r->Err_0)
        };
    if diff {
        let find = command::tool_program(given);
        let same = |v: Watch, r: Result<Seq<u8>, Trouble>|
            {
                &&& v.lines == w.one.lines
                &&& v.attached == w.one.attached
                &&& r is Err ==> !standing::blames(r->Err_0)
            };
        let right = |v: Setting, r: Result<Seq<u8>, Trouble>|
            {
                &&& v.variables == w.other.variables
                &&& r matches Ok(tool) ==> tool == sought::tool_of(w.other, given)
                &&& given is Some ==> r is Ok && v == w.other
            };
        sought::law_tool(w.other, given);
        assert(find.meets(w.one, same));
        reason::lemma_of_both(find, w, same, right);
        assert forall|v: Both<Watch, Setting>, r: Result<Seq<u8>, Trouble>| #[trigger]
            reason::of_both(same, right)(v, r) && r is Ok implies command::diffs_program(
            r->Ok_0,
            drifts,
        ).meets(v, post) by {
            let q = command::diffs_program(r->Ok_0, drifts);
            let some = |u: Setting, x: Result<(), Trouble>| true;
            law_diffs(v.one, r->Ok_0, drifts);
            reason::lemma_anything(q, v.other);
            reason::lemma_of_both(q, v, shows(v.one, all), some);
            assert forall|u: Both<Watch, Setting>, x: Result<(), Trouble>| #[trigger]
                reason::of_both(shows(v.one, all), some)(u, x) implies post(u, x) by {}
        }
    }
}

/// A disk, a terminal and an environment.
pub type Desk = Both<Disk, Both<Watch, Setting>>;

/// Whether neither the disk nor the variables changed, and nothing was printed or run.
pub open spec fn idle(w: Desk, v: Desk) -> bool {
    &&& v.one == w.one
    &&& v.other.one == w.other.one
    &&& v.other.other.variables == w.other.other.variables
}

/// A program that nothing is printed by, and that runs nothing on the terminal, does so beside a disk
/// too.
proof fn lemma_desk<R>(p: Program<R>, w: Desk, post: spec_fn(Disk, R) -> bool)
    requires
        p.meets(w.one, post),
        p.meets(w.other.one, |v: Watch, r: R| v == w.other.one),
    ensures
        p.meets(
            w,
            |v: Desk, r: R|
                post(v.one, r) && v.other.one == w.other.one && v.other.other.variables
                    == w.other.other.variables,
        ),
{
    let silent = |v: Watch, r: R| v == w.other.one;
    let set = |v: Setting, r: R| v.variables == w.other.other.variables;
    lemma_set(p, w.other.other);
    reason::lemma_of_both(p, w.other, silent, set);
    reason::lemma_of_both(p, w, post, reason::of_both(silent, set));
    let all = reason::of_both(post, reason::of_both(silent, set));
    let end = |v: Desk, r: R|
        post(v.one, r) && v.other.one == w.other.one && v.other.other.variables
            == w.other.other.variables;
    assert forall|v: Desk, r: R| #[trigger] all(v, r) implies end(v, r) by {}
    reason::lemma_weaken(p, w, all, end);
}

/// No program sets a variable.
proof fn lemma_set<R>(p: Program<R>, w: Setting)
    ensures
        p.meets(w, |v: Setting, r: R| v.variables == w.variables),
    decreases p,
{
    match p {
        Program::Ask(request, f) => {
            assert forall|x: Answer, v: Setting| #[trigger] w.leads(request, x, v) implies f(
                x,
            ).meets(v, |u: Setting, r: R| u.variables == w.variables) by {
                lemma_set(f(x), v);
            }
        },
        _ => {},
    }
}

/// Whether what was printed and run before comes first.
pub open spec fn follows(w: Watch, v: Watch) -> bool {
    &&& w.lines.len() <= v.lines.len() && v.lines.take(w.lines.len() as int) == w.lines
    &&& w.attached.len() <= v.attached.len() && v.attached.take(w.attached.len() as int)
        == w.attached
}

/// What comes first comes first of what goes on from there.
pub proof fn lemma_follows_again(w: Watch, u: Watch, v: Watch)
    requires
        follows(w, u),
        follows(u, v),
    ensures
        follows(w, v),
{
    assert(v.lines.take(w.lines.len() as int) =~= v.lines.take(u.lines.len() as int).take(
        w.lines.len() as int,
    ));
    assert(v.attached.take(w.attached.len() as int) =~= v.attached.take(
        u.attached.len() as int,
    ).take(w.attached.len() as int));
}

/// What was printed stays printed.
pub proof fn lemma_follows<R>(p: Program<R>, w: Watch)
    ensures
        p.meets(w, |v: Watch, r: R| follows(w, v)),
    decreases p,
{
    assert(w.lines.take(w.lines.len() as int) =~= w.lines);
    assert(w.attached.take(w.attached.len() as int) =~= w.attached);
    match p {
        Program::Ask(request, f) => {
            let post = |u: Watch, r: R| follows(w, u);
            assert forall|x: Answer, v: Watch| #[trigger] w.leads(request, x, v) implies f(
                x,
            ).meets(v, post) by {
                lemma_follows(f(x), v);
                let more = |u: Watch, r: R| follows(v, u);
                assert forall|u: Watch, r: R| #[trigger] more(u, r) implies post(u, r) by {
                    assert(u.lines.take(w.lines.len() as int) =~= u.lines.take(
                        v.lines.len() as int,
                    ).take(w.lines.len() as int));
                    assert(u.attached.take(w.attached.len() as int) =~= u.attached.take(
                        v.attached.len() as int,
                    ).take(w.attached.len() as int));
                    assert(v.lines.take(w.lines.len() as int) =~= w.lines);
                    assert(v.attached.take(w.attached.len() as int) =~= w.attached);
                }
                reason::lemma_weaken(f(x), v, more, post);
            }
        },
        _ => {},
    }
}

/// Looking for drifts prints nothing, and runs nothing.
proof fn lemma_drifts_silent(w: Watch, node: Node, p: Seq<u8>, found: Seq<Drift<Seq<u8>>>)
    ensures
        entry::drifts_program(node, p, found).meets(w, |v: Watch, t: Tally| v == w),
    decreases node, 1int,
{
    match node {
        Node::Directory { tree, .. } => {
            lemma_tree_drifts_silent(w, tree, p, found);
            lemma_tree_drifts_silent(w, tree, p, found.push(Drift::Permissions(p)));
        },
        _ => {},
    }
}

proof fn lemma_tree_drifts_silent(w: Watch, f: Forest, p: Seq<u8>, found: Seq<Drift<Seq<u8>>>)
    ensures
        entry::tree_drifts_program(f, p, found).meets(w, |v: Watch, t: Tally| v == w),
    decreases f, 0int,
{
    let post = |v: Watch, t: Tally| v == w;
    if f.len() > 0 {
        lemma_drifts_silent(w, f[0].1, path::join(p, f[0].0), found);
        assert forall|v: Watch, t: Tally| #[trigger] post(v, t) implies entry::tree_drifts_program(
            f.skip(1),
            p,
            t.1,
        ).meets(v, post) by {
            lemma_tree_drifts_silent(v, f.skip(1), p, t.1);
        }
    }
}

/// Differences are told by one line for each, in their order.
pub proof fn law_report(w: Watch, drifts: Seq<Drift<Seq<u8>>>)
    ensures
        command::report_program(drifts).meets(
            w,
            |v: Watch, r: ()|
                v.lines == w.lines + lines_of(drifts) && v.attached == w.attached,
        ),
    decreases drifts.len(),
{
    let post = |v: Watch, r: ()|
        v.lines == w.lines + lines_of(drifts) && v.attached == w.attached;
    if drifts.len() == 0 {
        assert(w.lines + lines_of(drifts) =~= w.lines);
    } else {
        let later = drifts.skip(1);
        assert(lines_of(drifts) =~= seq![line_of(drifts[0])] + lines_of(later));
        assert forall|v: Watch| v.lines == w.lines.push(line_of(drifts[0])) && v.attached
            == w.attached implies #[trigger] command::report_program(later).meets(v, post) by {
            law_report(v, later);
            assert(v.lines + lines_of(later) =~= w.lines + lines_of(drifts));
        }
    }
}

/// That a check told all differences of a mounted image, and showed and repaired what it was asked to.
pub open spec fn checks(
    w: Desk,
    image: Seq<u8>,
    fix: bool,
    diff: bool,
    given: Option<Seq<u8>>,
    a: ActivationModel,
) -> spec_fn(Desk, Result<(), Trouble>) -> bool {
    |v: Desk, r: Result<(), Trouble>|
        {
            let drifts = tree_changes(w.one, a.projection, a.root);
            let (old, new) = (w.other.one, v.other.one);
            let tool = sought::tool_of(w.other.other, given);
            let run = if diff {
                commands(tool, drifts)
            } else {
                Seq::empty()
            };
            &&& drifts.len() == 0 && r is Ok ==> {
                &&& v.one == w.one
                &&& new.attached == old.attached
                &&& new.lines == old.lines.push(image + bytes::text(" is intact"@))
            }
            &&& drifts.len() > 0 && r is Ok ==> {
                &&& fix
                &&& follows((Watch { lines: old.lines + lines_of(drifts), attached: old.attached + run }), new)
                &&& new.lines.last() == bytes::text("repaired "@) + image
                &&& new.lines.len() > old.lines.len() + drifts.len()
            }
            &&& !fix && r is Err && standing::blames(r->Err_0) ==> {
                &&& drifts.len() > 0
                &&& !diff ==> v.one == w.one
                &&& new.lines == old.lines + lines_of(drifts)
                &&& new.attached == old.attached + run
            }
        }
}

/// A check tells all differences of a mounted image, one line of each, in their order, shows those of
/// copies if asked to, and says that the image is intact only where there are none, and that it was
/// repaired only where that was asked for.
pub proof fn law_check(
    w: Desk,
    paths: StatePaths<Seq<u8>>,
    image: Seq<u8>,
    fix: bool,
    diff: bool,
    given: Option<Seq<u8>>,
    p: Seq<u8>,
    a: ActivationModel,
)
    requires
        w.one.sound(),
        mounted::installed(w.one, paths, p, a),
    ensures
        command::check_program(paths, image, fix, diff, given).meets(
            w,
            checks(w, image, fix, diff, given, a),
        ),
{
    let post = checks(w, image, fix, diff, given, a);
    let drifts = tree_changes(w.one, a.projection, a.root);
    let look = entry::tree_drifts_program(a.projection, a.root, Seq::empty());
    let looked = |v: Desk, t: Tally|
        idle(w, v) && (t.0 is Ok ==> t.1 == drifts) && (t.0 is Err ==> !standing::blames(
            t.0->Err_0,
        ));
    lemma_loaded(w, paths, p, a);
    assert forall|v: Desk| #[trigger] idle(w, v) implies look.meets(v, looked) by {
        lemma_looked(v, a);
        assert forall|u: Desk, t: Tally| #[trigger]
            found_all(v, a)(u, t) implies looked(u, t) by {}
    }
    assert forall|v: Desk, t: Tally| #[trigger] looked(v, t) && t.0 is Ok implies (if t.1.len()
        == 0 {
        command::say_program(image + bytes::text(" is intact"@))
    } else {
        command::report_program(t.1).bind(
            |u: ()|
                command::show_program(diff, given, t.1).and_then(
                    |u: ()| command::mend_program(image, fix, a),
                ),
        )
    }).meets(v, post) by {
        if t.1.len() > 0 {
            lemma_told(w, v, image, fix, diff, given, a);
        }
    }
}

/// That the terminal goes on from `w`: if the operation succeeded, with the line that an image was
/// repaired at the end, where that was asked for; else it fails at once.
pub open spec fn mended(w: Watch, image: Seq<u8>, fix: bool) -> spec_fn(Watch, Result<(), Trouble>) -> bool {
    |v: Watch, r: Result<(), Trouble>|
        {
            &&& r is Ok ==> {
                &&& fix
                &&& follows(w, v)
                &&& v.lines.len() > w.lines.len()
                &&& v.lines.last() == bytes::text("repaired "@) + image
            }
            &&& !fix ==> v == w
        }
}

proof fn lemma_mended(w: Watch, image: Seq<u8>, fix: bool, a: ActivationModel)
    ensures
        command::mend_program(image, fix, a).meets(w, mended(w, image, fix)),
{
    let post = mended(w, image, fix);
    if fix {
        let repair = placing::tree_repair_program(a.projection, a.root);
        let line = bytes::text("repaired "@) + image;
        lemma_follows(repair, w);
        let on = |v: Watch, r: Result<(), Trouble>| follows(w, v);
        assert forall|v: Watch, r: Result<(), Trouble>| #[trigger]
            on(v, r) && r is Ok implies command::say_program(line).meets(v, post) by {
            assert(v.lines.push(line).take(w.lines.len() as int) =~= v.lines.take(
                w.lines.len() as int,
            ));
        }
    }
}

/// After a look that found differences a check tells them, and shows and repairs what it was asked to.
proof fn lemma_told(
    w: Desk,
    v: Desk,
    image: Seq<u8>,
    fix: bool,
    diff: bool,
    given: Option<Seq<u8>>,
    a: ActivationModel,
)
    requires
        idle(w, v),
        tree_changes(w.one, a.projection, a.root).len() > 0,
    ensures
        command::report_program(tree_changes(w.one, a.projection, a.root)).bind(
            |u: ()|
                command::show_program(
                    diff,
                    given,
                    tree_changes(w.one, a.projection, a.root),
                ).and_then(|u: ()| command::mend_program(image, fix, a)),
        ).meets(v, checks(w, image, fix, diff, given, a)),
{
    let post = checks(w, image, fix, diff, given, a);
    let drifts = tree_changes(w.one, a.projection, a.root);
    let report = command::report_program(drifts);
    let show = command::show_program(diff, given, drifts);
    let mend = command::mend_program(image, fix, a);
    let lines = w.other.one.lines + lines_of(drifts);
    let tool = sought::tool_of(w.other.other, given);
    let run = if diff {
        commands(tool, drifts)
    } else {
        Seq::empty()
    };
    let still = |x: Disk, r: ()| x == w.one;
    let said = |x: Watch, r: ()| x.lines == lines && x.attached == w.other.one.attached;
    let set = |x: Setting, r: ()| x.variables == w.other.other.variables;
    quiet::lemma_report(drifts);
    quiet::lemma_still(report, v.one);
    law_report(v.other.one, drifts);
    lemma_set(report, v.other.other);
    reason::lemma_of_both(report, v.other, said, set);
    reason::lemma_of_both(report, v, still, reason::of_both(said, set));
    assert forall|x: Desk, r: ()| #[trigger]
        reason::of_both(still, reason::of_both(said, set))(x, r) implies show.and_then(
        |u: ()| mend,
    ).meets(x, post) by {
        let first = |y: Disk, q: Result<(), Trouble>| !diff ==> y == x.one;
        let second = |y: Both<Watch, Setting>, q: Result<(), Trouble>|
            {
                let all = commands(sought::tool_of(x.other.other, given), drifts);
                &&& y.one.lines == x.other.one.lines
                &&& !diff ==> y == x.other && q is Ok
                &&& diff && q is Ok ==> y.one.attached == x.other.one.attached + all
                &&& q is Err ==> !standing::blames(q->Err_0)
            };
        law_show(x.other, diff, given, drifts);
        if diff {
            reason::lemma_anything(show, x.one);
            reason::lemma_weaken(show, x.one, |y: Disk, q: Result<(), Trouble>| true, first);
        }
        assert(show.meets(x.one, first));
        reason::lemma_of_both(show, x, first, second);
        assert forall|y: Desk, q: Result<(), Trouble>| #[trigger]
            reason::of_both(first, second)(y, q) && q is Ok implies mend.meets(y, post) by {
            let disk = |z: Disk, t: Result<(), Trouble>| !fix ==> z == y.one;
            let some = |z: Setting, t: Result<(), Trouble>| true;
            lemma_mended(y.other.one, image, fix, a);
            reason::lemma_anything(mend, y.other.other);
            if fix {
                reason::lemma_anything(mend, y.one);
                reason::lemma_weaken(mend, y.one, |z: Disk, t: Result<(), Trouble>| true, disk);
            }
            assert(mend.meets(y.one, disk));
            let watch = mended(y.other.one, image, fix);
            reason::lemma_of_both(mend, y.other, watch, some);
            reason::lemma_of_both(mend, y, disk, reason::of_both(watch, some));
            assert(w.other.one.attached + Seq::<Seq<Seq<u8>>>::empty()
                =~= w.other.one.attached);
            assert(y.other.one.attached == w.other.one.attached + run);
            assert(y.other.one == Watch { lines, attached: w.other.one.attached + run });
            assert forall|z: Desk, t: Result<(), Trouble>| #[trigger]
                reason::of_both(disk, reason::of_both(watch, some))(z, t) implies post(z, t) by {}
        }
    }
}

/// What a look finds of an activation, with nothing printed or run.
pub open spec fn found_all(w: Desk, a: ActivationModel) -> spec_fn(Desk, Tally) -> bool {
    |v: Desk, t: Tally|
        {
            &&& idle(w, v)
            &&& t.0 is Ok ==> t.1 == tree_changes(w.one, a.projection, a.root)
            &&& t.0 is Err ==> !standing::blames(t.0->Err_0)
        }
}

proof fn lemma_looked(w: Desk, a: ActivationModel)
    requires
        w.one.sound(),
    ensures
        entry::tree_drifts_program(a.projection, a.root, Seq::empty()).meets(w, found_all(w, a)),
{
    let none = Seq::<Drift<Seq<u8>>>::empty();
    let look = entry::tree_drifts_program(a.projection, a.root, none);
    let all = tree_changes(w.one, a.projection, a.root);
    let truth = standing::tree_stands(w.one, a.projection, a.root);
    law_tree_drifts_told(w.one, a.projection, a.root, none);
    standing::law_drifts_found(w.one, a.projection, a.root);
    lemma_tree_drifts_silent(w.other.one, a.projection, a.root, none);
    reason::lemma_both(look, w.one, adds(w.one, none, all), standing::finds(w.one, truth));
    let both = |v: Disk, t: Tally|
        adds(w.one, none, all)(v, t) && standing::finds(w.one, truth)(v, t);
    lemma_desk(look, w, both);
    assert(none + all =~= all);
    let desk = |v: Desk, t: Tally|
        both(v.one, t) && v.other.one == w.other.one && v.other.other.variables
            == w.other.other.variables;
    assert forall|v: Desk, t: Tally| #[trigger] desk(v, t) implies found_all(w, a)(v, t) by {}
    reason::lemma_weaken(look, w, desk, found_all(w, a));
}

proof fn lemma_loaded(w: Desk, paths: StatePaths<Seq<u8>>, p: Seq<u8>, a: ActivationModel)
    requires
        w.one.sound(),
        mounted::installed(w.one, paths, p, a),
    ensures
        state::load_program(paths).meets(
            w,
            |v: Desk, r: Result<Option<(Seq<u8>, ActivationModel)>, Trouble>|
                idle(w, v) && (r matches Ok(found) ==> found == Some((p, a))) && (r is Err
                    ==> !standing::blames(r->Err_0)),
        ),
{
    let load = state::load_program(paths);
    let fair = |v: Disk, r: Result<Option<(Seq<u8>, ActivationModel)>, Trouble>|
        r is Err ==> !standing::blames(r->Err_0);
    mounted::law_load(w.one, paths, p, a);
    assert(load.meets(w.one, fair));
    reason::lemma_both(load, w.one, mounted::gives(w.one, Some((p, a))), fair);
    let both = |v: Disk, r: Result<Option<(Seq<u8>, ActivationModel)>, Trouble>|
        mounted::gives(w.one, Some((p, a)))(v, r) && fair(v, r);
    assert(load.meets(
        w.other.one,
        |v: Watch, r: Result<Option<(Seq<u8>, ActivationModel)>, Trouble>| v == w.other.one,
    ));
    lemma_desk(load, w, both);
    let desk = |v: Desk, r: Result<Option<(Seq<u8>, ActivationModel)>, Trouble>|
        both(v.one, r) && v.other.one == w.other.one && v.other.other.variables
            == w.other.other.variables;
    let end = |v: Desk, r: Result<Option<(Seq<u8>, ActivationModel)>, Trouble>|
        idle(w, v) && (r matches Ok(found) ==> found == Some((p, a))) && (r is Err
            ==> !standing::blames(r->Err_0));
    assert forall|v: Desk, r: Result<Option<(Seq<u8>, ActivationModel)>, Trouble>| #[trigger]
        desk(v, r) implies end(v, r) by {}
    reason::lemma_weaken(load, w, desk, end);
}

} // verus!
