//! What the commands say, and in which order.
use vstd::prelude::*;

use crate::bytes;
use crate::command;
use crate::command::ManifestModel;
use crate::entry;
use crate::entry::{Drift, Tally};
use crate::error::Trouble;
use crate::host::{Answer, Request};
use crate::path;
use crate::projection::ImageModel;
use crate::reason::World;
use crate::tree::{Forest, Node};

verus! {

broadcast use crate::reason::group_reason;

/// A world that answers anything and notes the lines that were printed.
pub struct Reader {
    pub lines: Seq<Seq<u8>>,
}

impl World for Reader {
    open spec fn leads(self, request: Request, x: Answer, next: Reader) -> bool {
        next.lines == match request {
            Request::Print(line) => self.lines.push(line),
            _ => self.lines,
        }
    }
}

/// Whether a line tells whether the image called `name` is mounted.
pub open spec fn lists(line: Seq<u8>, name: Seq<u8>) -> bool {
    exists|mounted: bool| line == #[trigger] command::list_line(name, mounted)
}

/// Whether a line tells how the image called `name` stands.
pub open spec fn describes(line: Seq<u8>, name: Seq<u8>) -> bool {
    line == bytes::text("unmounted\t"@) + name || exists|root: Seq<u8>, drifted: bool|
        line == #[trigger] command::standing_line(name, root, drifted)
}

/// Whether the lines after the first `from` tell of the names, one line of each, in their order.
pub open spec fn tell_of(
    lines: Seq<Seq<u8>>,
    from: nat,
    names: Seq<Seq<u8>>,
    speaks: spec_fn(Seq<u8>, Seq<u8>) -> bool,
) -> bool {
    &&& lines.len() == from + names.len()
    &&& forall|i: int|
        #![trigger names[i]]
        0 <= i < names.len() ==> speaks(lines[from + i], names[i])
}

/// Whether names ascend.
pub open spec fn ascend(names: Seq<Seq<u8>>) -> bool {
    forall|i: int, j: int|
        #![trigger names[i], names[j]]
        0 <= i < j < names.len() ==> bytes::precedes(names[i], names[j])
}

/// The names of the declared images.
pub open spec fn names_of(images: Seq<(Seq<u8>, ImageModel)>) -> Seq<Seq<u8>> {
    images.map_values(|item: (Seq<u8>, ImageModel)| item.0)
}

/// Whether the names of the declared images ascend, each once.
pub open spec fn in_order(manifest: ManifestModel) -> bool {
    ascend(names_of(manifest.images))
}

/// That lines were added that tell of the first of the images, in their order, and of all if the
/// operation succeeded.
pub open spec fn told(
    w: Reader,
    images: Seq<(Seq<u8>, ImageModel)>,
    speaks: spec_fn(Seq<u8>, Seq<u8>) -> bool,
) -> spec_fn(Reader, Result<(), Trouble>) -> bool {
    |v: Reader, r: Result<(), Trouble>|
        {
            let n = v.lines.len() - w.lines.len();
            &&& 0 <= n <= images.len()
            &&& v.lines.take(w.lines.len() as int) == w.lines
            &&& tell_of(v.lines, w.lines.len(), names_of(images).take(n), speaks)
            &&& r is Ok ==> n == images.len()
        }
}

/// What was told of the first image and of the later ones was told of all.
pub proof fn lemma_told(
    w: Reader,
    w1: Reader,
    v: Reader,
    r: Result<(), Trouble>,
    images: Seq<(Seq<u8>, ImageModel)>,
    speaks: spec_fn(Seq<u8>, Seq<u8>) -> bool,
)
    requires
        images.len() > 0,
        w1.lines.len() == w.lines.len() + 1,
        w1.lines.take(w.lines.len() as int) == w.lines,
        speaks(w1.lines.last(), images[0].0),
        told(w1, images.skip(1), speaks)(v, r),
    ensures
        told(w, images, speaks)(v, r),
{
    let n = v.lines.len() - w.lines.len();
    let names = names_of(images).take(n);
    let later = names_of(images.skip(1)).take(n - 1);
    assert(v.lines.take(w.lines.len() as int) =~= v.lines.take(w1.lines.len() as int).take(
        w.lines.len() as int,
    ));
    assert(v.lines[w.lines.len() as int] == v.lines.take(w1.lines.len() as int)[w.lines.len() as int]);
    assert forall|i: int| #![trigger names[i]] 0 <= i < names.len() implies speaks(
        v.lines[w.lines.len() + i],
        names[i],
    ) by {
        if i > 0 {
            assert(images.skip(1)[i - 1] == images[i]);
            assert(later[i - 1] == names[i]);
        }
    }
}

/// Listing tells of the declared images in their order, one line of each, until it fails.
pub proof fn law_list_tells(w: Reader, state_root: Seq<u8>, images: Seq<(Seq<u8>, ImageModel)>)
    ensures
        command::list_program(state_root, images).meets(
            w,
            told(w, images, |line: Seq<u8>, name: Seq<u8>| lists(line, name)),
        ),
    decreases images.len(),
{
    let speaks = |line: Seq<u8>, name: Seq<u8>| lists(line, name);
    let post = told(w, images, speaks);
    assert(w.lines.take(w.lines.len() as int) =~= w.lines);
    if images.len() > 0 {
        let later = images.skip(1);
        assert forall|mounted: bool, w1: Reader| w1.lines == w.lines.push(
            #[trigger] command::list_line(images[0].0, mounted),
        ) implies #[trigger] command::list_program(state_root, later).meets(w1, post) by {
            law_list_tells(w1, state_root, later);
            assert(w1.lines.take(w.lines.len() as int) =~= w.lines);
            assert(lists(w1.lines.last(), images[0].0));
            assert forall|v: Reader, r: Result<(), Trouble>| #[trigger]
                told(w1, later, speaks)(v, r) implies post(v, r) by {
                lemma_told(w, w1, v, r, images, speaks);
            }
        }
    }
}

/// That nothing was printed.
pub open spec fn unsaid<R>(w: Reader) -> spec_fn(Reader, R) -> bool {
    |v: Reader, r: R| v.lines == w.lines
}

/// Looking for drifts prints nothing.
proof fn lemma_drifts(w: Reader, node: Node, p: Seq<u8>, found: Seq<Drift<Seq<u8>>>)
    ensures
        entry::drifts_program(node, p, found).meets(
            w,
            unsaid::<Tally>(w),
        ),
    decreases node, 1int,
{
    match node {
        Node::Directory { tree, .. } => {
            lemma_tree_drifts(w, tree, p, found);
            lemma_tree_drifts(w, tree, p, found.push(Drift::Permissions(p)));
        },
        _ => {},
    }
}

pub proof fn lemma_tree_drifts(w: Reader, f: Forest, p: Seq<u8>, found: Seq<Drift<Seq<u8>>>)
    ensures
        entry::tree_drifts_program(f, p, found).meets(w, unsaid::<Tally>(w)),
    decreases f, 0int,
{
    let post = unsaid::<Tally>(w);
    if f.len() > 0 {
        lemma_drifts(w, f[0].1, path::join(p, f[0].0), found);
        assert forall|v: Reader, t: Tally| #[trigger] post(v, t) implies entry::tree_drifts_program(
            f.skip(1),
            p,
            t.1,
        ).meets(v, post) by {
            lemma_tree_drifts(v, f.skip(1), p, t.1);
        }
    }
}

/// That one line was added if the operation succeeded, which tells of an image; and else one at
/// most.
pub open spec fn told_one(w: Reader, name: Seq<u8>) -> spec_fn(Reader, Result<(), Trouble>) -> bool {
    |v: Reader, r: Result<(), Trouble>|
        {
            ||| v.lines == w.lines && r is Err
            ||| v.lines.len() == w.lines.len() + 1 && v.lines.take(w.lines.len() as int) == w.lines
                && describes(v.lines.last(), name)
        }
}

/// Saying how an image stands adds one line, which tells of it.
proof fn lemma_standing(w: Reader, state_root: Seq<u8>, name: Seq<u8>)
    ensures
        command::standing_program(state_root, name).meets(w, told_one(w, name)),
{
    let post = told_one(w, name);
    assert forall|f: Forest, root: Seq<u8>|
        #![trigger entry::tree_drifts_program(f, root, Seq::empty())]
        entry::tree_drifts_program(f, root, Seq::empty()).meets(w, unsaid(w)) by {
        lemma_tree_drifts(w, f, root, Seq::empty());
    }
    assert forall|line: Seq<u8>|
        #![trigger command::say_program(line)]
        describes(line, name) implies command::say_program(line).meets(w, post) by {
        assert(w.lines.push(line).take(w.lines.len() as int) =~= w.lines);
    }
    assert forall|root: Seq<u8>, drifted: bool| #[trigger]
        describes(command::standing_line(name, root, drifted), name) by {}
}

/// Saying how the declared images stand tells of them in their order, one line of each, until it
/// fails.
pub proof fn law_status_tells(w: Reader, state_root: Seq<u8>, images: Seq<(Seq<u8>, ImageModel)>)
    ensures
        command::standings_program(state_root, images).meets(
            w,
            told(w, images, |line: Seq<u8>, name: Seq<u8>| describes(line, name)),
        ),
    decreases images.len(),
{
    let speaks = |line: Seq<u8>, name: Seq<u8>| describes(line, name);
    let post = told(w, images, speaks);
    assert(w.lines.take(w.lines.len() as int) =~= w.lines);
    if images.len() > 0 {
        let later = images.skip(1);
        let one = told_one(w, images[0].0);
        lemma_standing(w, state_root, images[0].0);
        assert forall|w1: Reader, r: Result<(), Trouble>| #[trigger] one(w1, r) implies (match r {
            Ok(u) => command::standings_program(state_root, later),
            Err(e) => crate::program::fail(e),
        }).meets(w1, post) by {
            if r is Ok {
                law_status_tells(w1, state_root, later);
                assert forall|v: Reader, q: Result<(), Trouble>| #[trigger]
                    told(w1, later, speaks)(v, q) implies post(v, q) by {
                    lemma_told(w, w1, v, q, images, speaks);
                }
            } else if w1.lines.len() > w.lines.len() {
                let none = names_of(later).take(0);
                assert(w1.lines.take(w1.lines.len() as int) =~= w1.lines);
                assert(tell_of(w1.lines, w1.lines.len(), none, speaks));
                lemma_told(w, w1, w1, r, images, speaks);
            }
        }
    }
}

/// The lines of a list and of a status come in ascending order of the names, where the names of the
/// manifest do.
pub proof fn law_lines_ascend(
    w: Reader,
    v: Reader,
    r: Result<(), Trouble>,
    manifest: ManifestModel,
    speaks: spec_fn(Seq<u8>, Seq<u8>) -> bool,
)
    requires
        in_order(manifest),
        told(w, manifest.images, speaks)(v, r),
    ensures
        exists|names: Seq<Seq<u8>>| #[trigger]
            ascend(names) && tell_of(v.lines, w.lines.len(), names, speaks),
{
    let n = v.lines.len() - w.lines.len();
    let names = names_of(manifest.images).take(n);
    assert(ascend(names)) by {
        assert forall|i: int, j: int|
            #![trigger names[i], names[j]]
            0 <= i < j < names.len() implies bytes::precedes(names[i], names[j]) by {
            assert(names[i] == names_of(manifest.images)[i]);
            assert(names[j] == names_of(manifest.images)[j]);
        }
    }
}

} // verus!
