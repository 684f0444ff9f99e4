//! That what the commands say of the images is true.
use vstd::prelude::*;

use crate::bytes;
use crate::command;
use crate::disk::Disk;
use crate::entry;
use crate::entry::Tally;
use crate::error::Trouble;
use crate::host::{Answer, Request};
use crate::mounted;
use crate::program;
use crate::program::Program;
use crate::projection::ImageModel;
use crate::reason;
use crate::reason::World;
use crate::standing;
use crate::state;
use crate::state::ActivationModel;
use crate::told;
use crate::told::Reader;

verus! {

broadcast use crate::reason::group_reason;

/// A disk, and a reader of what is printed.
pub struct Scene {
    pub disk: Disk,
    pub reader: Reader,
}

impl World for Scene {
    open spec fn leads(self, request: Request, x: Answer, next: Scene) -> bool {
        self.disk.leads(request, x, next.disk) && self.reader.leads(request, x, next.reader)
    }
}

/// What a program meets on a disk and before a reader it meets where both are.
proof fn lemma_scene<R>(
    p: Program<R>,
    w: Scene,
    a: spec_fn(Disk, R) -> bool,
    b: spec_fn(Reader, R) -> bool,
)
    requires
        p.meets(w.disk, a),
        p.meets(w.reader, b),
    ensures
        p.meets(w, |v: Scene, r: R| a(v.disk, r) && b(v.reader, r)),
    decreases p,
{
    match p {
        Program::Ask(request, f) => {
            assert forall|x: Answer, next: Scene| #[trigger] w.leads(request, x, next) implies f(
                x,
            ).meets(next, |v: Scene, r: R| a(v.disk, r) && b(v.reader, r)) by {
                assert(w.disk.leads(request, x, next.disk));
                assert(w.reader.leads(request, x, next.reader));
                lemma_scene(f(x), next, a, b);
            }
        },
        _ => {},
    }
}

/// Whether a line is what is to be listed of the image called `name`: that it is mounted where an
/// activation is written down, and that it is not where nothing is.
pub open spec fn lists_truly(w: Disk, state_root: Seq<u8>) -> spec_fn(Seq<u8>, Seq<u8>) -> bool {
    |line: Seq<u8>, name: Seq<u8>|
        {
            let paths = state::places(state_root, name);
            &&& told::lists(line, name)
            &&& w.at(paths.current) is None ==> line == bytes::text("unmounted\t"@) + name
            &&& forall|p: Seq<u8>, a: ActivationModel| #[trigger]
                mounted::installed(w, paths, p, a) ==> line == bytes::text("mounted\t"@) + name
        }
}

/// Whether a line is what is to be said of the image called `name`: that it is mounted where its tree
/// stands, that it changed where it does not, and that it is not mounted where nothing is written
/// down.
pub open spec fn describes_truly(w: Disk, state_root: Seq<u8>) -> spec_fn(Seq<u8>, Seq<u8>) -> bool {
    |line: Seq<u8>, name: Seq<u8>|
        {
            let paths = state::places(state_root, name);
            &&& told::describes(line, name)
            &&& w.at(paths.current) is None ==> line == bytes::text("unmounted\t"@) + name
            &&& forall|p: Seq<u8>, a: ActivationModel| #[trigger]
                mounted::installed(w, paths, p, a) ==> line == (if standing::tree_stands(
                    w,
                    a.projection,
                    a.root,
                ) {
                    bytes::text("mounted\t"@)
                } else {
                    bytes::text("changed\t"@)
                }) + name + bytes::text("\t"@) + a.root
        }
}

/// That the disk did not change, and lines were added that tell of the first of the images, in their
/// order, and of all if the operation succeeded.
pub open spec fn told_of(
    w: Scene,
    images: Seq<(Seq<u8>, ImageModel)>,
    speaks: spec_fn(Seq<u8>, Seq<u8>) -> bool,
) -> spec_fn(Scene, Result<(), Trouble>) -> bool {
    |v: Scene, r: Result<(), Trouble>|
        v.disk == w.disk && told::told(w.reader, images, speaks)(v.reader, r)
}

/// That nothing was printed, and loading gave what is written down as mounted.
pub open spec fn loaded(w: Scene, state_root: Seq<u8>, name: Seq<u8>) -> spec_fn(
    Scene,
    Result<Option<(Seq<u8>, ActivationModel)>, Trouble>,
) -> bool {
    |v: Scene, r: Result<Option<(Seq<u8>, ActivationModel)>, Trouble>|
        {
            &&& mounted::loads(w.disk, state::places(state_root, name))(v.disk, r)
            &&& v.reader.lines == w.reader.lines
        }
}

/// Loading prints nothing, and gives what is written down as mounted.
proof fn lemma_loaded(w: Scene, state_root: Seq<u8>, name: Seq<u8>)
    requires
        w.disk.sound(),
    ensures
        state::load_program(state::places(state_root, name)).meets(
            w,
            loaded(w, state_root, name),
        ),
{
    let load = state::load_program(state::places(state_root, name));
    let unsaid = told::unsaid::<Result<Option<(Seq<u8>, ActivationModel)>, Trouble>>(w.reader);
    let loads = mounted::loads(w.disk, state::places(state_root, name));
    mounted::law_load_tells(w.disk, state::places(state_root, name));
    assert(load.meets(w.reader, unsaid));
    lemma_scene(load, w, loads, unsaid);
    reason::lemma_weaken(
        load,
        w,
        |v: Scene, r: Result<Option<(Seq<u8>, ActivationModel)>, Trouble>|
            loads(v.disk, r) && unsaid(v.reader, r),
        loaded(w, state_root, name),
    );
}

/// What is listed is true: an image is listed as mounted where an activation is written down for it,
/// and as not mounted where nothing is.
pub proof fn law_list_true(w: Scene, state_root: Seq<u8>, images: Seq<(Seq<u8>, ImageModel)>)
    requires
        w.disk.sound(),
    ensures
        command::list_program(state_root, images).meets(
            w,
            told_of(w, images, lists_truly(w.disk, state_root)),
        ),
    decreases images.len(),
{
    let speaks = lists_truly(w.disk, state_root);
    let post = told_of(w, images, speaks);
    let lines = w.reader.lines;
    assert(lines.take(lines.len() as int) =~= lines);
    if images.len() > 0 {
        let name = images[0].0;
        let later = images.skip(1);
        lemma_loaded(w, state_root, name);
        assert forall|v: Scene, r: Result<Option<(Seq<u8>, ActivationModel)>, Trouble>, w1: Scene|
            #![trigger loaded(w, state_root, name)(v, r), command::list_program(state_root, later).meets(w1, post)]
            loaded(w, state_root, name)(v, r) && r is Ok && w1.disk == v.disk && w1.reader.lines
                == v.reader.lines.push(
                command::list_line(name, r->Ok_0 is Some),
            ) implies command::list_program(state_root, later).meets(w1, post) by {
            law_list_true(w1, state_root, later);
            assert(w1.reader.lines.take(lines.len() as int) =~= lines);
            assert(told::lists(w1.reader.lines.last(), name));
            assert(speaks(w1.reader.lines.last(), name));
            assert forall|u: Scene, q: Result<(), Trouble>| #[trigger]
                told_of(w1, later, speaks)(u, q) implies post(u, q) by {
                told::lemma_told(w.reader, w1.reader, u.reader, q, images, speaks);
            }
        }
    }
}

/// That the disk did not change, and one line was added if the operation succeeded, which tells of an
/// image; and else one at most.
pub open spec fn told_one(w: Scene, state_root: Seq<u8>, name: Seq<u8>) -> spec_fn(
    Scene,
    Result<(), Trouble>,
) -> bool {
    |v: Scene, r: Result<(), Trouble>|
        {
            let lines = w.reader.lines;
            &&& v.disk == w.disk
            &&& (v.reader.lines == lines && r is Err) || (v.reader.lines.len() == lines.len() + 1
                && v.reader.lines.take(lines.len() as int) == lines && describes_truly(
                w.disk,
                state_root,
            )(v.reader.lines.last(), name))
        }
}

/// Looking for drifts prints nothing, and finds none if and only if all stands.
proof fn lemma_found(w: Scene, a: ActivationModel)
    requires
        w.disk.sound(),
    ensures
        entry::tree_drifts_program(a.projection, a.root, Seq::empty()).meets(
            w,
            |v: Scene, t: Tally|
                standing::finds(w.disk, standing::tree_stands(w.disk, a.projection, a.root))(
                    v.disk,
                    t,
                ) && told::unsaid::<Tally>(w.reader)(v.reader, t),
        ),
{
    let p = entry::tree_drifts_program(a.projection, a.root, Seq::empty());
    standing::law_drifts_found(w.disk, a.projection, a.root);
    told::lemma_tree_drifts(w.reader, a.projection, a.root, Seq::empty());
    lemma_scene(
        p,
        w,
        standing::finds(w.disk, standing::tree_stands(w.disk, a.projection, a.root)),
        told::unsaid(w.reader),
    );
}

/// What is said of an image is true: that it is mounted where its tree stands, that it changed where
/// it does not, and that it is not mounted where nothing is written down.
pub proof fn law_standing_true(w: Scene, state_root: Seq<u8>, name: Seq<u8>)
    requires
        w.disk.sound(),
    ensures
        command::standing_program(state_root, name).meets(w, told_one(w, state_root, name)),
{
    let post = told_one(w, state_root, name);
    let lines = w.reader.lines;
    lemma_loaded(w, state_root, name);
    assert forall|line: Seq<u8>, v: Scene|
        #![trigger command::say_program(line).meets(v, post)]
        v.disk == w.disk && v.reader.lines == lines && describes_truly(w.disk, state_root)(
            line,
            name,
        ) implies command::say_program(line).meets(v, post) by {
        assert(lines.push(line).take(lines.len() as int) =~= lines);
    }
    assert forall|v: Scene, r: Result<Option<(Seq<u8>, ActivationModel)>, Trouble>| #[trigger]
        loaded(w, state_root, name)(v, r) && r is Ok implies (match r->Ok_0 {
        Some(found) => entry::tree_drifts_program(
            found.1.projection,
            found.1.root,
            Seq::empty(),
        ).bind(
            |t: Tally|
                match t.0 {
                    Ok(u) => command::say_program(
                        command::standing_line(name, found.1.root, t.1.len() > 0),
                    ),
                    Err(e) => program::fail(e),
                },
        ),
        None => command::say_program(bytes::text("unmounted\t"@) + name),
    }).meets(v, post) by {
        if r->Ok_0 is Some {
            let a = r->Ok_0->Some_0.1;
            lemma_found(v, a);
            assert forall|drifted: bool| drifted == !standing::tree_stands(
                w.disk,
                a.projection,
                a.root,
            ) implies #[trigger] describes_truly(w.disk, state_root)(
                command::standing_line(name, a.root, drifted),
                name,
            ) by {
                assert(told::describes(command::standing_line(name, a.root, drifted), name));
            }
        }
    }
}

/// What is said of the declared images is true.
pub proof fn law_status_true(w: Scene, state_root: Seq<u8>, images: Seq<(Seq<u8>, ImageModel)>)
    requires
        w.disk.sound(),
    ensures
        command::standings_program(state_root, images).meets(
            w,
            told_of(w, images, describes_truly(w.disk, state_root)),
        ),
    decreases images.len(),
{
    let speaks = describes_truly(w.disk, state_root);
    let post = told_of(w, images, speaks);
    let lines = w.reader.lines;
    assert(lines.take(lines.len() as int) =~= lines);
    if images.len() > 0 {
        let name = images[0].0;
        let later = images.skip(1);
        let one = told_one(w, state_root, name);
        law_standing_true(w, state_root, name);
        assert forall|w1: Scene, r: Result<(), Trouble>| #[trigger] one(w1, r) implies (match r {
            Ok(u) => command::standings_program(state_root, later),
            Err(e) => program::fail(e),
        }).meets(w1, post) by {
            if r is Ok {
                law_status_true(w1, state_root, later);
                assert forall|v: Scene, q: Result<(), Trouble>| #[trigger]
                    told_of(w1, later, speaks)(v, q) implies post(v, q) by {
                    told::lemma_told(w.reader, w1.reader, v.reader, q, images, speaks);
                }
            } else if w1.reader.lines.len() > lines.len() {
                let none = told::names_of(later).take(0);
                let more = w1.reader.lines;
                assert(more.take(more.len() as int) =~= more);
                assert(told::tell_of(more, more.len(), none, speaks));
                told::lemma_told(w.reader, w1.reader, w1.reader, r, images, speaks);
            }
        }
    }
}

} // verus!
