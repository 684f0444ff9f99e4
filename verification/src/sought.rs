//! That images, roots and the places of the state are found where they are said to be.
use vstd::prelude::*;

use crate::bytes;
use crate::command;
use crate::command::{Command, CommandModel, ManifestModel};
use crate::error::{Error, Refusal, Stage, Trouble};
use crate::host::{Answer, Kind, Metadata, Request};
use crate::path;
use crate::program;
use crate::program::{Event, Program};
use crate::projection::ImageModel;
use crate::reason::World;
use crate::session;

verus! {

broadcast use crate::reason::group_reason;

/// An environment that answers anything but for its variables, and notes what was asked and answered.
pub struct Setting {
    pub variables: Map<Seq<u8>, Seq<u8>>,
    pub events: Seq<Event>,
}

/// The value of a variable, if it is set.
pub open spec fn value_of(w: Setting, name: Seq<u8>) -> Option<Seq<u8>> {
    if w.variables.dom().contains(name) {
        Some(w.variables[name])
    } else {
        None
    }
}

impl World for Setting {
    open spec fn leads(self, request: Request, x: Answer, next: Setting) -> bool {
        &&& next.variables == self.variables
        &&& next.events == self.events.push(Event { request, answer: x })
        &&& request matches Request::Variable(name) ==> (x matches Answer::Value(value) ==> value
            == value_of(self, name))
    }
}

/// An image that is found for a name is declared under that very name, and under no name before it;
/// none is found only where none is declared under it.
pub proof fn law_declared(images: Seq<(Seq<u8>, ImageModel)>, name: Seq<u8>)
    ensures
        match command::declared(images, name) {
            Some(model) => exists|i: int|
                {
                    &&& 0 <= i < images.len()
                    &&& #[trigger] images[i] == (name, model)
                    &&& forall|j: int| 0 <= j < i ==> (#[trigger] images[j]).0 != name
                },
            None => forall|i: int| 0 <= i < images.len() ==> (#[trigger] images[i]).0 != name,
        },
    decreases images.len(),
{
    if images.len() > 0 && images[0].0 != name {
        let later = images.skip(1);
        law_declared(later, name);
        if command::declared(later, name) is Some {
            let model = command::declared(later, name)->Some_0;
            let i = choose|i: int|
                {
                    &&& 0 <= i < later.len()
                    &&& #[trigger] later[i] == (name, model)
                    &&& forall|j: int| 0 <= j < i ==> (#[trigger] later[j]).0 != name
                };
            assert(images[i + 1] == (name, model));
            assert forall|j: int| 0 <= j < i + 1 implies (#[trigger] images[j]).0 != name by {
                if j > 0 {
                    assert(later[j - 1] == images[j]);
                }
            }
        } else {
            assert forall|i: int| 0 <= i < images.len() implies (#[trigger] images[i]).0 != name by {
                if i > 0 {
                    assert(later[i - 1] == images[i]);
                }
            }
        }
    } else if images.len() > 0 {
        assert(images[0] == (name, images[0].1));
    }
}

/// Where the names of a manifest differ, the image of each item is found under its name.
pub proof fn law_declared_each(images: Seq<(Seq<u8>, ImageModel)>, i: int)
    requires
        0 <= i < images.len(),
        forall|j: int, k: int|
            0 <= j < k < images.len() ==> (#[trigger] images[j]).0 != (#[trigger] images[k]).0,
    ensures
        command::declared(images, images[i].0) == Some(images[i].1),
{
    let name = images[i].0;
    law_declared(images, name);
    if command::declared(images, name) is None {
        assert(images[i].0 != name);
    } else {
        let model = command::declared(images, name)->Some_0;
        let k = choose|k: int|
            {
                &&& 0 <= k < images.len()
                &&& #[trigger] images[k] == (name, model)
                &&& forall|j: int| 0 <= j < k ==> (#[trigger] images[j]).0 != name
            };
        if k != i {
            assert(images[k].0 == images[i].0);
        }
    }
}

/// Mounting or refreshing an image under whose name nothing is declared is refused, and nothing is
/// asked.
pub proof fn law_unknown_image(
    state_root: Seq<u8>,
    image: Seq<u8>,
    manifest: ManifestModel,
    refreshing: bool,
)
    requires
        forall|i: int|
            0 <= i < manifest.images.len() ==> (#[trigger] manifest.images[i]).0 != image,
    ensures
        command::establish_program(state_root, image, manifest, refreshing) == Program::<
            Result<(), Trouble>,
        >::Done(Err(Error::Refused(Refusal::UnknownImage, image))),
{
    law_declared(manifest.images, image);
}

/// A name is that of an entry if and only if it is not empty, no dot or two, and holds no slash.
pub proof fn law_plain(name: Seq<u8>)
    ensures
        path::is_plain(name) <==> {
            &&& name.len() > 0
            &&& name != bytes::text("."@)
            &&& name != bytes::text(".."@)
            &&& forall|i: int| 0 <= i < name.len() ==> #[trigger] name[i] != 47
        },
{
    reveal_strlit(".");
    reveal_strlit("..");
    vstd::utf8::is_ascii_chars_encode_utf8("."@);
    vstd::utf8::is_ascii_chars_encode_utf8(".."@);
    assert(bytes::text("."@) =~= seq![46u8]);
    assert(bytes::text(".."@) =~= seq![46u8, 46u8]);
    if forall|i: int| 0 <= i < name.len() ==> #[trigger] name[i] != 47 {
        assert(!name.contains(47u8));
    }
}

/// The names in a command.
pub open spec fn mentions(command: CommandModel, name: Seq<u8>) -> bool {
    match command {
        Command::Mount { image } => name == image,
        Command::Refresh { image } => name == image,
        Command::Unmount { image } => name == image,
        Command::Check { image, .. } => name == image,
        Command::Status { image } => image == Some(name),
        Command::List => false,
    }
}

/// A command is refused for its name if and only if it mentions a name that is not that of an entry.
pub proof fn law_command_named(command: CommandModel)
    ensures
        command::command_named(command) is Ok <==> forall|name: Seq<u8>| #[trigger]
            mentions(command, name) ==> path::is_plain(name),
        command::command_named(command) matches Err(e) ==> exists|name: Seq<u8>| #[trigger]
            mentions(command, name) && !path::is_plain(name) && e == Error::<Seq<u8>>::Refused(
                Refusal::InvalidName,
                name,
            ),
{
    match command {
        Command::Mount { image } => {
            assert(mentions(command, image));
        },
        Command::Refresh { image } => {
            assert(mentions(command, image));
        },
        Command::Unmount { image } => {
            assert(mentions(command, image));
        },
        Command::Check { image, .. } => {
            assert(mentions(command, image));
        },
        Command::Status { image: Some(image) } => {
            assert(mentions(command, image));
        },
        _ => {},
    }
}

/// The names of a manifest are accepted if and only if each is that of an entry.
pub proof fn law_all_named(images: Seq<(Seq<u8>, ImageModel)>)
    ensures
        command::all_named(images) is Ok <==> forall|i: int|
            0 <= i < images.len() ==> path::is_plain((#[trigger] images[i]).0),
    decreases images.len(),
{
    if images.len() > 0 {
        let later = images.skip(1);
        law_all_named(later);
        if command::all_named(images) is Ok {
            assert forall|i: int| 0 <= i < images.len() implies path::is_plain(
                (#[trigger] images[i]).0,
            ) by {
                if i > 0 {
                    assert(later[i - 1] == images[i]);
                }
            }
        }
        if forall|i: int| 0 <= i < images.len() ==> path::is_plain((#[trigger] images[i]).0) {
            assert(path::is_plain(images[0].0));
            assert forall|i: int| 0 <= i < later.len() implies path::is_plain(
                (#[trigger] later[i]).0,
            ) by {
                assert(later[i] == images[i + 1]);
            }
        }
    }
}

/// Whether it was noted that a request was answered so.
pub open spec fn noted(v: Setting, request: Request, answer: Answer) -> bool {
    v.events.contains(Event { request, answer })
}

/// What is noted last is noted.
pub proof fn lemma_noted(v: Setting, request: Request, answer: Answer, w: Setting)
    requires
        w.events == v.events.push(Event { request, answer }),
    ensures
        noted(w, request, answer),
        forall|a: Request, x: Answer| #[trigger] noted(v, a, x) ==> noted(w, a, x),
{
    assert(w.events[v.events.len() as int] == Event { request, answer });
    assert forall|a: Request, x: Answer| #[trigger] noted(v, a, x) implies noted(w, a, x) by {
        let i = choose|i: int|
            0 <= i < v.events.len() && v.events[i] == Event { request: a, answer: x };
        assert(w.events[i] == v.events[i]);
    }
}

/// The manifest that is used is the one that is written at the given path, and all its names are names
/// of entries.
pub proof fn law_manifest(w: Setting, p: Seq<u8>)
    ensures
        command::manifest_program(p).meets(
            w,
            |v: Setting, r: Result<ManifestModel, Trouble>|
                r matches Ok(m) ==> {
                    &&& forall|i: int|
                        0 <= i < m.images.len() ==> path::is_plain((#[trigger] m.images[i]).0)
                    &&& exists|form: Seq<u8>|
                        #[trigger] noted(v, Request::ReadFile(p), Answer::Data(form)) && noted(
                            v,
                            Request::DecodeManifest(form),
                            Answer::Manifest(m),
                        )
                },
        ),
{
    let post = |v: Setting, r: Result<ManifestModel, Trouble>|
        r matches Ok(m) ==> {
            &&& forall|i: int|
                0 <= i < m.images.len() ==> path::is_plain((#[trigger] m.images[i]).0)
            &&& exists|form: Seq<u8>|
                #[trigger] noted(v, Request::ReadFile(p), Answer::Data(form)) && noted(
                    v,
                    Request::DecodeManifest(form),
                    Answer::Manifest(m),
                )
        };
    assert forall|x: Answer, w1: Setting| #[trigger]
        w.leads(Request::ReadFile(p), x, w1) && x is Data implies session::decode_manifest(
        x->Data_0,
    ).and_then(
        |manifest: ManifestModel|
            match command::all_named(manifest.images) {
                Ok(u) => program::give(manifest),
                Err(e) => program::fail(e),
            },
    ).meets(w1, post) by {
        let form = x->Data_0;
        lemma_noted(w, Request::ReadFile(p), x, w1);
        assert forall|y: Answer, w2: Setting| #[trigger]
            w1.leads(Request::DecodeManifest(form), y, w2) && y is Manifest
                && command::all_named(y->Manifest_0.images) is Ok implies post(
            w2,
            Ok(y->Manifest_0),
        ) by {
            law_all_named(y->Manifest_0.images);
            lemma_noted(w1, Request::DecodeManifest(form), y, w2);
            assert(noted(w2, Request::ReadFile(p), Answer::Data(form)));
        }
    }
}

/// Where the states are kept: where it is said, else in `tohru` below the state home, which is that of
/// the environment, or `.local/state` in the home directory.
pub open spec fn keeps_states(w: Setting, given: Option<Seq<u8>>) -> Option<Seq<u8>> {
    let tohru = bytes::text("tohru"@);
    match (given, value_of(w, bytes::text("XDG_STATE_HOME"@)), value_of(w, bytes::text("HOME"@))) {
        (Some(p), _, _) => Some(p),
        (None, Some(dir), _) => Some(path::join(dir, tohru)),
        (None, None, Some(home)) => Some(
            path::join(path::join(home, bytes::text(".local/state"@)), tohru),
        ),
        (None, None, None) => None,
    }
}

/// The states are found where they are kept, and are not looked for where that is said.
pub proof fn law_state_root(w: Setting, given: Option<Seq<u8>>)
    ensures
        command::state_root_program(given).meets(
            w,
            |v: Setting, r: Result<Seq<u8>, Trouble>|
                {
                    &&& v.variables == w.variables
                    &&& r matches Ok(p) ==> keeps_states(w, given) == Some(p)
                    &&& given is Some ==> r is Ok && v == w
                },
        ),
{
}

/// The tool that is to show differences: the one that is given, else that of the environment, else
/// `diff`.
pub open spec fn tool_of(w: Setting, given: Option<Seq<u8>>) -> Seq<u8> {
    match (given, value_of(w, bytes::text("TOHRU_DIFF_TOOL"@))) {
        (Some(tool), _) => tool,
        (None, Some(tool)) => tool,
        (None, None) => bytes::text("diff"@),
    }
}

/// The tool that shows differences is the one that is to.
pub proof fn law_tool(w: Setting, given: Option<Seq<u8>>)
    ensures
        command::tool_program(given).meets(
            w,
            |v: Setting, r: Result<Seq<u8>, Trouble>|
                {
                    &&& v.variables == w.variables
                    &&& r matches Ok(tool) ==> tool == tool_of(w, given)
                    &&& given is Some ==> r is Ok && v == w
                },
        ),
{
}

/// Whether `p` is what a declared root is a way to write: a tilde stands for the home directory, alone
/// or before a slash, and any other root for itself.
pub open spec fn stands_for(w: Setting, root: Seq<u8>, p: Seq<u8>) -> bool {
    let home = value_of(w, bytes::text("HOME"@));
    &&& root == seq![126u8] ==> home == Some(p)
    &&& root.len() >= 2 && root[0] == 126 && root[1] == 47 ==> (home matches Some(h) && p
        == path::join(h, root.skip(2)))
    &&& root.len() == 0 || root[0] != 126 ==> p == root
    &&& root.len() >= 2 && root[1] != 47 ==> p == root
}

/// The root that is found for a declared root is the path, without symbolic links, of what the declared
/// root is a way to write; that was seen to be a directory.
#[verifier::rlimit(30)]
pub proof fn law_resolve(w: Setting, root: Seq<u8>)
    ensures
        command::resolve_program(root).meets(
            w,
            |v: Setting, r: Result<Seq<u8>, Trouble>|
                r matches Ok(found) ==> exists|p: Seq<u8>, m: u32|
                    {
                        &&& stands_for(w, root, p)
                        &&& path::absolute(p)
                        &&& #[trigger] noted(
                            v,
                            Request::Stat(p),
                            Answer::Stats(
                                (Metadata { kind: Kind::Directory, mode: m }),
                            ),
                        )
                        &&& noted(v, Request::Canonicalize(p), Answer::Data(found))
                    },
        ),
{
    let post = |v: Setting, r: Result<Seq<u8>, Trouble>|
        r matches Ok(found) ==> exists|p: Seq<u8>, m: u32|
            {
                &&& stands_for(w, root, p)
                &&& path::absolute(p)
                &&& #[trigger] noted(
                    v,
                    Request::Stat(p),
                    Answer::Stats((Metadata { kind: Kind::Directory, mode: m })),
                )
                &&& noted(v, Request::Canonicalize(p), Answer::Data(found))
            };
    let way = |v: Setting, r: Result<Seq<u8>, Trouble>| r matches Ok(p) ==> stands_for(w, root, p);
    lemma_expand(w, root);
    assert forall|v: Setting, p: Seq<u8>, x: Answer, w1: Setting, y: Answer, w2: Setting|
        #![trigger v.leads(Request::Stat(p), x, w1), w1.leads(Request::Canonicalize(p), y, w2)]
        stands_for(w, root, p) && path::absolute(p) && v.leads(Request::Stat(p), x, w1)
            && x is Stats && x->Stats_0.kind is Directory && w1.leads(
            Request::Canonicalize(p),
            y,
            w2,
        ) && y is Data implies post(w2, Ok(y->Data_0)) by {
        let m = x->Stats_0;
        lemma_noted(v, Request::Stat(p), x, w1);
        lemma_noted(w1, Request::Canonicalize(p), y, w2);
        assert(m == Metadata { kind: Kind::Directory, mode: m.mode });
        assert(noted(
            w2,
            Request::Stat(p),
            Answer::Stats((Metadata { kind: Kind::Directory, mode: m.mode })),
        ));
    }
    assert forall|v: Setting, r: Result<Seq<u8>, Trouble>| #[trigger]
        way(v, r) && r is Ok implies (if !path::absolute(r->Ok_0) {
        program::fail(Error::Refused(Refusal::RootNotAbsolute, root))
    } else {
        session::stat(r->Ok_0).bind(
            |m: Result<Metadata, Trouble>|
                match m {
                    Ok(m) => if m.kind is Directory {
                        session::data(Request::Canonicalize(r->Ok_0))
                    } else {
                        program::fail(Error::Refused(Refusal::RootNotDirectory, r->Ok_0))
                    },
                    Err(e) => program::fail(
                        Error::Within(Stage::ReadRoot, r->Ok_0, Box::new(e)),
                    ),
                },
        )
    }).meets(v, post) by {}
}

/// A declared root is a way to write the path that it is expanded to.
proof fn lemma_expand(w: Setting, root: Seq<u8>)
    ensures
        command::expand_program(root).meets(
            w,
            |v: Setting, r: Result<Seq<u8>, Trouble>|
                r matches Ok(p) ==> stands_for(w, root, p),
        ),
{
    reveal_strlit("~");
    reveal_strlit("~/");
    vstd::utf8::is_ascii_chars_encode_utf8("~"@);
    vstd::utf8::is_ascii_chars_encode_utf8("~/"@);
    assert(bytes::text("~"@) =~= seq![126u8]);
    assert(bytes::text("~/"@) =~= seq![126u8, 47u8]);
    if root.len() >= 2 {
        assert(root.take(2) =~= seq![root[0], root[1]]);
    }
}

/// A root that is neither absolute nor begins with a tilde is refused, and nothing is asked.
pub proof fn law_root_refused(root: Seq<u8>)
    requires
        root.len() > 0 ==> root[0] != 126 && root[0] != 47,
    ensures
        command::resolve_program(root) == Program::<Result<Seq<u8>, Trouble>>::Done(
            Err(Error::Refused(Refusal::RootNotAbsolute, root)),
        ),
{
    reveal_strlit("~");
    reveal_strlit("~/");
    vstd::utf8::is_ascii_chars_encode_utf8("~"@);
    vstd::utf8::is_ascii_chars_encode_utf8("~/"@);
    assert(bytes::text("~"@) =~= seq![126u8]);
    assert(bytes::text("~/"@) =~= seq![126u8, 47u8]);
    if root.len() >= 2 {
        assert(root.take(2)[0] == root[0]);
    }
}

} // verus!
