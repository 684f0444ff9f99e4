//! The commands.
use vstd::prelude::*;

use crate::bytes;
use crate::entry;
use crate::entry::{Drift, Tally};
use crate::error;
use crate::error::{Error, Refusal, Stage, Trouble};
use crate::host;
use crate::host::{Action, Host, Metadata, Request};
use crate::path;
use crate::placing;
use crate::program;
use crate::program::Program;
use crate::projection;
use crate::projection::{Image, ImageModel};
use crate::session;
use crate::session::Session;
use crate::state;
use crate::state::{ActivationModel, StatePaths};
use crate::tree::{Forest, Tree};

verus! {

broadcast use crate::program::group_program;

/// The declared images, in the order of their names, each once.
#[derive(Debug)]
pub struct Manifest {
    pub images: Vec<(String, Image)>,
}

/// A manifest as contracts speak of it.
pub struct ManifestModel {
    pub images: Seq<(Seq<u8>, ImageModel)>,
}

impl View for Manifest {
    type V = ManifestModel;

    open spec fn view(&self) -> ManifestModel {
        ManifestModel {
            images: self.images@.map_values(
                |item: (String, Image)| (bytes::text(item.0@), item.1@),
            ),
        }
    }
}

/// What is to be done.
#[allow(inconsistent_fields)]
#[derive(Debug)]
pub enum Command<N = String, B = Vec<u8>> {
    Mount { image: N },
    Refresh { image: N },
    Unmount { image: N },
    Check { image: N, fix: bool, diff: bool, diff_tool: Option<B> },
    Status { image: Option<N> },
    List,
}

/// A command as contracts speak of it.
pub type CommandModel = Command<Seq<u8>, Seq<u8>>;

impl View for Command {
    type V = CommandModel;

    open spec fn view(&self) -> CommandModel {
        match *self {
            Command::Mount { image } => Command::Mount { image: bytes::text(image@) },
            Command::Refresh { image } => Command::Refresh { image: bytes::text(image@) },
            Command::Unmount { image } => Command::Unmount { image: bytes::text(image@) },
            Command::Check { image, fix, diff, diff_tool } => Command::Check {
                image: bytes::text(image@),
                fix,
                diff,
                diff_tool: host::maybe(diff_tool),
            },
            Command::Status { image: Some(name) } => Command::Status {
                image: Some(bytes::text(name@)),
            },
            Command::Status { image: None } => Command::Status { image: None },
            Command::List => Command::List,
        }
    }
}

/// What the program was called with.
#[derive(Debug)]
pub struct Arguments {
    pub manifest: Option<Vec<u8>>,
    pub state: Option<Vec<u8>>,
    pub command: Command,
}

/// Arguments as contracts speak of them.
pub struct ArgumentsModel {
    pub manifest: Option<Seq<u8>>,
    pub state: Option<Seq<u8>>,
    pub command: CommandModel,
}

impl View for Arguments {
    type V = ArgumentsModel;

    open spec fn view(&self) -> ArgumentsModel {
        ArgumentsModel {
            manifest: host::maybe(self.manifest),
            state: host::maybe(self.state),
            command: self.command@,
        }
    }
}

/// The refusal of a name that is not a single component of a path.
pub open spec fn invalid_name(name: Seq<u8>) -> Trouble {
    Error::Refused(Refusal::InvalidName, name)
}

/// Whether a name is a single component of a path, or the refusal of it.
pub open spec fn named(name: Seq<u8>) -> Result<(), Trouble> {
    if path::is_plain(name) {
        Ok(())
    } else {
        Err(invalid_name(name))
    }
}

/// Whether all names in a manifest are single components of paths, or the refusal of the first
/// that is not.
pub open spec fn all_named(images: Seq<(Seq<u8>, ImageModel)>) -> Result<(), Trouble>
    decreases images.len(),
{
    if images.len() == 0 {
        Ok(())
    } else {
        match named(images[0].0) {
            Ok(u) => all_named(images.skip(1)),
            Err(e) => Err(e),
        }
    }
}

/// Whether the name in a command, if there is one, is a single component of a path.
pub open spec fn command_named(command: CommandModel) -> Result<(), Trouble> {
    match command {
        Command::Mount { image } => named(image),
        Command::Refresh { image } => named(image),
        Command::Unmount { image } => named(image),
        Command::Check { image, .. } => named(image),
        Command::Status { image: Some(image) } => named(image),
        Command::Status { image: None } => Ok(()),
        Command::List => Ok(()),
    }
}

/// The declared image called `name`.
pub open spec fn declared(images: Seq<(Seq<u8>, ImageModel)>, name: Seq<u8>) -> Option<ImageModel>
    decreases images.len(),
{
    if images.len() == 0 {
        None
    } else if images[0].0 == name {
        Some(images[0].1)
    } else {
        declared(images.skip(1), name)
    }
}

/// The home directory.
pub open spec fn home_program() -> Program<Result<Seq<u8>, Trouble>> {
    session::variable(bytes::text("HOME"@)).and_then(
        |value: Option<Seq<u8>>|
            match value {
                Some(home) => program::give(home),
                None => program::fail(Error::Refused(Refusal::NoHome, Seq::empty())),
            },
    )
}

/// The path that a declared root stands for: `~` is the home directory.
pub open spec fn expand_program(root: Seq<u8>) -> Program<Result<Seq<u8>, Trouble>> {
    if root == bytes::text("~"@) {
        home_program()
    } else if bytes::begins(root, bytes::text("~/"@)) {
        home_program().and_then(|home: Seq<u8>| program::give(path::join(home, root.skip(2))))
    } else {
        program::give(root)
    }
}

/// The root that a declared root stands for; it is a directory, and the path to it goes through
/// no symbolic link.
pub open spec fn resolve_program(root: Seq<u8>) -> Program<Result<Seq<u8>, Trouble>> {
    expand_program(root).and_then(
        |p: Seq<u8>|
            if !path::absolute(p) {
                program::fail(Error::Refused(Refusal::RootNotAbsolute, root))
            } else {
                session::stat(p).bind(
                    |m: Result<Metadata, Trouble>|
                        match m {
                            Ok(m) => if m.kind is Directory {
                                session::data(Request::Canonicalize(p))
                            } else {
                                program::fail(Error::Refused(Refusal::RootNotDirectory, p))
                            },
                            Err(e) => program::fail(
                                Error::Within(Stage::ReadRoot, p, Box::new(e)),
                            ),
                        },
                )
            },
    )
}

/// Says a line, and ends.
pub open spec fn say_program(line: Seq<u8>) -> Program<Result<(), Trouble>> {
    session::tell(Request::Print(line)).bind(|u: ()| program::give(()))
}

/// The line that tells of a drift.
pub open spec fn drift_line(drift: Drift<Seq<u8>>) -> Seq<u8> {
    bytes::text(drift.word()) + bytes::text("\t"@) + drift.at()
}

/// Says what drifted.
pub open spec fn report_program(drifts: Seq<Drift<Seq<u8>>>) -> Program<()>
    decreases drifts.len(),
{
    if drifts.len() == 0 {
        Program::Done(())
    } else {
        session::tell(Request::Print(drift_line(drifts[0]))).bind(
            |u: ()| report_program(drifts.skip(1)),
        )
    }
}

/// The tool that shows differences: as given, else as the environment says, else `diff`.
pub open spec fn tool_program(given: Option<Seq<u8>>) -> Program<Result<Seq<u8>, Trouble>> {
    match given {
        Some(tool) => program::give(tool),
        None => session::variable(bytes::text("TOHRU_DIFF_TOOL"@)).and_then(
            |value: Option<Seq<u8>>|
                match value {
                    Some(tool) => program::give(tool),
                    None => program::give(bytes::text("diff"@)),
                },
        ),
    }
}

/// Runs the tool on every copy that drifted and what it should be like.
pub open spec fn diffs_program(tool: Seq<u8>, drifts: Seq<Drift<Seq<u8>>>) -> Program<
    Result<(), Trouble>,
>
    decreases drifts.len(),
{
    if drifts.len() == 0 {
        program::give(())
    } else {
        match drifts[0].model() {
            Some(source) => session::act(
                Request::Attach(seq![tool, source, drifts[0].at()]),
            ).bind(
                |r: Result<(), Trouble>|
                    match r {
                        Ok(u) => diffs_program(tool, drifts.skip(1)),
                        Err(e) => program::fail(
                            Error::Within(Stage::DiffTool, tool, Box::new(e)),
                        ),
                    },
            ),
            None => diffs_program(tool, drifts.skip(1)),
        }
    }
}

/// Shows the differences if asked to.
pub open spec fn show_program(
    diff: bool,
    given: Option<Seq<u8>>,
    drifts: Seq<Drift<Seq<u8>>>,
) -> Program<Result<(), Trouble>> {
    if diff {
        tool_program(given).and_then(|tool: Seq<u8>| diffs_program(tool, drifts))
    } else {
        program::give(())
    }
}

/// Repairs what drifted if asked to, else fails.
pub open spec fn mend_program(image: Seq<u8>, fix: bool, a: ActivationModel) -> Program<
    Result<(), Trouble>,
> {
    if fix {
        placing::tree_repair_program(a.projection, a.root).and_then(
            |u: ()| say_program(bytes::text("repaired "@) + image),
        )
    } else {
        program::fail(Error::Refused(Refusal::ImageChanged, image))
    }
}

/// Looks whether a mounted image is as it was left.
pub open spec fn check_program(
    paths: StatePaths<Seq<u8>>,
    image: Seq<u8>,
    fix: bool,
    diff: bool,
    given: Option<Seq<u8>>,
) -> Program<Result<(), Trouble>> {
    state::load_program(paths).and_then(
        |current: Option<(Seq<u8>, ActivationModel)>|
            match current {
                Some(found) => entry::tree_drifts_program(
                    found.1.projection,
                    found.1.root,
                    Seq::empty(),
                ).bind(
                    |t: Tally|
                        match t.0 {
                            Ok(u) => if t.1.len() == 0 {
                                say_program(image + bytes::text(" is intact"@))
                            } else {
                                report_program(t.1).bind(
                                    |u: ()|
                                        show_program(diff, given, t.1).and_then(
                                            |u: ()| mend_program(image, fix, found.1),
                                        ),
                                )
                            },
                            Err(e) => program::fail(e),
                        },
                ),
                None => program::fail(state::not_mounted(image)),
            },
    )
}

/// The line that tells how a mounted image stands.
pub open spec fn standing_line(name: Seq<u8>, root: Seq<u8>, drifted: bool) -> Seq<u8> {
    let word = if drifted {
        bytes::text("changed\t"@)
    } else {
        bytes::text("mounted\t"@)
    };
    word + name + bytes::text("\t"@) + root
}

/// Says how an image stands.
pub open spec fn standing_program(state_root: Seq<u8>, name: Seq<u8>) -> Program<
    Result<(), Trouble>,
> {
    state::load_program(state::places(state_root, name)).and_then(
        |current: Option<(Seq<u8>, ActivationModel)>|
            match current {
                Some(found) => entry::tree_drifts_program(
                    found.1.projection,
                    found.1.root,
                    Seq::empty(),
                ).bind(
                    |t: Tally|
                        match t.0 {
                            Ok(u) => say_program(
                                standing_line(name, found.1.root, t.1.len() > 0),
                            ),
                            Err(e) => program::fail(e),
                        },
                ),
                None => say_program(bytes::text("unmounted\t"@) + name),
            },
    )
}

/// Says how all declared images stand.
pub open spec fn standings_program(
    state_root: Seq<u8>,
    images: Seq<(Seq<u8>, ImageModel)>,
) -> Program<Result<(), Trouble>>
    decreases images.len(),
{
    if images.len() == 0 {
        program::give(())
    } else {
        standing_program(state_root, images[0].0).and_then(
            |u: ()| standings_program(state_root, images.skip(1)),
        )
    }
}

/// Says how an image stands, or all.
pub open spec fn status_program(
    state_root: Seq<u8>,
    image: Option<Seq<u8>>,
    manifest: ManifestModel,
) -> Program<Result<(), Trouble>> {
    match image {
        Some(name) => standing_program(state_root, name),
        None => standings_program(state_root, manifest.images),
    }
}

/// The line that tells whether an image is mounted.
pub open spec fn list_line(name: Seq<u8>, mounted: bool) -> Seq<u8> {
    if mounted {
        bytes::text("mounted\t"@) + name
    } else {
        bytes::text("unmounted\t"@) + name
    }
}

/// Says of all declared images whether they are mounted.
pub open spec fn list_program(state_root: Seq<u8>, images: Seq<(Seq<u8>, ImageModel)>) -> Program<
    Result<(), Trouble>,
>
    decreases images.len(),
{
    if images.len() == 0 {
        program::give(())
    } else {
        state::load_program(state::places(state_root, images[0].0)).and_then(
            |current: Option<(Seq<u8>, ActivationModel)>|
                session::tell(Request::Print(list_line(images[0].0, current is Some))).bind(
                    |u: ()| list_program(state_root, images.skip(1)),
                ),
        )
    }
}

/// Fails where an image that is to be refreshed is not mounted.
pub open spec fn mounted_program(
    paths: StatePaths<Seq<u8>>,
    image: Seq<u8>,
    refreshing: bool,
) -> Program<Result<(), Trouble>> {
    if refreshing {
        state::load_program(paths).and_then(
            |current: Option<(Seq<u8>, ActivationModel)>|
                match current {
                    Some(found) => program::give(()),
                    None => program::fail(state::not_mounted(image)),
                },
        )
    } else {
        program::give(())
    }
}

/// The line that tells that an image was mounted.
pub open spec fn mount_line(image: Seq<u8>, root: Seq<u8>, refreshing: bool) -> Seq<u8> {
    let word = if refreshing {
        bytes::text("refreshed "@)
    } else {
        bytes::text("mounted "@)
    };
    word + image + bytes::text(" at "@) + root
}

/// Mounts a declared image, and says so.
pub open spec fn establish_program(
    state_root: Seq<u8>,
    image: Seq<u8>,
    manifest: ManifestModel,
    refreshing: bool,
) -> Program<Result<(), Trouble>> {
    match declared(manifest.images, image) {
        None => program::fail(Error::Refused(Refusal::UnknownImage, image)),
        Some(model) => resolve_program(model.root).and_then(
            |root: Seq<u8>|
                projection::compile_program(model).and_then(
                    |f: Forest|
                        mounted_program(
                            state::places(state_root, image),
                            image,
                            refreshing,
                        ).and_then(
                            |u: ()|
                                state::mount_program(
                                    state::places(state_root, image),
                                    image,
                                    root,
                                    f,
                                ).and_then(
                                    |u: ()| say_program(mount_line(image, root, refreshing)),
                                ),
                        ),
                ),
        ),
    }
}

/// Does what a command says.
pub open spec fn dispatch_program(
    state_root: Seq<u8>,
    manifest: ManifestModel,
    command: CommandModel,
) -> Program<Result<(), Trouble>> {
    match command {
        Command::Mount { image } => establish_program(state_root, image, manifest, false),
        Command::Refresh { image } => establish_program(state_root, image, manifest, true),
        Command::Unmount { image } => state::unmount_program(
            state::places(state_root, image),
            image,
        ),
        Command::Check { image, fix, diff, diff_tool } => check_program(
            state::places(state_root, image),
            image,
            fix,
            diff,
            diff_tool,
        ),
        Command::Status { image } => status_program(state_root, image, manifest),
        Command::List => list_program(state_root, manifest.images),
    }
}

/// Where the states are kept: as given, else as the environment says.
pub open spec fn state_root_program(given: Option<Seq<u8>>) -> Program<Result<Seq<u8>, Trouble>> {
    match given {
        Some(p) => program::give(p),
        None => session::variable(bytes::text("XDG_STATE_HOME"@)).and_then(
            |value: Option<Seq<u8>>|
                match value {
                    Some(dir) => program::give(path::join(dir, bytes::text("tohru"@))),
                    None => session::variable(bytes::text("HOME"@)).and_then(
                        |value: Option<Seq<u8>>|
                            match value {
                                Some(home) => program::give(
                                    path::join(
                                        path::join(home, bytes::text(".local/state"@)),
                                        bytes::text("tohru"@),
                                    ),
                                ),
                                None => program::fail(
                                    Error::Refused(Refusal::NoStateHome, Seq::empty()),
                                ),
                            },
                    ),
                },
        ),
    }
}

/// The manifest that is written at `p`, with valid names.
pub open spec fn manifest_program(p: Seq<u8>) -> Program<Result<ManifestModel, Trouble>> {
    session::data(Request::ReadFile(p)).bind(
        |r: Result<Seq<u8>, Trouble>|
            match r {
                Ok(form) => session::decode_manifest(form).and_then(
                    |manifest: ManifestModel|
                        match all_named(manifest.images) {
                            Ok(u) => program::give(manifest),
                            Err(e) => program::fail(e),
                        },
                ),
                Err(e) => program::fail(Error::Within(Stage::ReadManifest, p, Box::new(e))),
            },
    )
}

/// Takes the lock in the directory of the states, recovers all images, and does what a command
/// says.
pub open spec fn locked_program(
    state_root: Seq<u8>,
    manifest: ManifestModel,
    command: CommandModel,
) -> Program<Result<(), Trouble>> {
    session::act(Request::CreateDirs(state_root)).and_then(
        |u: ()|
            session::act(Request::Lock(path::join(state_root, bytes::text("lock"@)))).and_then(
                |u: ()|
                    state::recover_all_program(state_root).and_then(
                        |u: ()| dispatch_program(state_root, manifest, command),
                    ),
            ),
    )
}

/// Does what the arguments say.
pub open spec fn run_program(arguments: ArgumentsModel) -> Program<Result<(), Trouble>> {
    match command_named(arguments.command) {
        Err(e) => program::fail(e),
        Ok(u) => match arguments.manifest {
            None => program::fail(Error::Refused(Refusal::NoManifest, Seq::empty())),
            Some(p) => manifest_program(p).and_then(
                |manifest: ManifestModel|
                    state_root_program(arguments.state).and_then(
                        |state_root: Seq<u8>|
                            locked_program(state_root, manifest, arguments.command),
                    ),
            ),
        },
    }
}

/// Whether `name` is a single component of a path, written as itself.
pub fn validate_name(name: &str) -> (r: Result<(), Error>)
    ensures
        error::outcome(r) == named(bytes::text(name@)),
        r is Ok <==> path::is_plain(bytes::text(name@)),
{
    let written = bytes::literal(name);
    if path::plain(&written) {
        Ok(())
    } else {
        Err(Error::Refused(Refusal::InvalidName, written))
    }
}

/// Whether all names in a manifest are single components of paths.
pub fn validate_names(manifest: &Manifest) -> (r: Result<(), Error>)
    ensures
        error::outcome(r) == all_named(manifest@.images),
{
    let ghost list = manifest@.images;
    let mut i: usize = 0;
    assert(list.skip(0) =~= list);
    while i < manifest.images.len()
        invariant
            list == manifest@.images,
            i <= manifest.images.len(),
            all_named(list) == all_named(list.skip(i as int)),
        decreases manifest.images.len() - i,
    {
        assert(list.skip(i as int)[0].0 == bytes::text(manifest.images@[i as int].0@));
        assert(list.skip(i as int).skip(1) =~= list.skip(i + 1));
        validate_name(manifest.images[i].0.as_str())?;
        i += 1;
    }
    Ok(())
}

/// The place of the declared image called `name`.
pub fn find_image(manifest: &Manifest, name: &str) -> (r: Option<usize>)
    ensures
        match r {
            Some(i) => i < manifest.images.len() && declared(
                manifest@.images,
                bytes::text(name@),
            ) == Some(manifest.images@[i as int].1@) && bytes::text(
                manifest.images@[i as int].0@,
            ) == bytes::text(name@) && forall|j: int|
                0 <= j < i ==> bytes::text((#[trigger] manifest.images@[j]).0@) != bytes::text(
                    name@,
                ),
            None => declared(manifest@.images, bytes::text(name@)) is None && forall|j: int|
                0 <= j < manifest.images.len() ==> bytes::text(
                    (#[trigger] manifest.images@[j]).0@,
                ) != bytes::text(name@),
        },
{
    let ghost list = manifest@.images;
    let wanted = bytes::literal(name);
    let mut i: usize = 0;
    assert(list.skip(0) =~= list);
    while i < manifest.images.len()
        invariant
            list == manifest@.images,
            wanted@ == bytes::text(name@),
            i <= manifest.images.len(),
            declared(list, wanted@) == declared(list.skip(i as int), wanted@),
            forall|j: int|
                0 <= j < i ==> bytes::text((#[trigger] manifest.images@[j]).0@) != bytes::text(
                    name@,
                ),
        decreases manifest.images.len() - i,
    {
        assert(list.skip(i as int)[0] == (
            bytes::text(manifest.images@[i as int].0@),
            manifest.images@[i as int].1@,
        ));
        assert(list.skip(i as int).skip(1) =~= list.skip(i + 1));
        let found = bytes::literal(manifest.images[i].0.as_str());
        if bytes::same(&found, &wanted) {
            return Some(i);
        }
        i += 1;
    }
    None
}

/// The home directory.
fn home<H: Host>(s: &mut Session<H>) -> (r: Result<Vec<u8>, Error>)
    ensures
        home_program().ran(old(s)@, final(s)@, error::result(r)),
{
    match s.variable(bytes::literal("HOME"))? {
        Some(home) => Ok(home),
        None => {
            let none: Vec<u8> = Vec::new();
            assert(none@ =~= Seq::<u8>::empty());
            Err(Error::Refused(Refusal::NoHome, none))
        },
    }
}

/// The path that a declared root stands for: `~` is the home directory.
pub fn expand_root<H: Host>(s: &mut Session<H>, root: &str) -> (r: Result<Vec<u8>, Error>)
    ensures
        expand_program(bytes::text(root@)).ran(old(s)@, final(s)@, error::result(r)),
{
    let written = bytes::literal(root);
    let tilde = bytes::literal("~");
    let below = bytes::literal("~/");
    if bytes::same(&written, &tilde) {
        home(s)
    } else if bytes::starts(&written, &below) {
        proof {
            reveal_strlit("~/");
            assert("~/"@ =~= seq!['~', '/']);
            vstd::utf8::is_ascii_chars_encode_utf8("~/"@);
        }
        let home = home(s)?;
        let rest = bytes::rest(&written, 2);
        Ok(path::extend(&home, &rest))
    } else {
        Ok(written)
    }
}

/// The root that a declared root stands for; it is a directory, and the path to it goes through
/// no symbolic link.
pub fn resolve_root<H: Host>(s: &mut Session<H>, root: &str) -> (r: Result<Vec<u8>, Error>)
    ensures
        resolve_program(bytes::text(root@)).ran(old(s)@, final(s)@, error::result(r)),
{
    let p = expand_root(s, root)?;
    if !path::is_absolute(&p) {
        return Err(Error::Refused(Refusal::RootNotAbsolute, bytes::literal(root)));
    }
    match s.stat(bytes::copied(&p)) {
        Ok(m) => if m.kind == host::Kind::Directory {
            s.data(Action::Canonicalize(p))
        } else {
            Err(Error::Refused(Refusal::RootNotDirectory, p))
        },
        Err(e) => Err(Error::Within(Stage::ReadRoot, p, Box::new(e))),
    }
}

/// Says a line, and ends.
fn say<H: Host>(s: &mut Session<H>, line: Vec<u8>) -> (r: Result<(), Error>)
    ensures
        say_program(line@).ran(old(s)@, final(s)@, error::outcome(r)),
{
    s.tell(Action::Print(line));
    Ok(())
}

/// Says what drifted.
fn report<H: Host>(s: &mut Session<H>, drifts: &Vec<Drift>)
    ensures
        report_program(entry::seen(drifts@)).ran(old(s)@, final(s)@, ()),
{
    let ghost list = entry::seen(drifts@);
    let ghost whole = report_program(list);
    let mut i: usize = 0;
    assert(list.skip(0) =~= list);
    while i < drifts.len()
        invariant
            list == entry::seen(drifts@),
            whole == report_program(list),
            i <= drifts.len(),
            program::extends(old(s)@, s@),
            whole.now(old(s)@, s@) == report_program(list.skip(i as int)),
        decreases drifts.len() - i,
    {
        assert(list.skip(i as int)[0] == drifts@[i as int]@);
        assert(list.skip(i as int).skip(1) =~= list.skip(i + 1));
        let word = bytes::literal(drifts[i].label());
        let tab = bytes::literal("\t");
        let start = bytes::joined(&word, &tab);
        s.tell(Action::Print(bytes::joined(&start, drifts[i].path())));
        i += 1;
    }
}

/// The tool that shows differences: as given, else as the environment says, else `diff`.
fn choose_tool<H: Host>(s: &mut Session<H>, given: Option<Vec<u8>>) -> (r: Result<Vec<u8>, Error>)
    ensures
        tool_program(host::maybe(given)).ran(old(s)@, final(s)@, error::result(r)),
{
    match given {
        Some(tool) => Ok(tool),
        None => match s.variable(bytes::literal("TOHRU_DIFF_TOOL"))? {
            Some(tool) => Ok(tool),
            None => Ok(bytes::literal("diff")),
        },
    }
}

/// Runs the tool on every copy that drifted and what it should be like.
fn run_diffs<H: Host>(s: &mut Session<H>, tool: &[u8], drifts: &Vec<Drift>) -> (r: Result<(), Error>)
    ensures
        diffs_program(tool@, entry::seen(drifts@)).ran(old(s)@, final(s)@, error::outcome(r)),
{
    let ghost list = entry::seen(drifts@);
    let ghost whole = diffs_program(tool@, list);
    let mut i: usize = 0;
    assert(list.skip(0) =~= list);
    while i < drifts.len()
        invariant
            list == entry::seen(drifts@),
            whole == diffs_program(tool@, list),
            i <= drifts.len(),
            program::extends(old(s)@, s@),
            whole.now(old(s)@, s@) == diffs_program(tool@, list.skip(i as int)),
        decreases drifts.len() - i,
    {
        assert(list.skip(i as int)[0] == drifts@[i as int]@);
        assert(list.skip(i as int).skip(1) =~= list.skip(i + 1));
        match drifts[i].expected() {
            Some(source) => {
                let mut words: Vec<Vec<u8>> = Vec::new();
                words.push(bytes::copied(tool));
                words.push(bytes::copied(source));
                words.push(bytes::copied(drifts[i].path()));
                assert(bytes::all(words@) =~= seq![tool@, source@, drifts@[i as int]@.at()]);
                match s.act(Action::Attach(words)) {
                    Ok(()) => {},
                    Err(e) => {
                        return Err(
                            Error::Within(Stage::DiffTool, bytes::copied(tool), Box::new(e)),
                        );
                    },
                }
            },
            None => {},
        }
        i += 1;
    }
    Ok(())
}

/// Shows the differences if asked to.
fn show<H: Host>(s: &mut Session<H>, diff: bool, given: Option<Vec<u8>>, drifts: &Vec<Drift>) -> (r:
    Result<(), Error>)
    ensures
        show_program(diff, host::maybe(given), entry::seen(drifts@)).ran(
            old(s)@,
            final(s)@,
            error::outcome(r),
        ),
{
    if diff {
        let tool = choose_tool(s, given)?;
        run_diffs(s, &tool, drifts)
    } else {
        Ok(())
    }
}

/// Looks whether a mounted image is as it was left; says what drifted, shows the differences if
/// asked to, and repairs if asked to.
pub fn check<H: Host>(
    s: &mut Session<H>,
    image: &str,
    fix: bool,
    diff: bool,
    diff_tool: Option<Vec<u8>>,
    paths: &StatePaths,
) -> (r: Result<(), Error>)
    ensures
        check_program(
            paths@,
            bytes::text(image@),
            fix,
            diff,
            host::maybe(diff_tool),
        ).ran(old(s)@, final(s)@, error::outcome(r)),
{
    let name = bytes::literal(image);
    let a = match state::load(s, paths)? {
        Some((_, a)) => a,
        None => {
            return Err(Error::Refused(Refusal::NotMounted, name));
        },
    };
    let mut drifts: Vec<Drift> = Vec::new();
    assert(entry::seen(drifts@) =~= Seq::<Drift<Seq<u8>>>::empty());
    a.projection.drifts(s, &a.root, &mut drifts)?;
    if drifts.len() == 0 {
        let words = bytes::literal(" is intact");
        return say(s, bytes::joined(&name, &words));
    }
    report(s, &drifts);
    show(s, diff, diff_tool, &drifts)?;
    if fix {
        a.projection.repair(s, &a.root)?;
        let words = bytes::literal("repaired ");
        say(s, bytes::joined(&words, &name))
    } else {
        Err(Error::Refused(Refusal::ImageChanged, name))
    }
}

/// Says how an image stands.
fn tell_standing<H: Host>(s: &mut Session<H>, state_root: &[u8], name: &[u8]) -> (r: Result<
    (),
    Error,
>)
    ensures
        standing_program(state_root@, name@).ran(old(s)@, final(s)@, error::outcome(r)),
{
    let paths = StatePaths::at(state_root, name);
    match state::load(s, &paths)? {
        Some((_, a)) => {
            let mut drifts: Vec<Drift> = Vec::new();
            assert(entry::seen(drifts@) =~= Seq::<Drift<Seq<u8>>>::empty());
            a.projection.drifts(s, &a.root, &mut drifts)?;
            let word = if drifts.len() > 0 {
                bytes::literal("changed\t")
            } else {
                bytes::literal("mounted\t")
            };
            let tab = bytes::literal("\t");
            let line = bytes::joined(&word, name);
            let line = bytes::joined(&line, &tab);
            say(s, bytes::joined(&line, &a.root))
        },
        None => {
            let word = bytes::literal("unmounted\t");
            say(s, bytes::joined(&word, name))
        },
    }
}

/// Says how an image stands, or all.
pub fn status<H: Host>(
    s: &mut Session<H>,
    image: Option<String>,
    manifest: &Manifest,
    state_root: &[u8],
) -> (r: Result<(), Error>)
    ensures
        status_program(state_root@, written(image), manifest@).ran(
            old(s)@,
            final(s)@,
            error::outcome(r),
        ),
{
    match image {
        Some(name) => {
            let name = bytes::literal(name.as_str());
            return tell_standing(s, state_root, &name);
        },
        None => {},
    }
    let ghost list = manifest@.images;
    let ghost whole = standings_program(state_root@, list);
    let mut i: usize = 0;
    assert(list.skip(0) =~= list);
    while i < manifest.images.len()
        invariant
            image is None,
            list == manifest@.images,
            whole == standings_program(state_root@, list),
            i <= manifest.images.len(),
            program::extends(old(s)@, s@),
            whole.now(old(s)@, s@) == standings_program(state_root@, list.skip(i as int)),
        decreases manifest.images.len() - i,
    {
        assert(list.skip(i as int)[0].0 == bytes::text(manifest.images@[i as int].0@));
        assert(list.skip(i as int).skip(1) =~= list.skip(i + 1));
        let name = bytes::literal(manifest.images[i].0.as_str());
        tell_standing(s, state_root, &name)?;
        i += 1;
    }
    Ok(())
}

/// An optional text as contracts speak of it.
pub open spec fn written(text: Option<String>) -> Option<Seq<u8>> {
    match text {
        Some(text) => Some(bytes::text(text@)),
        None => None,
    }
}

/// Says of all declared images whether they are mounted.
pub fn list<H: Host>(s: &mut Session<H>, manifest: &Manifest, state_root: &[u8]) -> (r: Result<
    (),
    Error,
>)
    ensures
        list_program(state_root@, manifest@.images).ran(old(s)@, final(s)@, error::outcome(r)),
{
    let ghost all = manifest@.images;
    let ghost whole = list_program(state_root@, all);
    let mut i: usize = 0;
    assert(all.skip(0) =~= all);
    while i < manifest.images.len()
        invariant
            all == manifest@.images,
            whole == list_program(state_root@, all),
            i <= manifest.images.len(),
            program::extends(old(s)@, s@),
            whole.now(old(s)@, s@) == list_program(state_root@, all.skip(i as int)),
        decreases manifest.images.len() - i,
    {
        assert(all.skip(i as int)[0].0 == bytes::text(manifest.images@[i as int].0@));
        assert(all.skip(i as int).skip(1) =~= all.skip(i + 1));
        let name = bytes::literal(manifest.images[i].0.as_str());
        let paths = StatePaths::at(state_root, &name);
        let word = match state::load(s, &paths)? {
            Some(_) => bytes::literal("mounted\t"),
            None => bytes::literal("unmounted\t"),
        };
        s.tell(Action::Print(bytes::joined(&word, &name)));
        i += 1;
    }
    Ok(())
}

/// Fails where an image that is to be refreshed is not mounted.
fn ensure_mounted<H: Host>(s: &mut Session<H>, paths: &StatePaths, image: &str, refreshing: bool) -> (r:
    Result<(), Error>)
    ensures
        mounted_program(paths@, bytes::text(image@), refreshing).ran(
            old(s)@,
            final(s)@,
            error::outcome(r),
        ),
{
    if refreshing {
        match state::load(s, paths)? {
            Some(_) => Ok(()),
            None => Err(Error::Refused(Refusal::NotMounted, bytes::literal(image))),
        }
    } else {
        Ok(())
    }
}

/// Mounts a declared image, and says so.
pub fn establish<H: Host>(
    s: &mut Session<H>,
    image: &str,
    refreshing: bool,
    manifest: &Manifest,
    state_root: &[u8],
) -> (r: Result<(), Error>)
    ensures
        establish_program(state_root@, bytes::text(image@), manifest@, refreshing).ran(
            old(s)@,
            final(s)@,
            error::outcome(r),
        ),
{
    let name = bytes::literal(image);
    let model: &Image = match find_image(manifest, image) {
        Some(i) => &manifest.images[i].1,
        None => {
            return Err(Error::Refused(Refusal::UnknownImage, name));
        },
    };
    let root = resolve_root(s, model.root.as_str())?;
    let tree: Tree = projection::compile(s, model)?;
    let paths = StatePaths::new(state_root, image);
    ensure_mounted(s, &paths, image, refreshing)?;
    state::mount(s, image, &root, tree, &paths)?;
    let word = if refreshing {
        bytes::literal("refreshed ")
    } else {
        bytes::literal("mounted ")
    };
    let at = bytes::literal(" at ");
    let line = bytes::joined(&word, &name);
    let line = bytes::joined(&line, &at);
    say(s, bytes::joined(&line, &root))
}

/// Does what a command says.
pub fn dispatch<H: Host>(
    s: &mut Session<H>,
    command: Command,
    manifest: &Manifest,
    state_root: &[u8],
) -> (r: Result<(), Error>)
    ensures
        dispatch_program(state_root@, manifest@, command@).ran(
            old(s)@,
            final(s)@,
            error::outcome(r),
        ),
{
    match command {
        Command::Mount { image } => establish(s, image.as_str(), false, manifest, state_root),
        Command::Refresh { image } => establish(s, image.as_str(), true, manifest, state_root),
        Command::Unmount { image } => {
            let paths = StatePaths::new(state_root, image.as_str());
            state::unmount(s, image.as_str(), &paths)
        },
        Command::Check { image, fix, diff, diff_tool } => {
            let paths = StatePaths::new(state_root, image.as_str());
            check(s, image.as_str(), fix, diff, diff_tool, &paths)
        },
        Command::Status { image } => status(s, image, manifest, state_root),
        Command::List => list(s, manifest, state_root),
    }
}

/// Where the states are kept: as given, else as the environment says.
pub fn find_state_root<H: Host>(s: &mut Session<H>, given: Option<Vec<u8>>) -> (r: Result<
    Vec<u8>,
    Error,
>)
    ensures
        state_root_program(host::maybe(given)).ran(old(s)@, final(s)@, error::result(r)),
{
    let name = bytes::literal("tohru");
    match given {
        Some(p) => Ok(p),
        None => match s.variable(bytes::literal("XDG_STATE_HOME"))? {
            Some(dir) => Ok(path::extend(&dir, &name)),
            None => match s.variable(bytes::literal("HOME"))? {
                Some(home) => {
                    let below = bytes::literal(".local/state");
                    let dir = path::extend(&home, &below);
                    Ok(path::extend(&dir, &name))
                },
                None => {
                    let none: Vec<u8> = Vec::new();
                    assert(none@ =~= Seq::<u8>::empty());
                    Err(Error::Refused(Refusal::NoStateHome, none))
                },
            },
        },
    }
}

/// The manifest that is written at `p`, with valid names.
pub fn read_manifest<H: Host>(s: &mut Session<H>, p: Vec<u8>) -> (r: Result<Manifest, Error>)
    ensures
        manifest_program(p@).ran(old(s)@, final(s)@, error::result(r)),
{
    match s.data(Action::ReadFile(bytes::copied(&p))) {
        Ok(form) => {
            let manifest = s.decode_manifest(form)?;
            validate_names(&manifest)?;
            Ok(manifest)
        },
        Err(e) => Err(Error::Within(Stage::ReadManifest, p, Box::new(e))),
    }
}

/// Whether the name in a command, if there is one, is a single component of a path.
fn validate_command(command: &Command) -> (r: Result<(), Error>)
    ensures
        error::outcome(r) == command_named(command@),
{
    match command {
        Command::Mount { image } => validate_name(image.as_str()),
        Command::Refresh { image } => validate_name(image.as_str()),
        Command::Unmount { image } => validate_name(image.as_str()),
        Command::Check { image, fix: _, diff: _, diff_tool: _ } => validate_name(image.as_str()),
        Command::Status { image: Some(image) } => validate_name(image.as_str()),
        Command::Status { image: None } => Ok(()),
        Command::List => Ok(()),
    }
}

/// Takes the lock in the directory of the states, recovers all images, and does what a command
/// says.
fn run_locked<H: Host>(
    s: &mut Session<H>,
    command: Command,
    manifest: &Manifest,
    state_root: &[u8],
) -> (r: Result<(), Error>)
    ensures
        locked_program(state_root@, manifest@, command@).ran(
            old(s)@,
            final(s)@,
            error::outcome(r),
        ),
{
    s.act(Action::CreateDirs(bytes::copied(state_root)))?;
    let name = bytes::literal("lock");
    s.act(Action::Lock(path::extend(state_root, &name)))?;
    state::recover_all(s, state_root)?;
    dispatch(s, command, manifest, state_root)
}

/// Does what the arguments say.
pub fn run<H: Host>(s: &mut Session<H>, arguments: Arguments) -> (r: Result<(), Error>)
    ensures
        run_program(arguments@).ran(old(s)@, final(s)@, error::outcome(r)),
{
    validate_command(&arguments.command)?;
    match arguments.manifest {
        Some(p) => {
            let manifest = read_manifest(s, p)?;
            let state_root = find_state_root(s, arguments.state)?;
            run_locked(s, arguments.command, &manifest, &state_root)
        },
        None => {
            let none: Vec<u8> = Vec::new();
            assert(none@ =~= Seq::<u8>::empty());
            Err(Error::Refused(Refusal::NoManifest, none))
        },
    }
}

} // verus!
