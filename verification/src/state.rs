//! Activations: what is mounted, and how it came there.
use vstd::prelude::*;

use crate::atomic;
use crate::backup;
use crate::bytes;
use crate::entry;
use crate::entry::{Drift, Tally};
use crate::error;
use crate::error::{Error, Refusal, Trouble};
use crate::host;
use crate::host::{Action, Host, Request};
use crate::path;
use crate::program;
use crate::program::Program;
use crate::session;
use crate::session::Session;
use crate::store;
use crate::transition;
use crate::tree;
use crate::tree::{Forest, Tree};

verus! {

broadcast use crate::program::group_program;

/// A mounted image: what was put below a root, and what had stood there.
#[derive(Debug)]
pub struct Activation {
    pub root: Vec<u8>,
    pub projection: Tree,
    pub baseline: Tree,
}

/// An activation as contracts speak of it.
pub struct ActivationModel {
    pub root: Seq<u8>,
    pub projection: Forest,
    pub baseline: Forest,
}

impl View for Activation {
    type V = ActivationModel;

    open spec fn view(&self) -> ActivationModel {
        ActivationModel {
            root: self.root@,
            projection: self.projection.forest(),
            baseline: self.baseline.forest(),
        }
    }
}

/// What is under way; activations are named by the paths of their records.
#[derive(Debug)]
pub enum Transaction<B = Vec<u8>> {
    /// A mount: the activation that is being replaced, and the next one once it is recorded.
    Mount { previous: Option<B>, next: Option<B> },
    /// An unmount.
    Unmount { activation: B },
}

impl View for Transaction {
    type V = Transaction<Seq<u8>>;

    open spec fn view(&self) -> Transaction<Seq<u8>> {
        match *self {
            Transaction::Mount { previous, next } => Transaction::Mount {
                previous: host::maybe(previous),
                next: host::maybe(next),
            },
            Transaction::Unmount { activation } => Transaction::Unmount {
                activation: activation@,
            },
        }
    }
}

/// Where the state of an image is kept.
#[derive(Debug)]
pub struct StatePaths<B = Vec<u8>> {
    /// The directory with the state of all images.
    pub state_root: B,
    /// The directory with the state of the image.
    pub directory: B,
    /// The file that names the activation of the mounted image.
    pub current: B,
    /// The file that tells what is under way.
    pub journal: B,
    /// The directory with the roots of what is being prepared.
    pub preparing: B,
    /// The directory with the roots of the activations.
    pub gc_roots: B,
}

impl View for StatePaths {
    type V = StatePaths<Seq<u8>>;

    open spec fn view(&self) -> StatePaths<Seq<u8>> {
        StatePaths {
            state_root: self.state_root@,
            directory: self.directory@,
            current: self.current@,
            journal: self.journal@,
            preparing: self.preparing@,
            gc_roots: self.gc_roots@,
        }
    }
}

/// Where the states of the images are kept.
pub open spec fn images_of(state_root: Seq<u8>) -> Seq<u8> {
    path::join(state_root, bytes::text("images"@))
}

/// Where the state of an image is kept.
pub open spec fn places(state_root: Seq<u8>, image: Seq<u8>) -> StatePaths<Seq<u8>> {
    let directory = path::join(images_of(state_root), image);
    StatePaths {
        state_root,
        directory,
        current: path::join(directory, bytes::text("current"@)),
        journal: path::join(directory, bytes::text("transaction"@)),
        preparing: path::join(directory, bytes::text("preparing"@)),
        gc_roots: path::join(directory, bytes::text("gc-roots"@)),
    }
}

/// Reads the activation that is recorded at `p`.
pub open spec fn read_program(p: Seq<u8>) -> Program<Result<ActivationModel, Trouble>> {
    session::data(Request::ReadFile(p)).and_then(
        |form: Seq<u8>| session::decode_activation(form),
    )
}

/// Reads the activation of the mounted image, and where it is recorded.
pub open spec fn load_program(paths: StatePaths<Seq<u8>>) -> Program<
    Result<Option<(Seq<u8>, ActivationModel)>, Trouble>,
> {
    session::data(Request::ReadText(paths.current)).bind(
        |r: Result<Seq<u8>, Trouble>|
            match r {
                Ok(line) => read_program(bytes::trimmed(line)).and_then(
                    |a: ActivationModel| program::give(Some((bytes::trimmed(line), a))),
                ),
                Err(e) => if error::missing(e) {
                    program::give(None)
                } else {
                    program::fail(e)
                },
            },
    )
}

/// Writes down what is under way.
pub open spec fn write_transaction_program(
    paths: StatePaths<Seq<u8>>,
    t: Transaction<Seq<u8>>,
) -> Program<Result<(), Trouble>> {
    session::data(Request::EncodeTransaction(t)).and_then(
        |form: Seq<u8>| atomic::write_program(paths.journal, form),
    )
}

/// Writes down that nothing is under way.
pub open spec fn clear_transaction_program(paths: StatePaths<Seq<u8>>) -> Program<
    Result<(), Trouble>,
> {
    atomic::remove_program(paths.journal)
}

/// The line that names an activation.
pub open spec fn line_of(activation: Seq<u8>) -> Seq<u8> {
    activation.push(10)
}

/// Writes down which activation is mounted.
pub open spec fn write_current_program(
    paths: StatePaths<Seq<u8>>,
    activation: Seq<u8>,
) -> Program<Result<(), Trouble>> {
    atomic::write_program(paths.current, line_of(activation))
}

/// Writes down that nothing is mounted.
pub open spec fn remove_current_program(paths: StatePaths<Seq<u8>>) -> Program<
    Result<(), Trouble>,
> {
    atomic::remove_program(paths.current)
}

/// Removes the roots of what was being prepared.
pub open spec fn remove_preparing_program(paths: StatePaths<Seq<u8>>) -> Program<
    Result<(), Trouble>,
> {
    session::act(Request::RemoveTree(paths.preparing)).bind(
        |r: Result<(), Trouble>|
            match r {
                Ok(u) => atomic::sync_program(paths.directory),
                Err(e) => if error::missing(e) {
                    program::give(())
                } else {
                    program::fail(e)
                },
            },
    )
}

/// The directory with the roots of an activation.
pub open spec fn gc_root_of(activation: Seq<u8>, paths: StatePaths<Seq<u8>>) -> Result<
    Seq<u8>,
    Trouble,
> {
    match path::file_name(activation) {
        Some(name) => Ok(path::join(paths.gc_roots, name)),
        None => Err(Error::Refused(Refusal::NoActivationName, activation)),
    }
}

/// The directory with the roots to be kept, if any.
pub open spec fn kept_root(current: Option<Seq<u8>>, paths: StatePaths<Seq<u8>>) -> Result<
    Option<Seq<u8>>,
    Trouble,
> {
    match current {
        Some(activation) => match gc_root_of(activation, paths) {
            Ok(root) => Ok(Some(root)),
            Err(e) => Err(e),
        },
        None => Ok(None),
    }
}

/// Whether `p` is the path to be kept.
pub open spec fn is_kept(p: Seq<u8>, keep: Option<Seq<u8>>) -> bool {
    keep matches Some(q) && path::equal(p, q)
}

/// Removes the roots of all activations but `current`.
pub open spec fn clean_program(paths: StatePaths<Seq<u8>>, current: Option<Seq<u8>>) -> Program<
    Result<(), Trouble>,
> {
    session::names(paths.gc_roots).bind(
        |r: Result<Seq<Seq<u8>>, Trouble>|
            match r {
                Ok(names) => match kept_root(current, paths) {
                    Ok(keep) => clean_names_program(paths, names, keep),
                    Err(e) => program::fail(e),
                },
                Err(e) => if error::missing(e) {
                    program::give(())
                } else {
                    program::fail(e)
                },
            },
    )
}

/// Removes the named roots but the one to be kept.
pub open spec fn clean_names_program(
    paths: StatePaths<Seq<u8>>,
    names: Seq<Seq<u8>>,
    keep: Option<Seq<u8>>,
) -> Program<Result<(), Trouble>>
    decreases names.len(),
{
    if names.len() == 0 {
        atomic::sync_program(paths.gc_roots)
    } else {
        let p = path::join(paths.gc_roots, names[0]);
        if is_kept(p, keep) {
            clean_names_program(paths, names.skip(1), keep)
        } else {
            session::act(Request::RemoveTree(p)).and_then(
                |u: ()| clean_names_program(paths, names.skip(1), keep),
            )
        }
    }
}

/// The store paths that an activation refers to, and its own.
pub open spec fn references(activation: Seq<u8>, a: ActivationModel) -> Seq<Seq<u8>> {
    seq![activation] + tree::sources(a.projection) + tree::sources(a.baseline)
}

/// Makes new roots in `root` keep all that an activation refers to.
pub open spec fn root_program(
    paths: StatePaths<Seq<u8>>,
    activation: Seq<u8>,
    a: ActivationModel,
    root: Seq<u8>,
) -> Program<Result<(), Trouble>> {
    session::act(Request::CreateDir(root)).and_then(
        |u: ()|
            atomic::sync_program(paths.gc_roots).and_then(
                |u: ()|
                    match store::objects_of(references(activation, a)) {
                        Ok(objects) => store::keep_all_program(
                            root,
                            store::ordered(objects),
                            0,
                        ).and_then(|u: ()| atomic::sync_program(root)),
                        Err(e) => program::fail(e),
                    },
            ),
    )
}

/// Records an activation by way of a temporary file.
pub open spec fn persist_body(a: ActivationModel, paths: StatePaths<Seq<u8>>, temporary: Seq<u8>)
    -> Program<Result<Seq<u8>, Trouble>> {
    session::data(Request::EncodeActivation(a)).and_then(
        |form: Seq<u8>|
            session::act(Request::WriteFile(temporary, form)).and_then(
                |u: ()|
                    atomic::sync_program(temporary).and_then(
                        |u: ()|
                            store::add_program(
                                temporary,
                                bytes::text("text"@),
                                bytes::text("tohru-activation"@),
                                path::join(paths.preparing, bytes::text("activation"@)),
                                u64::MAX as nat,
                            ).and_then(
                                |activation: Seq<u8>|
                                    match gc_root_of(activation, paths) {
                                        Ok(root) => session::exists_at(root).and_then(
                                            |there: bool|
                                                if there {
                                                    program::give(activation)
                                                } else {
                                                    root_program(
                                                        paths,
                                                        activation,
                                                        a,
                                                        root,
                                                    ).and_then(
                                                        |u: ()| program::give(activation),
                                                    )
                                                },
                                        ),
                                        Err(e) => program::fail(e),
                                    },
                            ),
                    ),
            ),
    )
}

/// Records an activation in the store; gives the path of the record.
pub open spec fn persist_program(a: ActivationModel, paths: StatePaths<Seq<u8>>) -> Program<
    Result<Seq<u8>, Trouble>,
> {
    session::data(Request::TempFile(paths.directory)).and_then(
        |temporary: Seq<u8>| atomic::cleaned(temporary, persist_body(a, paths, temporary)),
    )
}

/// Looks whether what was mounted is as it was left.
pub open spec fn verify_program(a: ActivationModel) -> Program<Result<(), Trouble>> {
    entry::tree_drifts_program(a.projection, a.root, Seq::empty()).bind(
        |t: Tally|
            match t.0 {
                Ok(u) => if t.1.len() == 0 {
                    program::give(())
                } else {
                    program::fail(Error::Refused(Refusal::Changed, t.1[0].at()))
                },
                Err(e) => program::fail(e),
            },
    )
}

/// Looks whether what had stood at the managed paths can be put back.
pub open spec fn restorable_program(a: ActivationModel) -> Program<Result<(), Trouble>> {
    transition::tree_restorable_program(a.projection, a.baseline, a.root)
}

/// Turns what had stood at the managed paths into what is mounted.
pub open spec fn activate_program(a: ActivationModel) -> Program<Result<(), Trouble>> {
    transition::tree_transition_program(a.baseline, a.projection, a.root)
}

/// Turns what is mounted back into what had stood there.
pub open spec fn deactivate_program(a: ActivationModel) -> Program<Result<(), Trouble>> {
    transition::tree_transition_program(a.projection, a.baseline, a.root)
}

/// Brings a mount of the activation recorded at `p` to its end.
pub open spec fn finish_program(paths: StatePaths<Seq<u8>>, p: Seq<u8>) -> Program<
    Result<(), Trouble>,
> {
    read_program(p).and_then(
        |a: ActivationModel|
            activate_program(a).and_then(
                |u: ()|
                    write_current_program(paths, p).and_then(
                        |u: ()|
                            clear_transaction_program(paths).and_then(
                                |u: ()|
                                    remove_preparing_program(paths).and_then(
                                        |u: ()| clean_program(paths, Some(p)),
                                    ),
                            ),
                    ),
            ),
    )
}

/// Brings an unmount of the activation recorded at `p` to its end.
pub open spec fn leave_program(paths: StatePaths<Seq<u8>>, p: Seq<u8>) -> Program<
    Result<(), Trouble>,
> {
    read_program(p).and_then(
        |a: ActivationModel|
            deactivate_program(a).and_then(
                |u: ()|
                    remove_current_program(paths).and_then(
                        |u: ()|
                            clear_transaction_program(paths).and_then(
                                |u: ()|
                                    remove_preparing_program(paths).and_then(
                                        |u: ()| clean_program(paths, None),
                                    ),
                            ),
                    ),
            ),
    )
}

/// The path of a loaded activation.
pub open spec fn path_of(current: Option<(Seq<u8>, ActivationModel)>) -> Option<Seq<u8>> {
    match current {
        Some(found) => Some(found.0),
        None => None,
    }
}

/// Removes what is left over where nothing is under way.
pub open spec fn tidy_program(paths: StatePaths<Seq<u8>>) -> Program<Result<(), Trouble>> {
    remove_preparing_program(paths).and_then(
        |u: ()|
            load_program(paths).and_then(
                |current: Option<(Seq<u8>, ActivationModel)>|
                    clean_program(paths, path_of(current)),
            ),
    )
}

/// Brings a transaction to its end: a mount forward if the next activation is recorded, else
/// back to the previous one; an unmount forward.
pub open spec fn resume_program(paths: StatePaths<Seq<u8>>, t: Transaction<Seq<u8>>) -> Program<
    Result<(), Trouble>,
> {
    match t {
        Transaction::Mount { previous, next } => match next {
            Some(p) => finish_program(paths, p),
            None => match previous {
                Some(p) => finish_program(paths, p),
                None => program::fail(entry::malformed(paths.journal)),
            },
        },
        Transaction::Unmount { activation } => leave_program(paths, activation),
    }
}

/// Brings what was under way to its end, and removes what is left over.
pub open spec fn recover_program(paths: StatePaths<Seq<u8>>) -> Program<Result<(), Trouble>> {
    session::data(Request::ReadFile(paths.journal)).bind(
        |r: Result<Seq<u8>, Trouble>|
            match r {
                Ok(form) => session::decode_transaction(form).and_then(
                    |t: Transaction<Seq<u8>>| resume_program(paths, t),
                ),
                Err(e) => if error::missing(e) {
                    tidy_program(paths)
                } else {
                    program::fail(e)
                },
            },
    )
}

/// The refusal of a state directory whose name is not UTF-8.
pub open spec fn state_not_utf8(name: Seq<u8>) -> Trouble {
    Error::Refused(Refusal::StateNotUtf8, name)
}

/// Recovers the named images.
pub open spec fn recover_names_program(state_root: Seq<u8>, names: Seq<Seq<u8>>) -> Program<
    Result<(), Trouble>,
>
    decreases names.len(),
{
    if names.len() == 0 {
        program::give(())
    } else if !vstd::utf8::valid_utf8(names[0]) {
        program::fail(state_not_utf8(names[0]))
    } else {
        recover_program(places(state_root, names[0])).and_then(
            |u: ()| recover_names_program(state_root, names.skip(1)),
        )
    }
}

/// Recovers every image that has a state.
pub open spec fn recover_all_program(state_root: Seq<u8>) -> Program<Result<(), Trouble>> {
    session::names(images_of(state_root)).bind(
        |r: Result<Seq<Seq<u8>>, Trouble>|
            match r {
                Ok(names) => recover_names_program(state_root, names),
                Err(e) => if error::missing(e) {
                    program::give(())
                } else {
                    program::fail(e)
                },
            },
    )
}

/// Whether one of two roots is the other or lies in it.
pub open spec fn overlap(a: Seq<u8>, b: Seq<u8>) -> bool {
    path::within(a, b) || path::within(b, a)
}

/// Looks whether one of the named images is mounted at a root that overlaps `root`.
pub open spec fn available_names_program(
    state_root: Seq<u8>,
    image: Seq<u8>,
    root: Seq<u8>,
    names: Seq<Seq<u8>>,
) -> Program<Result<(), Trouble>>
    decreases names.len(),
{
    if names.len() == 0 {
        program::give(())
    } else if !vstd::utf8::valid_utf8(names[0]) {
        program::fail(state_not_utf8(names[0]))
    } else if names[0] == image {
        available_names_program(state_root, image, root, names.skip(1))
    } else {
        load_program(places(state_root, names[0])).and_then(
            |current: Option<(Seq<u8>, ActivationModel)>|
                match current {
                    Some(found) => if overlap(root, found.1.root) {
                        program::fail(Error::Overlap(names[0], found.1.root))
                    } else {
                        available_names_program(state_root, image, root, names.skip(1))
                    },
                    None => available_names_program(state_root, image, root, names.skip(1)),
                },
        )
    }
}

/// Looks whether another image is mounted at a root that overlaps `root`.
pub open spec fn available_program(
    state_root: Seq<u8>,
    image: Seq<u8>,
    root: Seq<u8>,
) -> Program<Result<(), Trouble>> {
    session::names(images_of(state_root)).and_then(
        |names: Seq<Seq<u8>>| available_names_program(state_root, image, root, names),
    )
}

/// Recovers after a failure; gives that failure.
pub open spec fn fall_back_program(paths: StatePaths<Seq<u8>>, e: Trouble) -> Program<
    Result<(), Trouble>,
> {
    recover_program(paths).bind(
        |r: Result<(), Trouble>|
            match r {
                Ok(u) => program::fail(e),
                Err(f) => program::fail(Error::Unrecovered(Box::new(e), Box::new(f))),
            },
    )
}

/// Looks whether the mounted activation, if there is one, may be taken away.
pub open spec fn checked_program(current: Option<(Seq<u8>, ActivationModel)>) -> Program<
    Result<(), Trouble>,
> {
    match current {
        Some(found) => verify_program(found.1).and_then(|u: ()| restorable_program(found.1)),
        None => program::give(()),
    }
}

/// Takes the mounted activation, if there is one, away, having written that down.
pub open spec fn retire_program(
    paths: StatePaths<Seq<u8>>,
    current: Option<(Seq<u8>, ActivationModel)>,
) -> Program<Result<(), Trouble>> {
    match current {
        Some(found) => write_transaction_program(
            paths,
            Transaction::Mount { previous: Some(found.0), next: None },
        ).and_then(|u: ()| deactivate_program(found.1)),
        None => program::give(()),
    }
}

/// Prepares the next activation: backs up what stands at the paths of `projection` below `root`,
/// and records it.
pub open spec fn prepare_program(
    paths: StatePaths<Seq<u8>>,
    root: Seq<u8>,
    projection: Forest,
) -> Program<Result<(Seq<u8>, ActivationModel), Trouble>> {
    remove_preparing_program(paths).and_then(
        |u: ()|
            session::act(Request::CreateDir(paths.preparing)).and_then(
                |u: ()|
                    atomic::sync_program(paths.directory).and_then(
                        |u: ()|
                            backup::tree_capture_program(
                                projection,
                                root,
                                paths.preparing,
                                0,
                                Seq::empty(),
                            ).and_then(
                                |captured: (Forest, usize)|
                                    record_program(
                                        paths,
                                        ActivationModel {
                                            root,
                                            projection,
                                            baseline: captured.0,
                                        },
                                    ),
                            ),
                    ),
            ),
    )
}

/// Records an activation, which is then prepared.
pub open spec fn record_program(paths: StatePaths<Seq<u8>>, a: ActivationModel) -> Program<
    Result<(Seq<u8>, ActivationModel), Trouble>,
> {
    persist_program(a, paths).and_then(
        |p: Seq<u8>|
            remove_preparing_program(paths).and_then(|u: ()| program::give((p, a))),
    )
}

/// Mounts the prepared activation `next` after `previous`, having written that down.
pub open spec fn enter_program(
    paths: StatePaths<Seq<u8>>,
    previous: Option<Seq<u8>>,
    next: (Seq<u8>, ActivationModel),
) -> Program<Result<(), Trouble>> {
    write_transaction_program(
        paths,
        Transaction::Mount { previous, next: Some(next.0) },
    ).and_then(
        |u: ()|
            activate_program(next.1).and_then(
                |u: ()|
                    write_current_program(paths, next.0).and_then(
                        |u: ()|
                            clear_transaction_program(paths).and_then(
                                |u: ()| clean_program(paths, Some(next.0)),
                            ),
                    ),
            ),
    )
}

/// Replaces what is mounted by `projection` below `root`.
pub open spec fn mount_body(paths: StatePaths<Seq<u8>>, root: Seq<u8>, projection: Forest)
    -> Program<Result<(), Trouble>> {
    load_program(paths).and_then(
        |current: Option<(Seq<u8>, ActivationModel)>|
            checked_program(current).and_then(
                |u: ()|
                    retire_program(paths, current).and_then(
                        |u: ()|
                            prepare_program(paths, root, projection).and_then(
                                |next: (Seq<u8>, ActivationModel)|
                                    enter_program(paths, path_of(current), next),
                            ),
                    ),
            ),
    )
}

/// Mounts `projection` below `root` as the image called `image`, in place of what that image had
/// mounted; recovers after a failure.
pub open spec fn mount_program(
    paths: StatePaths<Seq<u8>>,
    image: Seq<u8>,
    root: Seq<u8>,
    projection: Forest,
) -> Program<Result<(), Trouble>> {
    session::act(Request::CreateDirs(paths.gc_roots)).and_then(
        |u: ()|
            available_program(paths.state_root, image, root).and_then(
                |u: ()|
                    mount_body(paths, root, projection).bind(
                        |r: Result<(), Trouble>|
                            match r {
                                Ok(u) => program::give(()),
                                Err(e) => fall_back_program(paths, e),
                            },
                    ),
            ),
    )
}

/// Takes a mounted activation away, having written that down.
pub open spec fn unmount_body(paths: StatePaths<Seq<u8>>, p: Seq<u8>, a: ActivationModel) -> Program<
    Result<(), Trouble>,
> {
    write_transaction_program(paths, Transaction::Unmount { activation: p }).and_then(
        |u: ()|
            deactivate_program(a).and_then(
                |u: ()|
                    remove_current_program(paths).and_then(
                        |u: ()|
                            clear_transaction_program(paths).and_then(
                                |u: ()| clean_program(paths, None),
                            ),
                    ),
            ),
    )
}

/// The refusal of an image that is not mounted.
pub open spec fn not_mounted(image: Seq<u8>) -> Trouble {
    Error::Refused(Refusal::NotMounted, image)
}

/// Unmounts the image called `image` and says so; recovers after a failure.
pub open spec fn unmount_program(paths: StatePaths<Seq<u8>>, image: Seq<u8>) -> Program<
    Result<(), Trouble>,
> {
    load_program(paths).and_then(
        |current: Option<(Seq<u8>, ActivationModel)>|
            match current {
                Some(found) => verify_program(found.1).and_then(
                    |u: ()|
                        restorable_program(found.1).and_then(
                            |u: ()|
                                unmount_body(paths, found.0, found.1).bind(
                                    |r: Result<(), Trouble>|
                                        match r {
                                            Ok(u) => session::tell(
                                                Request::Print(
                                                    bytes::text("unmounted "@) + image,
                                                ),
                                            ).bind(|u: ()| program::give(())),
                                            Err(e) => fall_back_program(paths, e),
                                        },
                                ),
                        ),
                ),
                None => program::fail(not_mounted(image)),
            },
    )
}

impl StatePaths {
    /// Where the state of an image is kept.
    pub fn new(state_root: &[u8], image: &str) -> (r: StatePaths)
        ensures
            r@ == places(state_root@, bytes::text(image@)),
    {
        let name = bytes::literal(image);
        StatePaths::at(state_root, &name)
    }

    /// Where the state of an image is kept.
    pub fn at(state_root: &[u8], image: &[u8]) -> (r: StatePaths)
        ensures
            r@ == places(state_root@, image@),
    {
        let images = images_in(state_root);
        let directory = path::extend(&images, image);
        let current = bytes::literal("current");
        let journal = bytes::literal("transaction");
        let preparing = bytes::literal("preparing");
        let gc_roots = bytes::literal("gc-roots");
        StatePaths {
            state_root: bytes::copied(state_root),
            current: path::extend(&directory, &current),
            journal: path::extend(&directory, &journal),
            preparing: path::extend(&directory, &preparing),
            gc_roots: path::extend(&directory, &gc_roots),
            directory,
        }
    }
}

/// Where the states of the images are kept.
fn images_in(state_root: &[u8]) -> (r: Vec<u8>)
    ensures
        r@ == images_of(state_root@),
{
    let images = bytes::literal("images");
    path::extend(state_root, &images)
}

impl Activation {
    /// A copy of this activation.
    pub fn duplicate(&self) -> (r: Activation)
        ensures
            r@ == self@,
    {
        Activation {
            root: bytes::copied(&self.root),
            projection: self.projection.duplicate(),
            baseline: self.baseline.duplicate(),
        }
    }

    /// Looks whether what was mounted is as it was left.
    pub fn verify<H: Host>(&self, s: &mut Session<H>) -> (r: Result<(), Error>)
        ensures
            verify_program(self@).ran(old(s)@, final(s)@, error::outcome(r)),
    {
        let mut drifts: Vec<Drift> = Vec::new();
        assert(entry::seen(drifts@) =~= Seq::<Drift<Seq<u8>>>::empty());
        self.projection.drifts(s, &self.root, &mut drifts)?;
        if drifts.len() == 0 {
            Ok(())
        } else {
            assert(entry::seen(drifts@)[0] == drifts@[0]@);
            Err(Error::Refused(Refusal::Changed, bytes::copied(drifts[0].path())))
        }
    }

    /// Looks whether what had stood at the managed paths can be put back.
    pub fn ensure_restorable<H: Host>(&self, s: &mut Session<H>) -> (r: Result<(), Error>)
        ensures
            restorable_program(self@).ran(old(s)@, final(s)@, error::outcome(r)),
    {
        transition::ensure_tree_restorable(s, &self.projection, &self.baseline, &self.root)
    }

    /// Turns what had stood at the managed paths into what is mounted.
    pub fn activate<H: Host>(&self, s: &mut Session<H>) -> (r: Result<(), Error>)
        ensures
            activate_program(self@).ran(old(s)@, final(s)@, error::outcome(r)),
    {
        transition::transition_tree(s, &self.baseline, &self.projection, &self.root)
    }

    /// Turns what is mounted back into what had stood there.
    pub fn deactivate<H: Host>(&self, s: &mut Session<H>) -> (r: Result<(), Error>)
        ensures
            deactivate_program(self@).ran(old(s)@, final(s)@, error::outcome(r)),
    {
        transition::transition_tree(s, &self.projection, &self.baseline, &self.root)
    }
}

/// Reads the activation that is recorded at `p`.
pub fn read_activation<H: Host>(s: &mut Session<H>, p: &[u8]) -> (r: Result<Activation, Error>)
    ensures
        read_program(p@).ran(old(s)@, final(s)@, error::result(r)),
{
    let form = s.data(Action::ReadFile(bytes::copied(p)))?;
    s.decode_activation(form)
}

/// A loaded activation as contracts speak of it.
pub open spec fn current_of(current: Option<(Vec<u8>, Activation)>) -> Option<
    (Seq<u8>, ActivationModel),
> {
    match current {
        Some((p, a)) => Some((p@, a@)),
        None => None,
    }
}

/// A result with the activation as contracts speak of it.
pub open spec fn loaded(r: Result<Option<(Vec<u8>, Activation)>, Error>) -> Result<
    Option<(Seq<u8>, ActivationModel)>,
    Trouble,
> {
    match r {
        Ok(current) => Ok(current_of(current)),
        Err(e) => Err(e.seen()),
    }
}

/// Reads the activation of the mounted image, and where it is recorded.
pub fn load<H: Host>(s: &mut Session<H>, paths: &StatePaths) -> (r: Result<
    Option<(Vec<u8>, Activation)>,
    Error,
>)
    ensures
        load_program(paths@).ran(old(s)@, final(s)@, loaded(r)),
{
    match s.data(Action::ReadText(bytes::copied(&paths.current))) {
        Ok(line) => {
            let p = bytes::trim_end(&line);
            let a = read_activation(s, &p)?;
            Ok(Some((p, a)))
        },
        Err(e) => if e.is_missing() {
            Ok(None)
        } else {
            Err(e)
        },
    }
}

/// Writes down what is under way.
pub fn write_transaction<H: Host>(s: &mut Session<H>, paths: &StatePaths, t: Transaction) -> (r:
    Result<(), Error>)
    ensures
        write_transaction_program(paths@, t@).ran(old(s)@, final(s)@, error::outcome(r)),
{
    let form = s.data(Action::EncodeTransaction(t))?;
    atomic::write(s, &paths.journal, &form)
}

/// Writes down that nothing is under way.
pub fn clear_transaction<H: Host>(s: &mut Session<H>, paths: &StatePaths) -> (r: Result<(), Error>)
    ensures
        clear_transaction_program(paths@).ran(old(s)@, final(s)@, error::outcome(r)),
{
    atomic::remove(s, &paths.journal)
}

/// Writes down which activation is mounted.
pub fn write_current<H: Host>(s: &mut Session<H>, paths: &StatePaths, activation: &[u8]) -> (r:
    Result<(), Error>)
    ensures
        write_current_program(paths@, activation@).ran(old(s)@, final(s)@, error::outcome(r)),
{
    let mut line = bytes::copied(activation);
    line.push(10);
    atomic::write(s, &paths.current, &line)
}

/// Writes down that nothing is mounted.
pub fn remove_current<H: Host>(s: &mut Session<H>, paths: &StatePaths) -> (r: Result<(), Error>)
    ensures
        remove_current_program(paths@).ran(old(s)@, final(s)@, error::outcome(r)),
{
    atomic::remove(s, &paths.current)
}

/// Removes the roots of what was being prepared.
pub fn remove_preparing<H: Host>(s: &mut Session<H>, paths: &StatePaths) -> (r: Result<(), Error>)
    ensures
        remove_preparing_program(paths@).ran(old(s)@, final(s)@, error::outcome(r)),
{
    match s.act(Action::RemoveTree(bytes::copied(&paths.preparing))) {
        Ok(()) => atomic::sync(s, &paths.directory),
        Err(e) => if e.is_missing() {
            Ok(())
        } else {
            Err(e)
        },
    }
}

/// The directory with the roots of an activation.
pub fn activation_gc_root(activation: &[u8], paths: &StatePaths) -> (r: Result<Vec<u8>, Error>)
    ensures
        error::result(r) == gc_root_of(activation@, paths@),
{
    match path::name_of(activation) {
        Some(name) => Ok(path::extend(&paths.gc_roots, &name)),
        None => Err(Error::Refused(Refusal::NoActivationName, bytes::copied(activation))),
    }
}

/// An optional path as contracts speak of it.
pub open spec fn seen_path(p: Option<&Vec<u8>>) -> Option<Seq<u8>> {
    match p {
        Some(p) => Some(p@),
        None => None,
    }
}

/// Removes the roots of all activations but `current`.
pub fn clean_gc_roots<H: Host>(
    s: &mut Session<H>,
    paths: &StatePaths,
    current: Option<&Vec<u8>>,
) -> (r: Result<(), Error>)
    ensures
        clean_program(paths@, seen_path(current)).ran(old(s)@, final(s)@, error::outcome(r)),
{
    let ghost whole = clean_program(paths@, seen_path(current));
    let names = match s.names(bytes::copied(&paths.gc_roots)) {
        Ok(names) => names,
        Err(e) => {
            return if e.is_missing() {
                Ok(())
            } else {
                Err(e)
            };
        },
    };
    let keep: Option<Vec<u8>> = match current {
        Some(activation) => Some(activation_gc_root(activation, paths)?),
        None => None,
    };
    let ghost list = bytes::all(names@);
    let ghost kept = host::maybe(keep);
    let mut i: usize = 0;
    assert(list.skip(0) =~= list);
    while i < names.len()
        invariant
            list == bytes::all(names@),
            kept == host::maybe(keep),
            whole == clean_program(paths@, seen_path(current)),
            i <= names.len(),
            program::extends(old(s)@, s@),
            whole.now(old(s)@, s@) == clean_names_program(paths@, list.skip(i as int), kept),
        decreases names.len() - i,
    {
        assert(list.skip(i as int)[0] == names@[i as int]@);
        assert(list.skip(i as int).skip(1) =~= list.skip(i + 1));
        let p = path::extend(&paths.gc_roots, &names[i]);
        let spared: bool = match &keep {
            Some(q) => path::same(&p, q),
            None => false,
        };
        if !spared {
            s.act(Action::RemoveTree(p))?;
        }
        i += 1;
    }
    atomic::sync(s, &paths.gc_roots)
}

/// Makes new roots in `root` keep all that an activation refers to.
fn root_activation<H: Host>(
    s: &mut Session<H>,
    paths: &StatePaths,
    activation: &[u8],
    a: &Activation,
    root: &[u8],
) -> (r: Result<(), Error>)
    ensures
        root_program(paths@, activation@, a@, root@).ran(old(s)@, final(s)@, error::outcome(r)),
{
    s.act(Action::CreateDir(bytes::copied(root)))?;
    atomic::sync(s, &paths.gc_roots)?;
    let mut list: Vec<Vec<u8>> = Vec::new();
    list.push(bytes::copied(activation));
    assert(bytes::all(list@) =~= seq![activation@]);
    a.projection.sources(&mut list);
    a.baseline.sources(&mut list);
    let objects = store::store_objects(&list)?;
    let objects = store::order_paths(&objects);
    store::keep_all(s, root, &objects)?;
    atomic::sync(s, root)
}

/// Records an activation by way of a temporary file.
fn persist_via<H: Host>(s: &mut Session<H>, a: &Activation, paths: &StatePaths, temporary: &[u8])
    -> (r: Result<Vec<u8>, Error>)
    ensures
        persist_body(a@, paths@, temporary@).ran(old(s)@, final(s)@, error::result(r)),
{
    let form = s.data(Action::EncodeActivation(a.duplicate()))?;
    s.act(Action::WriteFile(bytes::copied(temporary), form))?;
    atomic::sync(s, temporary)?;
    let name = bytes::literal("activation");
    let keeper = path::extend(&paths.preparing, &name);
    let activation = store::add_store_path(s, temporary, "text", "tohru-activation", &keeper)?;
    let root = activation_gc_root(&activation, paths)?;
    if !s.exists_at(bytes::copied(&root))? {
        root_activation(s, paths, &activation, a, &root)?;
    }
    Ok(activation)
}

/// Records an activation in the store; gives the path of the record.
pub fn persist_activation<H: Host>(s: &mut Session<H>, a: &Activation, paths: &StatePaths) -> (r:
    Result<Vec<u8>, Error>)
    ensures
        persist_program(a@, paths@).ran(old(s)@, final(s)@, error::result(r)),
{
    let temporary = s.data(Action::TempFile(bytes::copied(&paths.directory)))?;
    let r = persist_via(s, a, paths, &temporary);
    s.tell(Action::Discard(temporary));
    r
}

/// Brings a mount of the activation recorded at `p` to its end.
fn finish<H: Host>(s: &mut Session<H>, paths: &StatePaths, p: Vec<u8>) -> (r: Result<(), Error>)
    ensures
        finish_program(paths@, p@).ran(old(s)@, final(s)@, error::outcome(r)),
{
    let a = read_activation(s, &p)?;
    a.activate(s)?;
    write_current(s, paths, &p)?;
    clear_transaction(s, paths)?;
    remove_preparing(s, paths)?;
    clean_gc_roots(s, paths, Some(&p))
}

/// Brings an unmount of the activation recorded at `p` to its end.
fn leave<H: Host>(s: &mut Session<H>, paths: &StatePaths, p: Vec<u8>) -> (r: Result<(), Error>)
    ensures
        leave_program(paths@, p@).ran(old(s)@, final(s)@, error::outcome(r)),
{
    let a = read_activation(s, &p)?;
    a.deactivate(s)?;
    remove_current(s, paths)?;
    clear_transaction(s, paths)?;
    remove_preparing(s, paths)?;
    clean_gc_roots(s, paths, None)
}

/// Removes what is left over where nothing is under way.
fn tidy<H: Host>(s: &mut Session<H>, paths: &StatePaths) -> (r: Result<(), Error>)
    ensures
        tidy_program(paths@).ran(old(s)@, final(s)@, error::outcome(r)),
{
    remove_preparing(s, paths)?;
    let current = load(s, paths)?;
    match &current {
        Some(found) => clean_gc_roots(s, paths, Some(&found.0)),
        None => clean_gc_roots(s, paths, None),
    }
}

/// Brings what was under way to its end, and removes what is left over.
pub fn recover<H: Host>(s: &mut Session<H>, paths: &StatePaths) -> (r: Result<(), Error>)
    ensures
        recover_program(paths@).ran(old(s)@, final(s)@, error::outcome(r)),
{
    match s.data(Action::ReadFile(bytes::copied(&paths.journal))) {
        Ok(form) => match s.decode_transaction(form)? {
            Transaction::Mount { previous: _, next: Some(p) } => finish(s, paths, p),
            Transaction::Mount { previous: Some(p), next: None } => finish(s, paths, p),
            Transaction::Mount { previous: None, next: None } => {
                Err(entry::refuse_malformed(&paths.journal))
            },
            Transaction::Unmount { activation } => leave(s, paths, activation),
        },
        Err(e) => if e.is_missing() {
            tidy(s, paths)
        } else {
            Err(e)
        },
    }
}

/// Recovers every image that has a state.
pub fn recover_all<H: Host>(s: &mut Session<H>, state_root: &[u8]) -> (r: Result<(), Error>)
    ensures
        recover_all_program(state_root@).ran(old(s)@, final(s)@, error::outcome(r)),
{
    let ghost whole = recover_all_program(state_root@);
    let names = match s.names(images_in(state_root)) {
        Ok(names) => names,
        Err(e) => {
            return if e.is_missing() {
                Ok(())
            } else {
                Err(e)
            };
        },
    };
    let ghost list = bytes::all(names@);
    let mut i: usize = 0;
    assert(list.skip(0) =~= list);
    while i < names.len()
        invariant
            list == bytes::all(names@),
            whole == recover_all_program(state_root@),
            i <= names.len(),
            program::extends(old(s)@, s@),
            whole.now(old(s)@, s@) == recover_names_program(state_root@, list.skip(i as int)),
        decreases names.len() - i,
    {
        assert(list.skip(i as int)[0] == names@[i as int]@);
        assert(list.skip(i as int).skip(1) =~= list.skip(i + 1));
        if !bytes::is_utf8(&names[i]) {
            return Err(Error::Refused(Refusal::StateNotUtf8, bytes::copied(&names[i])));
        }
        let paths = StatePaths::at(state_root, &names[i]);
        recover(s, &paths)?;
        i += 1;
    }
    Ok(())
}

/// Looks whether another image is mounted at a root that overlaps `root`.
pub fn ensure_root_available<H: Host>(
    s: &mut Session<H>,
    image: &str,
    root: &[u8],
    paths: &StatePaths,
) -> (r: Result<(), Error>)
    ensures
        available_program(paths@.state_root, bytes::text(image@), root@).ran(
            old(s)@,
            final(s)@,
            error::outcome(r),
        ),
{
    let ghost whole = available_program(paths@.state_root, bytes::text(image@), root@);
    let own = bytes::literal(image);
    let names = s.names(images_in(&paths.state_root))?;
    let ghost list = bytes::all(names@);
    let mut i: usize = 0;
    assert(list.skip(0) =~= list);
    while i < names.len()
        invariant
            list == bytes::all(names@),
            own@ == bytes::text(image@),
            whole == available_program(paths@.state_root, own@, root@),
            i <= names.len(),
            program::extends(old(s)@, s@),
            whole.now(old(s)@, s@) == available_names_program(
                paths@.state_root,
                own@,
                root@,
                list.skip(i as int),
            ),
        decreases names.len() - i,
    {
        assert(list.skip(i as int)[0] == names@[i as int]@);
        assert(list.skip(i as int).skip(1) =~= list.skip(i + 1));
        if !bytes::is_utf8(&names[i]) {
            return Err(Error::Refused(Refusal::StateNotUtf8, bytes::copied(&names[i])));
        }
        if !bytes::same(&names[i], &own) {
            let other = StatePaths::at(&paths.state_root, &names[i]);
            match load(s, &other)? {
                Some((_, active)) => {
                    if path::starts_with(root, &active.root) || path::starts_with(
                        &active.root,
                        root,
                    ) {
                        return Err(Error::Overlap(bytes::copied(&names[i]), active.root));
                    }
                },
                None => {},
            }
        }
        i += 1;
    }
    Ok(())
}

/// Recovers after a failure; gives that failure.
fn fall_back<H: Host>(s: &mut Session<H>, paths: &StatePaths, e: Error) -> (r: Result<(), Error>)
    ensures
        fall_back_program(paths@, e.seen()).ran(old(s)@, final(s)@, error::outcome(r)),
{
    match recover(s, paths) {
        Ok(()) => Err(e),
        Err(f) => Err(Error::Unrecovered(Box::new(e), Box::new(f))),
    }
}

/// Looks whether the mounted activation, if there is one, may be taken away.
fn check_current<H: Host>(s: &mut Session<H>, current: &Option<(Vec<u8>, Activation)>) -> (r:
    Result<(), Error>)
    ensures
        checked_program(current_of(*current)).ran(old(s)@, final(s)@, error::outcome(r)),
{
    match current {
        Some(found) => {
            found.1.verify(s)?;
            found.1.ensure_restorable(s)
        },
        None => Ok(()),
    }
}

/// Takes the mounted activation, if there is one, away, having written that down.
fn retire<H: Host>(
    s: &mut Session<H>,
    paths: &StatePaths,
    current: &Option<(Vec<u8>, Activation)>,
) -> (r: Result<(), Error>)
    ensures
        retire_program(paths@, current_of(*current)).ran(old(s)@, final(s)@, error::outcome(r)),
{
    match current {
        Some(found) => {
            let t = Transaction::Mount { previous: Some(bytes::copied(&found.0)), next: None };
            write_transaction(s, paths, t)?;
            found.1.deactivate(s)
        },
        None => Ok(()),
    }
}

/// A result with record and activation as contracts speak of them.
pub open spec fn recorded(r: Result<(Vec<u8>, Activation), Error>) -> Result<
    (Seq<u8>, ActivationModel),
    Trouble,
> {
    match r {
        Ok((p, a)) => Ok((p@, a@)),
        Err(e) => Err(e.seen()),
    }
}

/// Records an activation, which is then prepared.
fn record<H: Host>(s: &mut Session<H>, paths: &StatePaths, a: Activation) -> (r: Result<
    (Vec<u8>, Activation),
    Error,
>)
    ensures
        record_program(paths@, a@).ran(old(s)@, final(s)@, recorded(r)),
{
    let p = persist_activation(s, &a, paths)?;
    remove_preparing(s, paths)?;
    Ok((p, a))
}

/// Prepares the next activation: backs up what stands at the paths of `projection` below `root`,
/// and records it.
fn prepare<H: Host>(s: &mut Session<H>, paths: &StatePaths, root: &[u8], projection: Tree) -> (r:
    Result<(Vec<u8>, Activation), Error>)
    ensures
        prepare_program(paths@, root@, projection.forest()).ran(
            old(s)@,
            final(s)@,
            recorded(r),
        ),
{
    remove_preparing(s, paths)?;
    s.act(Action::CreateDir(bytes::copied(&paths.preparing)))?;
    atomic::sync(s, &paths.directory)?;
    let (baseline, _) = backup::capture_tree(s, &projection, root, &paths.preparing, 0)?;
    record(s, paths, Activation { root: bytes::copied(root), projection, baseline })
}

/// Mounts the prepared activation `a`, recorded at `p`, after `previous`, having written that
/// down.
fn enter<H: Host>(
    s: &mut Session<H>,
    paths: &StatePaths,
    previous: Option<Vec<u8>>,
    p: Vec<u8>,
    a: Activation,
) -> (r: Result<(), Error>)
    ensures
        enter_program(paths@, host::maybe(previous), (p@, a@)).ran(
            old(s)@,
            final(s)@,
            error::outcome(r),
        ),
{
    write_transaction(s, paths, Transaction::Mount { previous, next: Some(bytes::copied(&p)) })?;
    a.activate(s)?;
    write_current(s, paths, &p)?;
    clear_transaction(s, paths)?;
    clean_gc_roots(s, paths, Some(&p))
}

/// Replaces what is mounted by `projection` below `root`.
fn replace<H: Host>(s: &mut Session<H>, paths: &StatePaths, root: &[u8], projection: Tree) -> (r:
    Result<(), Error>)
    ensures
        mount_body(paths@, root@, projection.forest()).ran(
            old(s)@,
            final(s)@,
            error::outcome(r),
        ),
{
    let current = load(s, paths)?;
    check_current(s, &current)?;
    retire(s, paths, &current)?;
    let (p, a) = prepare(s, paths, root, projection)?;
    let previous: Option<Vec<u8>> = match current {
        Some((q, _)) => Some(q),
        None => None,
    };
    enter(s, paths, previous, p, a)
}

/// Mounts `projection` below `root` as the image called `image`, in place of what that image had
/// mounted; recovers after a failure.
pub fn mount<H: Host>(
    s: &mut Session<H>,
    image: &str,
    root: &[u8],
    projection: Tree,
    paths: &StatePaths,
) -> (r: Result<(), Error>)
    ensures
        mount_program(paths@, bytes::text(image@), root@, projection.forest()).ran(
            old(s)@,
            final(s)@,
            error::outcome(r),
        ),
{
    s.act(Action::CreateDirs(bytes::copied(&paths.gc_roots)))?;
    ensure_root_available(s, image, root, paths)?;
    match replace(s, paths, root, projection) {
        Ok(()) => Ok(()),
        Err(e) => fall_back(s, paths, e),
    }
}

/// Takes a mounted activation away, having written that down.
fn withdraw<H: Host>(s: &mut Session<H>, paths: &StatePaths, p: Vec<u8>, a: &Activation) -> (r:
    Result<(), Error>)
    ensures
        unmount_body(paths@, p@, a@).ran(old(s)@, final(s)@, error::outcome(r)),
{
    write_transaction(s, paths, Transaction::Unmount { activation: p })?;
    a.deactivate(s)?;
    remove_current(s, paths)?;
    clear_transaction(s, paths)?;
    clean_gc_roots(s, paths, None)
}

/// Unmounts the image called `image` and says so; recovers after a failure.
pub fn unmount<H: Host>(s: &mut Session<H>, image: &str, paths: &StatePaths) -> (r: Result<
    (),
    Error,
>)
    ensures
        unmount_program(paths@, bytes::text(image@)).ran(old(s)@, final(s)@, error::outcome(r)),
{
    match load(s, paths)? {
        Some((p, a)) => {
            a.verify(s)?;
            a.ensure_restorable(s)?;
            match withdraw(s, paths, p, &a) {
                Ok(()) => {
                    let words = bytes::literal("unmounted ");
                    let name = bytes::literal(image);
                    s.tell(Action::Print(bytes::joined(&words, &name)));
                    Ok(())
                },
                Err(e) => fall_back(s, paths, e),
            }
        },
        None => Err(Error::Refused(Refusal::NotMounted, bytes::literal(image))),
    }
}

} // verus!
