//! Why an operation failed.
use vstd::prelude::*;

verus! {

/// What kind of failure the host reported.
#[derive(Clone, Copy, PartialEq, Eq, Structural, Debug)]
pub enum FaultKind {
    /// The named object does not exist.
    NotFound,
    /// A directory that was to be removed holds entries.
    NotEmpty,
    /// Any other failure.
    Other,
    /// The host answered with something that was not asked for.
    Unexpected,
}

/// A failure of the host, with its message.
#[derive(Debug)]
pub struct Fault<B = Vec<u8>> {
    pub kind: FaultKind,
    pub text: B,
}

/// A rule that was broken.
#[derive(Clone, Copy, PartialEq, Eq, Structural, Debug)]
pub enum Refusal {
    /// The source of a layer is not an absolute path.
    SourceNotAbsolute,
    /// The source of a layer is not a directory.
    SourceNotDirectory,
    /// The target of a layer is empty, absolute, or holds `..`.
    TargetNotRelative,
    /// A name below the source of a layer is not UTF-8.
    PathNotUtf8,
    /// An object below the source of a layer is no directory, file or symbolic link.
    Unsupported,
    /// An object that is to be backed up is no directory, file or symbolic link.
    SpecialFile,
    /// A managed path is not as it was left.
    Changed,
    /// A managed path is neither as it was left nor as it is to become.
    ChangedInTransition,
    /// A directory that is to be replaced holds entries that are not managed.
    Unmanaged,
    /// A managed directory holds an entry whose name is not UTF-8.
    EntryNotUtf8,
    /// A path is not in the store.
    NotInStore,
    /// A path names the store itself, not an object in it.
    NotStoreObject,
    /// The path of an activation has no last name.
    NoActivationName,
    /// What was added to the store was gone each time before it was kept.
    NotKept,
    /// A path has no parent.
    NoParent,
    /// The name of a state directory is not UTF-8.
    StateNotUtf8,
    /// What a command printed is not UTF-8.
    OutputNotUtf8,
    /// An image is not mounted.
    NotMounted,
    /// An image is not declared.
    UnknownImage,
    /// The name of an image is not a single component of a path.
    InvalidName,
    /// No manifest was given.
    NoManifest,
    /// `HOME` is not set.
    NoHome,
    /// Neither `XDG_STATE_HOME` nor `HOME` is set.
    NoStateHome,
    /// The root of an image is not absolute.
    RootNotAbsolute,
    /// The root of an image is not a directory.
    RootNotDirectory,
    /// An image is not as it was left.
    ImageChanged,
    /// A recorded activation is not one that mounting records.
    Malformed,
}

/// What is wrong with a rule.
#[derive(Clone, Copy, PartialEq, Eq, Structural, Debug)]
pub enum RuleProblem {
    /// Permissions stand without a pattern.
    NoPattern,
    /// Permissions are not four octal digits.
    BadPermissions,
    /// The rule begins with none of `-`, `+`, `=` and `*`.
    UnknownAction,
    /// The pattern is empty or negated.
    EmptyOrNegated,
}

/// What was being done when a failure arose.
#[derive(Clone, Copy, PartialEq, Eq, Structural, Debug)]
pub enum Stage {
    Transition,
    ReadManifest,
    ReadRoot,
    StoreAdd,
    RegisterRoot,
    DiffTool,
}

/// A command that reported failure.
#[derive(Clone, Copy, PartialEq, Eq, Structural, Debug)]
pub enum Tool {
    StoreAdd,
    RegisterRoot,
}

/// Why an operation failed.
#[derive(Debug)]
pub enum Error<B = Vec<u8>> {
    /// The host failed.
    Io(Fault<B>),
    /// A rule was broken; the path or name that broke it.
    Refused(Refusal, B),
    /// The rule on a line is wrong.
    Rule(usize, RuleProblem),
    /// The pattern on a line is not a glob; what the glob parser said.
    Glob(usize, B),
    /// The globs of a rule make no matcher; what the glob parser said.
    Matcher(B),
    /// Another image is mounted at an overlapping root; its name and its root.
    Overlap(B, B),
    /// A command reported failure; what it printed.
    Command(Tool, B),
    /// A failure, and what was being done with which object.
    Within(Stage, B, Box<Error<B>>),
    /// A failure, and the failure of the recovery from it.
    Unrecovered(Box<Error<B>>, Box<Error<B>>),
}

/// An error as contracts speak of it.
pub type Trouble = Error<Seq<u8>>;

impl View for Fault {
    type V = Fault<Seq<u8>>;

    open spec fn view(&self) -> Fault<Seq<u8>> {
        Fault { kind: self.kind, text: self.text@ }
    }
}

impl Error {
    /// The error as contracts speak of it.
    pub open spec fn seen(self) -> Trouble
        decreases self,
    {
        match self {
            Error::Io(fault) => Error::Io(fault@),
            Error::Refused(why, subject) => Error::Refused(why, subject@),
            Error::Rule(line, problem) => Error::Rule(line, problem),
            Error::Glob(line, problem) => Error::Glob(line, problem@),
            Error::Matcher(problem) => Error::Matcher(problem@),
            Error::Overlap(name, root) => Error::Overlap(name@, root@),
            Error::Command(tool, output) => Error::Command(tool, output@),
            Error::Within(stage, subject, cause) => Error::Within(
                stage,
                subject@,
                Box::new((*cause).seen()),
            ),
            Error::Unrecovered(first, second) => Error::Unrecovered(
                Box::new((*first).seen()),
                Box::new((*second).seen()),
            ),
        }
    }

    /// Whether the host reported that the object does not exist.
    pub fn is_missing(&self) -> (r: bool)
        ensures
            r == missing(self.seen()),
    {
        match self {
            Error::Io(fault) => match fault.kind {
                FaultKind::NotFound => true,
                _ => false,
            },
            _ => false,
        }
    }

    /// Whether the host reported that a directory holds entries.
    pub fn is_not_empty(&self) -> (r: bool)
        ensures
            r == not_empty(self.seen()),
    {
        match self {
            Error::Io(fault) => match fault.kind {
                FaultKind::NotEmpty => true,
                _ => false,
            },
            _ => false,
        }
    }
}

/// Whether the host reported that the object does not exist.
pub open spec fn missing(e: Trouble) -> bool {
    e matches Error::Io(fault) && fault.kind is NotFound
}

/// Whether the host reported that a directory holds entries.
pub open spec fn not_empty(e: Trouble) -> bool {
    e matches Error::Io(fault) && fault.kind is NotEmpty
}

/// The failure of a host that answered with something else than was asked for.
pub open spec fn unexpected() -> Trouble {
    Error::Io(Fault { kind: FaultKind::Unexpected, text: Seq::empty() })
}

/// A result with the error as contracts speak of it.
pub open spec fn outcome<T>(r: Result<T, Error>) -> Result<T, Trouble> {
    match r {
        Ok(value) => Ok(value),
        Err(e) => Err(e.seen()),
    }
}

/// A result with value and error as contracts speak of them.
pub open spec fn result<T: View>(r: Result<T, Error>) -> Result<T::V, Trouble> {
    match r {
        Ok(value) => Ok(value@),
        Err(e) => Err(e.seen()),
    }
}

/// The failure of a host that answered with something else than was asked for.
pub fn surprise() -> (r: Error)
    ensures
        r.seen() == unexpected(),
{
    let text: Vec<u8> = Vec::new();
    assert(text@ =~= Seq::<u8>::empty());
    Error::Io(Fault { kind: FaultKind::Unexpected, text })
}

} // verus!
