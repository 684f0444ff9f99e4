//! What is asked of the world outside, and what it answers.
use vstd::prelude::*;

use crate::bytes;
use crate::command::{Manifest, ManifestModel};
use crate::error::{Error, Fault, Trouble};
use crate::error;
use crate::path;
use crate::state::{Activation, ActivationModel, Transaction};

verus! {

/// What kind of object stands at a path; symbolic links are not followed.
#[derive(Clone, Copy, PartialEq, Eq, Structural, Debug)]
pub enum Kind {
    Directory,
    File,
    Symlink,
    Other,
}

/// Kind and mode of an object; the mode holds the permissions in its lowest twelve bits.
#[derive(Clone, Copy, PartialEq, Eq, Structural, Debug)]
pub struct Metadata {
    pub kind: Kind,
    pub mode: u32,
}

impl Metadata {
    /// The permissions.
    pub open spec fn permissions(self) -> u32 {
        self.mode & 0o7777
    }

    /// The permissions.
    pub fn bits(&self) -> (r: u32)
        ensures
            r == self.permissions(),
    {
        self.mode & 0o7777
    }
}

/// One thing asked of the world outside.
#[derive(Debug)]
pub enum Action {
    /// Kind and mode of the object at a path: `Stats`.
    Stat(Vec<u8>),
    /// The target of a symbolic link: `Data`.
    ReadLink(Vec<u8>),
    /// The contents of a file: `Data`.
    ReadFile(Vec<u8>),
    /// The contents of a file that is UTF-8: `Data`.
    ReadText(Vec<u8>),
    /// The names in a directory: `Names`.
    ReadDir(Vec<u8>),
    /// Whether anything stands at a path, symbolic links followed: `Flag`.
    Exists(Vec<u8>),
    /// The path without symbolic links: `Data`.
    Canonicalize(Vec<u8>),
    /// A variable of the environment: `Value`.
    Variable(Vec<u8>),
    /// Create a directory: `Done`.
    CreateDir(Vec<u8>),
    /// Create a directory and those above it, as far as they are missing: `Done`.
    CreateDirs(Vec<u8>),
    /// Remove an object that is not a directory: `Done`.
    RemoveFile(Vec<u8>),
    /// Remove an empty directory: `Done`.
    RemoveDir(Vec<u8>),
    /// Remove a directory and all in it: `Done`.
    RemoveTree(Vec<u8>),
    /// Set the permissions at a path: `Done`.
    SetMode(Vec<u8>, u32),
    /// Bring a file or directory to the disk: `Done`.
    Sync(Vec<u8>),
    /// Create a symbolic link; its target, and where: `Done`.
    Symlink(Vec<u8>, Vec<u8>),
    /// Move an object, replacing what stands at the second path: `Done`.
    Rename(Vec<u8>, Vec<u8>),
    /// Copy contents and permissions of a file: `Done`.
    CopyFile(Vec<u8>, Vec<u8>),
    /// Create a temporary directory in a directory: `Data`, its path.
    TempDir(Vec<u8>),
    /// Create a temporary file in a directory: `Data`, its path.
    TempFile(Vec<u8>),
    /// Append to a temporary file: `Done`.
    WriteFile(Vec<u8>, Vec<u8>),
    /// Move a temporary file to its place, replacing what stands there: `Done`.
    Persist(Vec<u8>, Vec<u8>),
    /// Remove a temporary file or directory; the answer does not matter.
    Discard(Vec<u8>),
    /// Wait for the lock file at a path and hold it until the end: `Done`.
    Lock(Vec<u8>),
    /// Run a command and collect what it prints: `Output`.
    Execute(Vec<Vec<u8>>),
    /// Run a command on the terminal, whatever its status: `Done`.
    Attach(Vec<Vec<u8>>),
    /// Print a line.
    Print(Vec<u8>),
    /// The recorded form of an activation: `Data`.
    EncodeActivation(Activation),
    /// The activation of a recorded form: `Activation`.
    DecodeActivation(Vec<u8>),
    /// The recorded form of a transaction: `Data`.
    EncodeTransaction(Transaction),
    /// The transaction of a recorded form: `Transaction`.
    DecodeTransaction(Vec<u8>),
    /// The manifest of a written form: `Manifest`.
    DecodeManifest(Vec<u8>),
}

/// An answer of the world outside.
#[derive(Debug)]
pub enum Reply {
    Done,
    Stats(Metadata),
    Data(Vec<u8>),
    Names(Vec<Vec<u8>>),
    Flag(bool),
    Value(Option<Vec<u8>>),
    Output { success: bool, stdout: Vec<u8>, stderr: Vec<u8> },
    Activation(Activation),
    Transaction(Transaction),
    Manifest(Manifest),
    Failed(Fault),
}

/// An action as contracts speak of it.
pub enum Request {
    Stat(Seq<u8>),
    ReadLink(Seq<u8>),
    ReadFile(Seq<u8>),
    ReadText(Seq<u8>),
    ReadDir(Seq<u8>),
    Exists(Seq<u8>),
    Canonicalize(Seq<u8>),
    Variable(Seq<u8>),
    CreateDir(Seq<u8>),
    CreateDirs(Seq<u8>),
    RemoveFile(Seq<u8>),
    RemoveDir(Seq<u8>),
    RemoveTree(Seq<u8>),
    SetMode(Seq<u8>, u32),
    Sync(Seq<u8>),
    Symlink(Seq<u8>, Seq<u8>),
    Rename(Seq<u8>, Seq<u8>),
    CopyFile(Seq<u8>, Seq<u8>),
    TempDir(Seq<u8>),
    TempFile(Seq<u8>),
    WriteFile(Seq<u8>, Seq<u8>),
    Persist(Seq<u8>, Seq<u8>),
    Discard(Seq<u8>),
    Lock(Seq<u8>),
    Execute(Seq<Seq<u8>>),
    Attach(Seq<Seq<u8>>),
    Print(Seq<u8>),
    EncodeActivation(ActivationModel),
    DecodeActivation(Seq<u8>),
    EncodeTransaction(Transaction<Seq<u8>>),
    DecodeTransaction(Seq<u8>),
    DecodeManifest(Seq<u8>),
}

/// A reply as contracts speak of it.
pub enum Answer {
    Done,
    Stats(Metadata),
    Data(Seq<u8>),
    Names(Seq<Seq<u8>>),
    Flag(bool),
    Value(Option<Seq<u8>>),
    Output { success: bool, stdout: Seq<u8>, stderr: Seq<u8> },
    Activation(ActivationModel),
    Transaction(Transaction<Seq<u8>>),
    Manifest(ManifestModel),
    Failed(Fault<Seq<u8>>),
}

impl View for Action {
    type V = Request;

    open spec fn view(&self) -> Request {
        match *self {
            Action::Stat(p) => Request::Stat(p@),
            Action::ReadLink(p) => Request::ReadLink(p@),
            Action::ReadFile(p) => Request::ReadFile(p@),
            Action::ReadText(p) => Request::ReadText(p@),
            Action::ReadDir(p) => Request::ReadDir(p@),
            Action::Exists(p) => Request::Exists(p@),
            Action::Canonicalize(p) => Request::Canonicalize(p@),
            Action::Variable(p) => Request::Variable(p@),
            Action::CreateDir(p) => Request::CreateDir(p@),
            Action::CreateDirs(p) => Request::CreateDirs(p@),
            Action::RemoveFile(p) => Request::RemoveFile(p@),
            Action::RemoveDir(p) => Request::RemoveDir(p@),
            Action::RemoveTree(p) => Request::RemoveTree(p@),
            Action::SetMode(p, mode) => Request::SetMode(p@, mode),
            Action::Sync(p) => Request::Sync(p@),
            Action::Symlink(target, p) => Request::Symlink(target@, p@),
            Action::Rename(from, to) => Request::Rename(from@, to@),
            Action::CopyFile(from, to) => Request::CopyFile(from@, to@),
            Action::TempDir(p) => Request::TempDir(p@),
            Action::TempFile(p) => Request::TempFile(p@),
            Action::WriteFile(p, data) => Request::WriteFile(p@, data@),
            Action::Persist(from, to) => Request::Persist(from@, to@),
            Action::Discard(p) => Request::Discard(p@),
            Action::Lock(p) => Request::Lock(p@),
            Action::Execute(words) => Request::Execute(bytes::all(words@)),
            Action::Attach(words) => Request::Attach(bytes::all(words@)),
            Action::Print(line) => Request::Print(line@),
            Action::EncodeActivation(a) => Request::EncodeActivation(a@),
            Action::DecodeActivation(data) => Request::DecodeActivation(data@),
            Action::EncodeTransaction(t) => Request::EncodeTransaction(t@),
            Action::DecodeTransaction(data) => Request::DecodeTransaction(data@),
            Action::DecodeManifest(data) => Request::DecodeManifest(data@),
        }
    }
}

impl View for Reply {
    type V = Answer;

    open spec fn view(&self) -> Answer {
        match *self {
            Reply::Done => Answer::Done,
            Reply::Stats(m) => Answer::Stats(m),
            Reply::Data(data) => Answer::Data(data@),
            Reply::Names(names) => Answer::Names(bytes::all(names@)),
            Reply::Flag(flag) => Answer::Flag(flag),
            Reply::Value(value) => Answer::Value(maybe(value)),
            Reply::Output { success, stdout, stderr } => Answer::Output {
                success,
                stdout: stdout@,
                stderr: stderr@,
            },
            Reply::Activation(a) => Answer::Activation(a@),
            Reply::Transaction(t) => Answer::Transaction(t@),
            Reply::Manifest(m) => Answer::Manifest(m@),
            Reply::Failed(fault) => Answer::Failed(fault@),
        }
    }
}

/// An optional value as contracts speak of it.
pub open spec fn maybe<T: View>(value: Option<T>) -> Option<T::V> {
    match value {
        Some(inner) => Some(inner@),
        None => None,
    }
}

/// What a command printed.
pub struct Output<B = Vec<u8>> {
    pub success: bool,
    pub stdout: B,
    pub stderr: B,
}

impl View for Output {
    type V = Output<Seq<u8>>;

    open spec fn view(&self) -> Output<Seq<u8>> {
        Output { success: self.success, stdout: self.stdout@, stderr: self.stderr@ }
    }
}

impl Answer {
    /// The failure that an answer stands for where another form was asked for.
    pub open spec fn failure(self) -> Trouble {
        match self {
            Answer::Failed(fault) => Error::Io(fault),
            _ => error::unexpected(),
        }
    }

    /// The answer where `Done` was asked for.
    pub open spec fn done(self) -> Result<(), Trouble> {
        match self {
            Answer::Done => Ok(()),
            _ => Err(self.failure()),
        }
    }

    /// The answer where `Stats` was asked for.
    pub open spec fn stats(self) -> Result<Metadata, Trouble> {
        match self {
            Answer::Stats(m) => Ok(m),
            _ => Err(self.failure()),
        }
    }

    /// The answer where `Data` was asked for.
    pub open spec fn data(self) -> Result<Seq<u8>, Trouble> {
        match self {
            Answer::Data(data) => Ok(data),
            _ => Err(self.failure()),
        }
    }

    /// The answer where `Names` was asked for; names that are not names of entries count as
    /// unexpected.
    pub open spec fn names(self) -> Result<Seq<Seq<u8>>, Trouble> {
        match self {
            Answer::Names(names) => if all_plain(names) {
                Ok(names)
            } else {
                Err(error::unexpected())
            },
            _ => Err(self.failure()),
        }
    }

    /// The answer where `Flag` was asked for.
    pub open spec fn flag(self) -> Result<bool, Trouble> {
        match self {
            Answer::Flag(flag) => Ok(flag),
            _ => Err(self.failure()),
        }
    }

    /// The answer where `Value` was asked for.
    pub open spec fn value(self) -> Result<Option<Seq<u8>>, Trouble> {
        match self {
            Answer::Value(value) => Ok(value),
            _ => Err(self.failure()),
        }
    }

    /// The answer where `Output` was asked for.
    pub open spec fn output(self) -> Result<Output<Seq<u8>>, Trouble> {
        match self {
            Answer::Output { success, stdout, stderr } => Ok(Output { success, stdout, stderr }),
            _ => Err(self.failure()),
        }
    }

    /// The answer where `Activation` was asked for.
    pub open spec fn activation(self) -> Result<ActivationModel, Trouble> {
        match self {
            Answer::Activation(a) => Ok(a),
            _ => Err(self.failure()),
        }
    }

    /// The answer where `Transaction` was asked for.
    pub open spec fn transaction(self) -> Result<Transaction<Seq<u8>>, Trouble> {
        match self {
            Answer::Transaction(t) => Ok(t),
            _ => Err(self.failure()),
        }
    }

    /// The answer where `Manifest` was asked for.
    pub open spec fn manifest(self) -> Result<ManifestModel, Trouble> {
        match self {
            Answer::Manifest(m) => Ok(m),
            _ => Err(self.failure()),
        }
    }
}

/// Whether every name is the name of an entry.
pub open spec fn all_plain(names: Seq<Seq<u8>>) -> bool {
    forall|i: int| 0 <= i < names.len() ==> path::is_plain(#[trigger] names[i])
}

impl Reply {
    /// The failure that a reply stands for where another form was asked for.
    pub fn into_failure(self) -> (r: Error)
        ensures
            r.seen() == self@.failure(),
    {
        match self {
            Reply::Failed(fault) => Error::Io(fault),
            _ => error::surprise(),
        }
    }
}

/// Whether every name is the name of an entry.
pub fn plain_names(names: &Vec<Vec<u8>>) -> (r: bool)
    ensures
        r == all_plain(bytes::all(names@)),
{
    let mut i: usize = 0;
    while i < names.len()
        invariant
            i <= names.len(),
            forall|j: int| 0 <= j < i ==> path::is_plain(#[trigger] bytes::all(names@)[j]),
        decreases names.len() - i,
    {
        assert(bytes::all(names@)[i as int] == names@[i as int]@);
        if !path::plain(&names[i]) {
            return false;
        }
        i += 1;
    }
    true
}

/// The world outside: performs an action and answers.
///
/// Nothing is assumed of the answers.
pub trait Host {
    fn perform(&mut self, action: Action) -> Reply;
}

} // verus!
