//! A model of a disk: what a file system does when it does what it is asked.
//!
//! The model says what may have happened when a request was answered. A request may always
//! fail; most changes are done or not done, but removing a tree, copying and writing may stop
//! halfway. What cannot be looked at stays so while nothing changes. Symbolic links on the way to an
//! object are not followed, and temporary objects that are discarded are gone.
use vstd::prelude::*;

use crate::bytes;
use crate::host::{Answer, Metadata, Request};
use crate::path;
use crate::path::Component;
use crate::reason::World;
use crate::state::{ActivationModel, Transaction};
use crate::tree;

verus! {

/// A place on a disk.
pub type Spot = Seq<Component<Seq<u8>>>;

/// What stands at a place: a directory or file with its permissions, or something else.
pub enum Object {
    Directory(u32),
    File(Seq<u8>, u32),
    Symlink(Seq<u8>),
    Other(u32),
}

/// The objects on a disk by their places, the places that cannot be looked at, what is read through
/// symbolic links, and what the written forms of activations and transactions mean.
pub struct Disk {
    pub objects: Map<Spot, Object>,
    pub hidden: Set<Spot>,
    pub behind: Map<Spot, Seq<u8>>,
    pub records: Map<Seq<u8>, ActivationModel>,
    pub journals: Map<Seq<u8>, Transaction<Seq<u8>>>,
}

/// Whether a directory stands at a place.
pub open spec fn is_directory(o: Option<Object>) -> bool {
    o matches Some(found) && found is Directory
}

/// Whether a file stands at a place.
pub open spec fn is_file(o: Option<Object>) -> bool {
    o matches Some(found) && found is File
}

/// Whether a symbolic link stands at a place.
pub open spec fn is_symlink(o: Option<Object>) -> bool {
    o matches Some(found) && found is Symlink
}

/// Whether `k` is the place `c` or lies below it.
pub open spec fn below(c: Spot, k: Spot) -> bool {
    c.len() <= k.len() && k.take(c.len() as int) == c
}

/// Whether neither of two places lies below the other.
pub open spec fn apart(a: Spot, b: Spot) -> bool {
    !below(a, b) && !below(b, a)
}

impl Disk {
    /// What stands at a place.
    pub open spec fn get(self, k: Spot) -> Option<Object> {
        if self.objects.dom().contains(k) {
            Some(self.objects[k])
        } else {
            None
        }
    }

    /// What stands at a path.
    pub open spec fn at(self, p: Seq<u8>) -> Option<Object> {
        self.get(path::components(p))
    }

    /// The bytes that are read at a path: those of the file there, or those read through the
    /// symbolic link there.
    pub open spec fn read(self, p: Seq<u8>) -> Option<Seq<u8>> {
        match self.at(p) {
            Some(Object::File(data, _)) => Some(data),
            Some(Object::Symlink(_)) => if self.behind.dom().contains(path::components(p)) {
                Some(self.behind[path::components(p)])
            } else {
                None
            },
            _ => None,
        }
    }

    /// Whether everything stands in directories, under the name of an entry; the empty path
    /// names nothing.
    pub open spec fn sound(self) -> bool {
        &&& self.get(Seq::empty()) is None
        &&& forall|k: Spot, j: Spot|
            k.len() > 0 && k != j && #[trigger] below(k, j) && self.get(j) is Some
                ==> is_directory(self.get(k))
        &&& forall|k: Spot|
            #![trigger self.get(k)]
            self.get(k) is Some && k.len() > 1 ==> (k.last() matches Component::Normal(name)
                && path::is_plain(name))
    }

    /// Whether `next` is this disk with `o` at `k`.
    pub open spec fn with(self, k: Spot, o: Object, next: Disk) -> bool {
        forall|j: Spot|
            #![trigger next.get(j)]
            next.get(j) == (if j == k {
                Some(o)
            } else {
                self.get(j)
            })
    }

    /// Whether `next` is this disk without what stands at `c` and below.
    pub open spec fn without(self, c: Spot, next: Disk) -> bool {
        forall|j: Spot|
            #![trigger next.get(j)]
            next.get(j) == (if below(c, j) {
                None
            } else {
                self.get(j)
            })
    }

    /// Whether `next` is this disk with what stands at `a` and below moved to `b`.
    pub open spec fn moved(self, a: Spot, b: Spot, next: Disk) -> bool {
        forall|j: Spot|
            #![trigger next.get(j)]
            next.get(j) == (if below(b, j) {
                self.get(a + j.skip(b.len() as int))
            } else if below(a, j) {
                None
            } else {
                self.get(j)
            })
    }

    /// Whether `next` differs from this disk at most at `c` and below.
    pub open spec fn same_but(self, c: Spot, next: Disk) -> bool {
        forall|j: Spot| #![trigger next.get(j)] !below(c, j) ==> next.get(j) == self.get(j)
    }

    /// Whether `names` are the names in the directory at `k`, each once.
    pub open spec fn lists(self, k: Spot, names: Seq<Seq<u8>>) -> bool {
        &&& names.no_duplicates()
        &&& forall|name: Seq<u8>|
            #![trigger names.contains(name)]
            path::is_plain(name) ==> (names.contains(name) <==> self.get(
                k.push(Component::Normal(name)),
            ) is Some)
    }
}

/// Whether kind and mode are those of an object.
pub open spec fn describes(m: Metadata, o: Object) -> bool {
    match o {
        Object::Directory(mode) => m.kind is Directory && m.permissions() == mode,
        Object::File(_, mode) => m.kind is File && m.permissions() == mode,
        Object::Symlink(_) => m.kind is Symlink,
        Object::Other(mode) => m.kind is Other && m.permissions() == mode,
    }
}

/// Whether an answer tells that something does not exist.
pub open spec fn tells_missing(x: Answer) -> bool {
    x matches Answer::Failed(fault) && fault.kind is NotFound
}

/// Whether an answer tells that a directory holds entries.
pub open spec fn tells_not_empty(x: Answer) -> bool {
    x matches Answer::Failed(fault) && fault.kind is NotEmpty
}

/// Whether a request to look is answered as the disk is.
pub open spec fn shows(w: Disk, request: Request, x: Answer) -> bool {
    match request {
        Request::Stat(p) => {
            &&& x matches Answer::Stats(m) ==> (w.at(p) matches Some(o) && describes(m, o))
            &&& tells_missing(x) ==> w.at(p) is None
            &&& !tells_missing(x) ==> (x is Stats <==> !w.hidden.contains(path::components(p)))
        },
        Request::ReadLink(p) => x matches Answer::Data(t) ==> w.at(p) == Some(Object::Symlink(t)),
        Request::ReadFile(p) | Request::ReadText(p) => {
            &&& x matches Answer::Data(d) ==> w.read(p) == Some(d)
            &&& tells_missing(x) ==> !is_file(w.at(p))
        },
        Request::EncodeActivation(a) => x matches Answer::Data(form) ==> w.records.dom().contains(
            form,
        ) && w.records[form] == a,
        Request::DecodeActivation(form) => x matches Answer::Activation(a)
            ==> (w.records.dom().contains(form) ==> w.records[form] == a),
        Request::EncodeTransaction(t) => x matches Answer::Data(form)
            ==> w.journals.dom().contains(form) && w.journals[form] == t,
        Request::DecodeTransaction(form) => x matches Answer::Transaction(t)
            ==> (w.journals.dom().contains(form) ==> w.journals[form] == t),
        Request::Exists(p) => x matches Answer::Flag(there) ==> (there ==> w.at(p) is Some),
        Request::ReadDir(p) => {
            &&& x matches Answer::Names(names) ==> match w.at(p) {
                Some(Object::Directory(_)) => w.lists(path::components(p), names),
                Some(Object::Symlink(_)) => true,
                _ => false,
            }
            &&& tells_missing(x) ==> !is_directory(w.at(p))
        },
        _ => true,
    }
}

/// Whether a request that only looks is meant.
pub open spec fn is_look(request: Request) -> bool {
    match request {
        Request::Stat(_)
        | Request::ReadLink(_)
        | Request::ReadFile(_)
        | Request::ReadText(_)
        | Request::ReadDir(_)
        | Request::Exists(_)
        | Request::Canonicalize(_)
        | Request::Variable(_)
        | Request::Sync(_)
        | Request::Print(_)
        | Request::EncodeActivation(_)
        | Request::DecodeActivation(_)
        | Request::EncodeTransaction(_)
        | Request::DecodeTransaction(_)
        | Request::DecodeManifest(_) => true,
        _ => false,
    }
}

/// Whether a name is one of a temporary object: it begins with `.tmp`.
pub open spec fn is_temporary(name: Seq<u8>) -> bool {
    name.len() >= 4 && name.take(4) == bytes::text(".tmp"@)
}

/// Whether `t` is a new temporary entry of the directory `dir`, and `next` is the disk with `o`
/// there.
pub open spec fn creates(w: Disk, dir: Seq<u8>, t: Seq<u8>, o: Object, next: Disk) -> bool {
    &&& exists|name: Seq<u8>| #[trigger]
        path::is_plain(name) && is_temporary(name) && path::components(t) == path::components(
            dir,
        ).push(Component::Normal(name))
    &&& w.at(t) is None
    &&& w.with(path::components(t), o, next)
}

/// Whether `next` is the disk with the object at `a` moved to `b`.
pub open spec fn renames(w: Disk, a: Spot, b: Spot, next: Disk) -> bool {
    &&& w.get(a) is Some
    &&& if a == b {
        next == w
    } else {
        apart(a, b) && w.moved(a, b, next)
    }
}

/// Whether `next` is the disk with the permissions at `p` set.
pub open spec fn sets_mode(w: Disk, p: Seq<u8>, mode: u32, next: Disk) -> bool {
    match w.at(p) {
        Some(Object::Directory(_)) => w.with(
            path::components(p),
            Object::Directory(mode & 0o7777),
            next,
        ),
        Some(Object::File(data, _)) => w.with(
            path::components(p),
            Object::File(data, mode & 0o7777),
            next,
        ),
        _ => true,
    }
}

/// Whether `next` is the disk with a copy of the file `a` at `b`.
pub open spec fn copies(w: Disk, a: Seq<u8>, b: Seq<u8>, next: Disk) -> bool {
    &&& !is_directory(w.at(b))
    &&& !is_symlink(w.at(b)) ==> exists|data: Seq<u8>, mode: u32|
        {
            &&& w.at(a) matches Some(Object::File(found, _)) ==> data == found
            &&& #[trigger] w.with(path::components(b), Object::File(data, mode), next)
        }
}

/// Whether `b` is a copy of `a`, with whatever permissions.
pub open spec fn mirror(a: Option<Object>, b: Option<Object>) -> bool {
    match (a, b) {
        (None, None) => true,
        (Some(Object::Symlink(x)), Some(Object::Symlink(y))) => x == y,
        (Some(Object::File(x, _)), Some(Object::File(y, _))) => x == y,
        (Some(Object::Directory(_)), Some(Object::Directory(_))) => true,
        _ => false,
    }
}

/// Whether what stands at `t` and below on `v` is a copy of what stands at `s` on `w`.
pub open spec fn mirrored(w: Disk, s: Spot, v: Disk, t: Spot) -> bool {
    forall|rest: Spot| #![trigger v.get(t + rest)] mirror(w.get(s + rest), v.get(t + rest))
}

/// The place of the store.
pub open spec fn vault() -> Spot {
    path::components(tree::store())
}

/// Whether `k` lies in the store.
pub open spec fn in_vault(k: Spot) -> bool {
    below(vault(), k) && k != vault()
}

/// Whether `next` differs from this disk at most by new objects in the store; what is in the
/// store stays as it is.
pub open spec fn stores(w: Disk, next: Disk) -> bool {
    &&& forall|j: Spot| #![trigger next.get(j)] !below(vault(), j) ==> next.get(j) == w.get(j)
    &&& forall|k: Spot, j: Spot| #[trigger]
        below(k, j) && in_vault(k) && w.get(k) is Some ==> next.get(j) == w.get(j)
}

/// Whether words are a command that adds what stands at the last of them to the store.
pub open spec fn adds_object(words: Seq<Seq<u8>>) -> bool {
    &&& words.len() == 8
    &&& words[0] == bytes::text("nix"@)
    &&& words[1] == bytes::text("store"@)
    &&& words[2] == bytes::text("add"@)
    &&& words[3] == bytes::text("--mode"@)
    &&& words[4] == bytes::text("nar"@) || words[4] == bytes::text("text"@)
    &&& words[5] == bytes::text("--name"@)
}

/// Whether words are a command that makes a root, the third of them, keep an object, the last.
pub open spec fn keeps_object(words: Seq<Seq<u8>>) -> bool {
    &&& words.len() == 5
    &&& words[0] == bytes::text("nix-store"@)
    &&& words[1] == bytes::text("--add-root"@)
    &&& words[3] == bytes::text("--realise"@)
}

/// Whether a command left `next`: one that adds to the store put a copy there, as one of its entries,
/// and one that makes a root keep an object changed nothing but that root, which is a symbolic link to
/// the object where the command succeeded.
pub open spec fn runs(w: Disk, words: Seq<Seq<u8>>, x: Answer, next: Disk) -> bool {
    if adds_object(words) {
        &&& stores(w, next)
        &&& x matches Answer::Output { success, stdout, .. } ==> (success ==> {
            let s = path::components(bytes::trimmed(stdout));
            in_vault(s) && s.len() == vault().len() + 1 && next.get(s) is Some && mirrored(
                w,
                path::components(words[7]),
                next,
                s,
            )
        })
    } else if keeps_object(words) {
        &&& w.same_but(path::components(words[2]), next)
        &&& x matches Answer::Output { success, .. } ==> (success ==> next.at(words[2]) == Some(
            Object::Symlink(words[4]),
        ))
    } else {
        true
    }
}

/// Whether `next` is the disk with directories created on the way to `p`.
pub open spec fn paves(w: Disk, p: Seq<u8>, next: Disk) -> bool {
    forall|j: Spot|
        #![trigger next.get(j)]
        next.get(j) == w.get(j) || (w.get(j) is None && below(j, path::components(p))
            && is_directory(next.get(j)))
}

/// Whether `next` is the disk with a file at `p`, if nothing stood there.
pub open spec fn opens(w: Disk, p: Seq<u8>, next: Disk) -> bool {
    forall|j: Spot|
        #![trigger next.get(j)]
        next.get(j) == w.get(j) || (w.get(j) is None && j == path::components(p) && is_file(
            next.get(j),
        ))
}

/// Whether a change that was done left `next`.
pub open spec fn changes(w: Disk, request: Request, next: Disk) -> bool {
    match request {
        Request::CreateDir(p) => w.at(p) is None && exists|mode: u32| #[trigger]
            w.with(path::components(p), Object::Directory(mode), next),
        Request::CreateDirs(p) => paves(w, p, next),
        Request::Lock(p) => opens(w, p, next),
        Request::RemoveFile(p) => !is_directory(w.at(p)) && w.without(
            path::components(p),
            next,
        ),
        Request::RemoveDir(p) => w.at(p) is Some && w.without(path::components(p), next) && forall|
            j: Spot,
        |
            #![trigger w.get(j)]
            below(path::components(p), j) && j != path::components(p) ==> w.get(j) is None,
        Request::RemoveTree(p) => w.without(path::components(p), next),
        Request::SetMode(p, mode) => sets_mode(w, p, mode, next),
        Request::Symlink(target, p) => w.at(p) is None && w.with(
            path::components(p),
            Object::Symlink(target),
            next,
        ),
        Request::Rename(a, b) | Request::Persist(a, b) => renames(
            w,
            path::components(a),
            path::components(b),
            next,
        ),
        Request::CopyFile(a, b) => copies(w, a, b, next),
        Request::WriteFile(p, data) => w.at(p) matches Some(Object::File(before, mode)) ==> w.with(
            path::components(p),
            Object::File(before + data, mode),
            next,
        ),
        _ => true,
    }
}

/// Whether a change that failed left `next`, as far as that is known.
pub open spec fn refuses(w: Disk, request: Request, x: Answer, next: Disk) -> bool {
    match request {
        Request::CreateDir(_)
        | Request::SetMode(_, _)
        | Request::Symlink(_, _)
        | Request::Rename(_, _)
        | Request::Persist(_, _) => next == w,
        Request::CreateDirs(p) => paves(w, p, next),
        Request::Lock(p) => opens(w, p, next),
        Request::RemoveFile(p) => next == w && (tells_missing(x) ==> w.at(p) is None),
        Request::RemoveTree(p) => {
            &&& w.same_but(path::components(p), next)
            &&& tells_missing(x) ==> next == w && w.at(p) is None
        },
        Request::RemoveDir(p) => {
            &&& next == w
            &&& tells_missing(x) ==> w.at(p) is None
            &&& tells_not_empty(x) ==> is_directory(w.at(p)) && exists|name: Seq<u8>| #[trigger]
                w.get(path::components(p).push(Component::Normal(name))) is Some
        },
        Request::CopyFile(_, b) => !is_symlink(w.at(b)) ==> w.same_but(path::components(b), next),
        Request::WriteFile(p, _) => is_file(w.at(p)) ==> w.same_but(path::components(p), next),
        _ => true,
    }
}

impl World for Disk {
    open spec fn leads(self, request: Request, x: Answer, next: Disk) -> bool {
        &&& next.sound()
        &&& next.records == self.records
        &&& next.journals == self.journals
        &&& if is_look(request) {
            next == self && shows(self, request, x)
        } else {
            match request {
                Request::TempDir(p) => match x {
                    Answer::Data(t) => exists|mode: u32| #[trigger]
                        creates(self, p, t, Object::Directory(mode), next),
                    _ => next == self,
                },
                Request::TempFile(p) => match x {
                    Answer::Data(t) => exists|mode: u32| #[trigger]
                        creates(self, p, t, Object::File(Seq::empty(), mode), next),
                    _ => next == self,
                },
                Request::Execute(words) => runs(self, words, x, next),
                Request::Discard(p) => self.without(path::components(p), next),
                _ => if x is Done {
                    changes(self, request, next)
                } else {
                    refuses(self, request, x, next)
                },
            }
        }
    }
}

} // verus!
