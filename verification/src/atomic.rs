//! Changes that take effect at once or not at all, and that outlast a crash.
use vstd::prelude::*;

use crate::bytes;
use crate::error;
use crate::error::{Error, Refusal, Trouble};
use crate::host::{Action, Host, Request};
use crate::path;
use crate::program;
use crate::program::Program;
use crate::session;
use crate::session::Session;

verus! {

broadcast use crate::program::group_program;

/// The refusal of a path that has no parent.
pub open spec fn no_parent(p: Seq<u8>) -> Trouble {
    Error::Refused(Refusal::NoParent, p)
}

/// Runs `next` with the parent of `p`.
pub open spec fn with_parent<R>(
    p: Seq<u8>,
    next: spec_fn(Seq<u8>) -> Program<Result<R, Trouble>>,
) -> Program<Result<R, Trouble>> {
    match path::parent(p) {
        Some(dir) => next(dir),
        None => program::fail(no_parent(p)),
    }
}

/// Runs `body`, then discards the temporary object at `temporary` whatever came of it.
pub open spec fn cleaned<R>(temporary: Seq<u8>, body: Program<R>) -> Program<R> {
    body.bind(|r: R| session::tell(Request::Discard(temporary)).bind(|u: ()| Program::Done(r)))
}

/// Runs `body`, then `next`; discards the temporary object at `temporary` if `body` failed.
pub open spec fn cleaned_on_failure<R>(
    temporary: Seq<u8>,
    body: Program<Result<(), Trouble>>,
    next: Program<Result<R, Trouble>>,
) -> Program<Result<R, Trouble>> {
    body.bind(
        |r: Result<(), Trouble>|
            match r {
                Ok(u) => next,
                Err(e) => session::tell(Request::Discard(temporary)).bind(
                    |u: ()| program::fail(e),
                ),
            },
    )
}

/// Brings the file or directory at `p` to the disk.
pub open spec fn sync_program(p: Seq<u8>) -> Program<Result<(), Trouble>> {
    session::act(Request::Sync(p))
}

/// Brings the directory that holds `p` to the disk.
pub open spec fn sync_parent_program(p: Seq<u8>) -> Program<Result<(), Trouble>> {
    with_parent(p, |dir: Seq<u8>| sync_program(dir))
}

/// Where the link stands before it is moved to its place.
pub open spec fn staged_link(temporary: Seq<u8>) -> Seq<u8> {
    path::join(temporary, bytes::text("link"@))
}

/// Makes a symbolic link in a temporary directory, moves it to `p`, and syncs.
pub open spec fn link_body(target: Seq<u8>, p: Seq<u8>, dir: Seq<u8>, temporary: Seq<u8>) -> Program<
    Result<(), Trouble>,
> {
    session::act(Request::Symlink(target, staged_link(temporary))).and_then(
        |u: ()|
            session::act(Request::Rename(staged_link(temporary), p)).and_then(
                |u: ()| sync_program(dir),
            ),
    )
}

/// Puts a symbolic link to `target` at `p`, replacing what stands there.
pub open spec fn link_program(target: Seq<u8>, p: Seq<u8>) -> Program<Result<(), Trouble>> {
    with_parent(
        p,
        |dir: Seq<u8>|
            session::data(Request::TempDir(dir)).and_then(
                |temporary: Seq<u8>| cleaned(temporary, link_body(target, p, dir, temporary)),
            ),
    )
}

/// Fills a temporary file from `source` and moves it to `p`.
pub open spec fn copy_body(source: Seq<u8>, p: Seq<u8>, mode: u32, temporary: Seq<u8>) -> Program<
    Result<(), Trouble>,
> {
    session::act(Request::CopyFile(source, temporary)).and_then(
        |u: ()|
            session::act(Request::SetMode(temporary, mode)).and_then(
                |u: ()|
                    sync_program(temporary).and_then(
                        |u: ()| session::act(Request::Persist(temporary, p)),
                    ),
            ),
    )
}

/// Puts a copy of the file `source` at `p`, replacing what stands there.
pub open spec fn copy_program(source: Seq<u8>, p: Seq<u8>, mode: u32) -> Program<
    Result<(), Trouble>,
> {
    with_parent(
        p,
        |dir: Seq<u8>|
            session::data(Request::TempFile(dir)).and_then(
                |temporary: Seq<u8>|
                    cleaned_on_failure(
                        temporary,
                        copy_body(source, p, mode, temporary),
                        sync_program(dir),
                    ),
            ),
    )
}

/// Fills a temporary file with `contents` and moves it to `p`.
pub open spec fn write_body(p: Seq<u8>, contents: Seq<u8>, temporary: Seq<u8>) -> Program<
    Result<(), Trouble>,
> {
    session::act(Request::WriteFile(temporary, contents)).and_then(
        |u: ()|
            sync_program(temporary).and_then(|u: ()| session::act(Request::Persist(temporary, p))),
    )
}

/// Puts a file with `contents` at `p`, replacing what stands there.
pub open spec fn write_program(p: Seq<u8>, contents: Seq<u8>) -> Program<Result<(), Trouble>> {
    with_parent(
        p,
        |dir: Seq<u8>|
            session::data(Request::TempFile(dir)).and_then(
                |temporary: Seq<u8>|
                    cleaned_on_failure(
                        temporary,
                        write_body(p, contents, temporary),
                        sync_program(dir),
                    ),
            ),
    )
}

/// Removes the file at `p`, if there is one.
pub open spec fn remove_program(p: Seq<u8>) -> Program<Result<(), Trouble>> {
    session::act(Request::RemoveFile(p)).bind(
        |r: Result<(), Trouble>|
            match r {
                Ok(u) => sync_parent_program(p),
                Err(e) => if error::missing(e) {
                    program::give(())
                } else {
                    program::fail(e)
                },
            },
    )
}

/// The refusal of a path that has no parent.
fn refuse_orphan(p: &[u8]) -> (r: Error)
    ensures
        r.seen() == no_parent(p@),
{
    Error::Refused(Refusal::NoParent, bytes::copied(p))
}

/// The parent of `p`.
pub fn parent(p: &[u8]) -> (r: Result<Vec<u8>, Error>)
    ensures
        match r {
            Ok(dir) => path::parent(p@) == Some(dir@),
            Err(e) => path::parent(p@) is None && e.seen() == no_parent(p@),
        },
{
    match path::parent_of(p) {
        Some(dir) => Ok(dir),
        None => Err(refuse_orphan(p)),
    }
}

/// Brings the file or directory at `p` to the disk.
pub fn sync<H: Host>(s: &mut Session<H>, p: &[u8]) -> (r: Result<(), Error>)
    ensures
        sync_program(p@).ran(old(s)@, final(s)@, error::outcome(r)),
{
    s.act(Action::Sync(bytes::copied(p)))
}

/// Brings the directory that holds `p` to the disk.
pub fn sync_parent<H: Host>(s: &mut Session<H>, p: &[u8]) -> (r: Result<(), Error>)
    ensures
        sync_parent_program(p@).ran(old(s)@, final(s)@, error::outcome(r)),
{
    let dir = parent(p)?;
    sync(s, &dir)
}

fn place_link<H: Host>(
    s: &mut Session<H>,
    target: &[u8],
    p: &[u8],
    dir: &[u8],
    temporary: &[u8],
) -> (r: Result<(), Error>)
    ensures
        link_body(target@, p@, dir@, temporary@).ran(old(s)@, final(s)@, error::outcome(r)),
{
    let name = bytes::literal("link");
    let staged = path::extend(temporary, &name);
    s.act(Action::Symlink(bytes::copied(target), bytes::copied(&staged)))?;
    s.act(Action::Rename(staged, bytes::copied(p)))?;
    sync(s, dir)
}

/// Puts a symbolic link to `target` at `p`, replacing what stands there.
pub fn link<H: Host>(s: &mut Session<H>, target: &[u8], p: &[u8]) -> (r: Result<(), Error>)
    ensures
        link_program(target@, p@).ran(old(s)@, final(s)@, error::outcome(r)),
{
    let dir = parent(p)?;
    let temporary = s.data(Action::TempDir(bytes::copied(&dir)))?;
    let r = place_link(s, target, p, &dir, &temporary);
    s.tell(Action::Discard(temporary));
    r
}

fn place_copy<H: Host>(
    s: &mut Session<H>,
    source: &[u8],
    p: &[u8],
    mode: u32,
    temporary: &[u8],
) -> (r: Result<(), Error>)
    ensures
        copy_body(source@, p@, mode, temporary@).ran(old(s)@, final(s)@, error::outcome(r)),
{
    s.act(Action::CopyFile(bytes::copied(source), bytes::copied(temporary)))?;
    s.act(Action::SetMode(bytes::copied(temporary), mode))?;
    sync(s, temporary)?;
    s.act(Action::Persist(bytes::copied(temporary), bytes::copied(p)))
}

/// Puts a copy of the file `source` at `p`, with the permissions `mode`, replacing what stands
/// there.
pub fn copy<H: Host>(s: &mut Session<H>, source: &[u8], p: &[u8], mode: u32) -> (r: Result<
    (),
    Error,
>)
    ensures
        copy_program(source@, p@, mode).ran(old(s)@, final(s)@, error::outcome(r)),
{
    let dir = parent(p)?;
    let temporary = s.data(Action::TempFile(bytes::copied(&dir)))?;
    match place_copy(s, source, p, mode, &temporary) {
        Ok(()) => sync(s, &dir),
        Err(e) => {
            s.tell(Action::Discard(temporary));
            Err(e)
        },
    }
}

fn place_contents<H: Host>(
    s: &mut Session<H>,
    p: &[u8],
    contents: &[u8],
    temporary: &[u8],
) -> (r: Result<(), Error>)
    ensures
        write_body(p@, contents@, temporary@).ran(old(s)@, final(s)@, error::outcome(r)),
{
    s.act(Action::WriteFile(bytes::copied(temporary), bytes::copied(contents)))?;
    sync(s, temporary)?;
    s.act(Action::Persist(bytes::copied(temporary), bytes::copied(p)))
}

/// Puts a file with `contents` at `p`, replacing what stands there.
pub fn write<H: Host>(s: &mut Session<H>, p: &[u8], contents: &[u8]) -> (r: Result<(), Error>)
    ensures
        write_program(p@, contents@).ran(old(s)@, final(s)@, error::outcome(r)),
{
    let dir = parent(p)?;
    let temporary = s.data(Action::TempFile(bytes::copied(&dir)))?;
    match place_contents(s, p, contents, &temporary) {
        Ok(()) => sync(s, &dir),
        Err(e) => {
            s.tell(Action::Discard(temporary));
            Err(e)
        },
    }
}

/// Removes the file at `p`, if there is one.
pub fn remove<H: Host>(s: &mut Session<H>, p: &[u8]) -> (r: Result<(), Error>)
    ensures
        remove_program(p@).ran(old(s)@, final(s)@, error::outcome(r)),
{
    match s.act(Action::RemoveFile(bytes::copied(p))) {
        Ok(()) => sync_parent(s, p),
        Err(e) => if e.is_missing() {
            Ok(())
        } else {
            Err(e)
        },
    }
}

} // verus!
