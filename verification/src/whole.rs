//! That a change is seen as a whole or not at all.
use vstd::prelude::*;

use crate::atomic;
use crate::bytes;
use crate::disk;
use crate::disk::{Disk, Object, Spot};
use crate::error::Trouble;
use crate::path;
use crate::path::Component;
use crate::placed;

verus! {

broadcast use crate::reason::group_upholds;

/// Whether a place is that of a temporary object in the directory `d`, or below it.
pub open spec fn temporary_in(d: Spot, j: Spot) -> bool {
    disk::below(d, j) && j.len() > d.len() && (j[d.len() as int] matches Component::Normal(n)
        && disk::is_temporary(n))
}

/// Whether nothing outside the entry at `c` differs from `w` but temporary objects in its
/// directory `d`, and the entry is what it was, or one of which `fresh` holds.
pub open spec fn at_once(w: Disk, d: Spot, c: Spot, fresh: spec_fn(Option<Object>) -> bool) -> spec_fn(
    Disk,
) -> bool {
    |v: Disk|
        {
            &&& v.sound()
            &&& v.records == w.records
            &&& v.journals == w.journals
            &&& forall|j: Spot|
                #![trigger v.get(j)]
                !disk::below(c, j) && !temporary_in(d, j) ==> v.get(j) == w.get(j)
            &&& fresh(v.get(c)) || forall|j: Spot|
                #![trigger v.get(j)]
                disk::below(c, j) ==> v.get(j) == w.get(j)
        }
}

/// That the entry at `c` is one of which `fresh` holds, if the operation succeeded.
pub open spec fn arrived(c: Spot, fresh: spec_fn(Option<Object>) -> bool) -> spec_fn(
    Disk,
    Result<(), Trouble>,
) -> bool {
    |v: Disk, r: Result<(), Trouble>| r is Ok ==> fresh(v.get(c))
}

/// A file with these contents.
pub open spec fn file_of(contents: Seq<u8>) -> spec_fn(Option<Object>) -> bool {
    |o: Option<Object>| o matches Some(Object::File(data, _)) && data == contents
}

/// What lies below a temporary object does not lie below another entry.
proof fn lemma_temporary(d: Spot, n: Seq<u8>, name: Seq<u8>)
    requires
        disk::is_temporary(n),
        !disk::is_temporary(name),
    ensures
        forall|j: Spot| #[trigger]
            disk::below(d.push(Component::Normal(n)), j) ==> temporary_in(d, j) && !disk::below(
                d.push(Component::Normal(name)),
                j,
            ),
        disk::apart(d.push(Component::Normal(n)), d.push(Component::Normal(name))),
{
    let (k, c) = (d.push(Component::Normal(n)), d.push(Component::Normal(name)));
    placed::lemma_below_push(d, Component::Normal(n));
    assert forall|j: Spot| #[trigger] disk::below(k, j) implies temporary_in(d, j)
        && !disk::below(c, j) by {
        placed::lemma_below_trans(d, k, j);
        assert(j.take(k.len() as int)[d.len() as int] == k[d.len() as int]);
        if disk::below(c, j) {
            assert(j.take(c.len() as int)[d.len() as int] == c[d.len() as int]);
        }
    }
    placed::lemma_below_push(c, Component::Root);
    placed::lemma_below_push(k, Component::Root);
    if disk::below(c, k) {
        assert(k.take(c.len() as int)[d.len() as int] == c[d.len() as int]);
    }
}

/// What is written appears as a whole: at any time a file stands with the old contents, or with
/// the new ones.
pub proof fn law_write_whole(w: Disk, dir: Seq<u8>, name: Seq<u8>, contents: Seq<u8>)
    requires
        w.sound(),
        path::is_plain(name),
        !disk::is_temporary(name),
    ensures
        atomic::write_program(path::join(dir, name), contents).upholds(
            w,
            at_once(
                w,
                path::components(dir),
                path::components(path::join(dir, name)),
                file_of(contents),
            ),
            arrived(path::components(path::join(dir, name)), file_of(contents)),
        ),
{
    let p = path::join(dir, name);
    let d = path::components(dir);
    let c = path::components(p);
    let fresh = file_of(contents);
    let inv = at_once(w, d, c, fresh);
    let post = arrived(c, fresh);
    path::lemma_parent(dir, name);
    path::lemma_entry(dir, name);
    let parent = path::parent(p)->Some_0;
    assert(c.take(c.len() as int) =~= c);
    assert(Seq::<u8>::empty() + contents =~= contents);
    assert forall|t: Seq<u8>, m: u32, w1: Disk| #[trigger]
        disk::creates(w, parent, t, Object::File(Seq::empty(), m), w1) && w1.sound()
            && w1.records == w.records && w1.journals
            == w.journals implies atomic::cleaned_on_failure(
        t,
        atomic::write_body(p, contents, t),
        atomic::sync_program(parent),
    ).upholds(w1, inv, post) by {
        let k = path::components(t);
        let n = choose|n: Seq<u8>| #[trigger]
            path::is_plain(n) && disk::is_temporary(n) && k == d.push(Component::Normal(n));
        lemma_temporary(d, n, name);
        placed::lemma_below_push(k, Component::Root);
        assert(k + c.skip(c.len() as int) =~= k);
    }
}

/// A symbolic link to `target`.
pub open spec fn link_to(target: Seq<u8>) -> spec_fn(Option<Object>) -> bool {
    |o: Option<Object>| o == Some(Object::Symlink(target))
}

/// A link appears as a whole: at any time the link stands, or what stood there before.
pub proof fn law_link_whole(w: Disk, target: Seq<u8>, dir: Seq<u8>, name: Seq<u8>)
    requires
        w.sound(),
        path::is_plain(name),
        !disk::is_temporary(name),
    ensures
        atomic::link_program(target, path::join(dir, name)).upholds(
            w,
            at_once(
                w,
                path::components(dir),
                path::components(path::join(dir, name)),
                link_to(target),
            ),
            arrived(path::components(path::join(dir, name)), link_to(target)),
        ),
{
    let p = path::join(dir, name);
    let d = path::components(dir);
    let c = path::components(p);
    let fresh = link_to(target);
    let inv = at_once(w, d, c, fresh);
    let post = arrived(c, fresh);
    path::lemma_parent(dir, name);
    path::lemma_entry(dir, name);
    placed::lemma_staged_names();
    let parent = path::parent(p)->Some_0;
    assert(c.take(c.len() as int) =~= c);
    assert forall|t: Seq<u8>, m: u32, w1: Disk| #[trigger]
        disk::creates(w, parent, t, Object::Directory(m), w1) && w1.sound() && w1.records
            == w.records && w1.journals == w.journals implies atomic::cleaned(
        t,
        atomic::link_body(target, p, parent, t),
    ).upholds(w1, inv, post) by {
        let k = path::components(t);
        let g = path::components(atomic::staged_link(t));
        let n = choose|n: Seq<u8>| #[trigger]
            path::is_plain(n) && disk::is_temporary(n) && k == d.push(Component::Normal(n));
        path::lemma_entry(t, bytes::text("link"@));
        lemma_temporary(d, n, name);
        placed::lemma_below_push(k, Component::Normal(bytes::text("link"@)));
        assert forall|j: Spot| #[trigger] disk::below(g, j) implies temporary_in(d, j)
            && !disk::below(c, j) by {
            placed::lemma_below_trans(k, g, j);
        }
        assert(g + c.skip(c.len() as int) =~= g);
    }
}

/// A file with the contents of what stands at `source` on `w`, and these permissions.
pub open spec fn copy_of(w: Disk, source: Seq<u8>, mode: u32) -> spec_fn(Option<Object>) -> bool {
    |o: Option<Object>|
        o matches Some(Object::File(data, m)) && m == mode & 0o7777 && (w.at(source) matches Some(
            Object::File(found, _),
        ) ==> data == found)
}

/// A copy appears as a whole: at any time the complete copy stands, or what stood there before.
pub proof fn law_copy_whole(w: Disk, source: Seq<u8>, mode: u32, dir: Seq<u8>, name: Seq<u8>)
    requires
        w.sound(),
        path::is_plain(name),
        !disk::is_temporary(name),
    ensures
        atomic::copy_program(source, path::join(dir, name), mode).upholds(
            w,
            at_once(
                w,
                path::components(dir),
                path::components(path::join(dir, name)),
                copy_of(w, source, mode),
            ),
            arrived(path::components(path::join(dir, name)), copy_of(w, source, mode)),
        ),
{
    let p = path::join(dir, name);
    let d = path::components(dir);
    let c = path::components(p);
    let fresh = copy_of(w, source, mode);
    let inv = at_once(w, d, c, fresh);
    let post = arrived(c, fresh);
    path::lemma_parent(dir, name);
    path::lemma_entry(dir, name);
    let parent = path::parent(p)->Some_0;
    assert(c.take(c.len() as int) =~= c);
    assert forall|t: Seq<u8>, m: u32, w1: Disk| #[trigger]
        disk::creates(w, parent, t, Object::File(Seq::empty(), m), w1) && w1.sound()
            && w1.records == w.records && w1.journals
            == w.journals implies atomic::cleaned_on_failure(
        t,
        atomic::copy_body(source, p, mode, t),
        atomic::sync_program(parent),
    ).upholds(w1, inv, post) by {
        let k = path::components(t);
        let n = choose|n: Seq<u8>| #[trigger]
            path::is_plain(n) && disk::is_temporary(n) && k == d.push(Component::Normal(n));
        lemma_temporary(d, n, name);
        placed::lemma_below_push(k, Component::Root);
        assert(k + c.skip(c.len() as int) =~= k);
        if w.at(source) is Some {
            assert(path::components(source) != k);
        }
    }
}

/// Nothing.
pub open spec fn nothing() -> spec_fn(Option<Object>) -> bool {
    |o: Option<Object>| o is None
}

/// A file is removed as a whole: at any time it stands as it was, or it is gone.
pub proof fn law_remove_whole(w: Disk, dir: Seq<u8>, name: Seq<u8>)
    requires
        w.sound(),
        path::is_plain(name),
    ensures
        atomic::remove_program(path::join(dir, name)).upholds(
            w,
            at_once(
                w,
                path::components(dir),
                path::components(path::join(dir, name)),
                nothing(),
            ),
            arrived(path::components(path::join(dir, name)), nothing()),
        ),
{
    let c = path::components(path::join(dir, name));
    path::lemma_parent(dir, name);
    assert(c.take(c.len() as int) =~= c);
}

} // verus!
