//! What is refused before anything is changed.
use vstd::prelude::*;

use crate::commanded;
use crate::disk;
use crate::disk::{Disk, Spot};
use crate::error::Trouble;
use crate::managed;
use crate::mounted;
use crate::path;
use crate::placed;
use crate::reason;
use crate::state;
use crate::state::{ActivationModel, StatePaths};
use crate::tree::Forest;

verus! {

broadcast use crate::reason::group_reason;

/// Two roots overlap if and only if one of them is the other, or lies below it; which of them is named
/// first does not matter.
pub proof fn law_overlap(a: Seq<u8>, b: Seq<u8>)
    ensures
        state::overlap(a, b) <==> disk::below(path::components(a), path::components(b))
            || disk::below(path::components(b), path::components(a)),
        state::overlap(a, b) == state::overlap(b, a),
        state::overlap(a, a),
{
    let c = path::components(a);
    assert(c.take(c.len() as int) =~= c);
}

/// What is mounted stays so where nothing that stands changed.
proof fn lemma_installed_stays(
    w: Disk,
    v: Disk,
    paths: StatePaths<Seq<u8>>,
    p: Seq<u8>,
    a: ActivationModel,
)
    requires
        mounted::installed(w, paths, p, a),
        w.sound(),
        v.sound(),
        v.records == w.records,
        forall|j: Spot| #![trigger v.get(j)] w.get(j) is Some ==> v.get(j) == w.get(j),
        mounted::preserved(w, v),
    ensures
        mounted::installed(v, paths, p, a),
{
    let root = path::components(a.root);
    mounted::lemma_tree_sourced_preserved(w, v, a.projection, root);
    mounted::lemma_tree_sourced_preserved(w, v, a.baseline, root);
}

/// Mounting an image at a root that overlaps that of another image that is mounted is refused; nothing
/// is changed but that directories are made for the state of the image.
pub proof fn law_mount_overlap(
    w: Disk,
    state_root: Seq<u8>,
    image: Seq<u8>,
    root: Seq<u8>,
    f: Forest,
    name: Seq<u8>,
    p: Seq<u8>,
    a: ActivationModel,
)
    requires
        w.sound(),
        path::is_plain(name),
        name != image,
        mounted::installed(w, state::places(state_root, name), p, a),
        disk::apart(
            path::components(state::places(state_root, image).gc_roots),
            disk::vault(),
        ),
        disk::below(path::components(root), path::components(a.root)) || disk::below(
            path::components(a.root),
            path::components(root),
        ),
    ensures
        state::mount_program(state::places(state_root, image), image, root, f).meets(
            w,
            |v: Disk, r: Result<(), Trouble>|
                r is Err && disk::paves(w, state::places(state_root, image).gc_roots, v),
        ),
{
    let paths = state::places(state_root, image);
    let g = path::components(paths.gc_roots);
    law_overlap(root, a.root);
    assert forall|v: Disk| #[trigger]
        disk::paves(w, paths.gc_roots, v) && v.sound() && v.records
            == w.records implies state::available_program(state_root, image, root).meets(
        v,
        |u: Disk, r: Result<(), Trouble>| u == v && r is Err,
    ) by {
        assert(mounted::preserved(w, v)) by {
            assert forall|k: Spot, j: Spot| #[trigger]
                disk::below(k, j) && disk::in_vault(k) && w.get(k) is Some implies v.get(j)
                == w.get(j) by {
                placed::lemma_below_trans(disk::vault(), k, j);
                if disk::below(j, g) {
                    placed::lemma_below_trans(disk::vault(), j, g);
                }
            }
        }
        lemma_installed_stays(w, v, state::places(state_root, name), p, a);
        commanded::law_available(v, state_root, image, root, name, p, a);
    }
}

/// Unmounting an image is refused where something that is not managed is in the way of what had stood
/// there, and nothing changes.
pub proof fn law_unmount_blocked(
    w: Disk,
    paths: StatePaths<Seq<u8>>,
    image: Seq<u8>,
    p: Seq<u8>,
    a: ActivationModel,
)
    requires
        w.sound(),
        mounted::installed(w, paths, p, a),
        !managed::tree_gives_way(w, a.projection, a.baseline, a.root),
    ensures
        state::unmount_program(paths, image).meets(
            w,
            |v: Disk, r: Result<(), Trouble>| v == w && r is Err,
        ),
{
    mounted::law_load(w, paths, p, a);
    mounted::law_verify(w, a);
    managed::law_tree_restorable(w, a.projection, a.baseline, a.root);
}

/// Mounting in place of an activation is refused where something that is not managed is in the way of
/// what had stood there, and nothing changes.
pub proof fn law_mount_blocked(
    w: Disk,
    paths: StatePaths<Seq<u8>>,
    root: Seq<u8>,
    f: Forest,
    p: Seq<u8>,
    a: ActivationModel,
)
    requires
        w.sound(),
        mounted::installed(w, paths, p, a),
        !managed::tree_gives_way(w, a.projection, a.baseline, a.root),
    ensures
        state::mount_body(paths, root, f).meets(
            w,
            |v: Disk, r: Result<(), Trouble>| v == w && r is Err,
        ),
{
    let refused = |v: Disk, r: Result<(), Trouble>| v == w && r is Err;
    mounted::law_load(w, paths, p, a);
    mounted::law_verify(w, a);
    managed::law_tree_restorable(w, a.projection, a.baseline, a.root);
    assert(state::checked_program(Some((p, a))).meets(w, refused));
}

} // verus!
