//! What names, paths, texts and permissions stand for.
use vstd::prelude::*;

use crate::bytes;
use crate::host::Metadata;
use crate::mounted;
use crate::path;
use crate::path::Component;
use crate::projection;
use crate::state;

verus! {

/// The last name of the path of an entry is that of the entry, and the path of the directory that holds
/// it leads there.
pub proof fn law_last_name(dir: Seq<u8>, name: Seq<u8>)
    requires
        path::is_plain(name),
    ensures
        path::file_name(path::join(dir, name)) == Some(name),
        path::components(path::join(dir, name)) == path::components(dir).push(
            Component::Normal(name),
        ),
        path::parent(path::join(dir, name)) matches Some(p) && path::components(p)
            == path::components(dir),
{
    path::lemma_entry(dir, name);
    path::lemma_parent(dir, name);
    assert(path::components(dir).push(Component::Normal(name)).last() == Component::Normal(name));
}

/// The state of an image is kept in a directory of its name among the images, and there under these
/// names.
pub proof fn law_places(state_root: Seq<u8>, image: Seq<u8>)
    requires
        path::is_plain(image),
    ensures
        ({
            let paths = state::places(state_root, image);
            let root = path::components(state_root);
            let home = root.push(Component::Normal(bytes::text("images"@))).push(
                Component::Normal(image),
            );
            &&& paths.state_root == state_root
            &&& path::components(paths.directory) == home
            &&& path::components(paths.current) == home.push(
                Component::Normal(bytes::text("current"@)),
            )
            &&& path::components(paths.journal) == home.push(
                Component::Normal(bytes::text("transaction"@)),
            )
            &&& path::components(paths.preparing) == home.push(
                Component::Normal(bytes::text("preparing"@)),
            )
            &&& path::components(paths.gc_roots) == home.push(
                Component::Normal(bytes::text("gc-roots"@)),
            )
        }),
{
    let paths = state::places(state_root, image);
    mounted::lemma_state_names();
    path::lemma_entry(state_root, bytes::text("images"@));
    path::lemma_entry(state::images_of(state_root), image);
    path::lemma_entry(paths.directory, bytes::text("current"@));
    path::lemma_entry(paths.directory, bytes::text("transaction"@));
    path::lemma_entry(paths.directory, bytes::text("preparing"@));
    path::lemma_entry(paths.directory, bytes::text("gc-roots"@));
}

/// Whether a byte is one of the white space characters that a single byte encodes.
pub open spec fn is_blank(b: u8) -> bool {
    b == 9 || b == 10 || b == 11 || b == 12 || b == 13 || b == 32
}

/// A text without the white space at its end begins the text and does not end with white space; a text
/// that ends with another character of a single byte is as it was, and white space that is put behind
/// a text does not matter.
pub proof fn law_trimmed(s: Seq<u8>, b: u8)
    ensures
        bytes::trimmed(s).len() <= s.len(),
        bytes::trimmed(s) == s.take(bytes::trimmed(s).len() as int),
        bytes::trimmed(s).len() > 0 ==> !is_blank(bytes::trimmed(s).last()),
        s.len() > 0 && s.last() < 128 && !is_blank(s.last()) ==> bytes::trimmed(s) == s,
        is_blank(b) ==> bytes::trimmed(s.push(b)) == bytes::trimmed(s),
    decreases s.len(),
{
    let n = bytes::trailing_space(s);
    if n != 0 {
        let rest = s.take(s.len() - n);
        law_trimmed(rest, b);
        assert(bytes::trimmed(s) =~= s.take(bytes::trimmed(s).len() as int));
    } else {
        assert(s.take(s.len() as int) =~= s);
    }
    if is_blank(b) {
        let t = s.push(b);
        assert(t.last() == b);
        assert(bytes::trailing_space(t) == 1);
        assert(t.take(t.len() - 1) =~= s);
    }
}

/// The permissions are the lowest twelve bits of the mode.
pub proof fn law_permissions(m: Metadata)
    ensures
        m.permissions() == m.mode % 4096,
{
    let mode = m.mode;
    assert(mode & 0o7777 == mode % 4096) by (bit_vector);
}

/// A target of a layer is accepted if and only if it is not empty, not absolute, and never leads up.
pub proof fn law_relative(target: Seq<u8>)
    ensures
        projection::relative(target) <==> {
            &&& target.len() > 0
            &&& !path::absolute(target)
            &&& !path::components(target).contains(Component::Parent)
        },
{
    let list = path::components(target);
    path::lemma_lead(target);
    if projection::relative(target) {
        if list.contains(Component::Parent) {
            let i = choose|i: int| 0 <= i < list.len() && list[i] == Component::<Seq<u8>>::Parent;
            assert(list[i] is Normal || list[i] is Current);
        }
    }
    if target.len() > 0 && !path::absolute(target) && !list.contains(Component::Parent) {
        assert forall|i: int| 0 <= i < list.len() implies {
            let c = #[trigger] list[i];
            c is Normal || c is Current
        } by {
            assert(list.contains(list[i]));
        }
    }
}

} // verus!
