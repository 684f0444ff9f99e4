//! That a backup holds what stood on the disk.
use vstd::prelude::*;

use crate::backup;
use crate::bytes;
use crate::disk;
use crate::disk::{Disk, Object, Spot};
use crate::entry;
use crate::error::Trouble;
use crate::host;
use crate::host::{Answer, Metadata, Request};
use crate::managed;
use crate::managed::{lies_in, owned, owns};
use crate::path;
use crate::path::Component;
use crate::placed;
use crate::reason::World;
use crate::standing;
use crate::store;
use crate::tree;
use crate::tree::{Forest, Modes, Node};

verus! {

broadcast use crate::reason::group_reason;

/// The permissions of a file or directory.
pub open spec fn perm_of(o: Option<Object>) -> Option<u32> {
    match o {
        Some(Object::Directory(mode)) => Some(mode),
        Some(Object::File(_, mode)) => Some(mode),
        _ => None,
    }
}

/// That nothing changed and, if the operation succeeded, permissions were added for what lies at
/// `at` below `p` and further down.
pub open spec fn collected(w: Disk, p: Spot, at: Spot, modes: Modes) -> spec_fn(
    Disk,
    Result<Modes, Trouble>,
) -> bool {
    |v: Disk, r: Result<Modes, Trouble>|
        v == w && (r matches Ok(list) ==> {
            &&& placed::modes_proper(list)
            &&& forall|rest: Spot|
                #![trigger standing::mode_of(list, rest)]
                standing::mode_of(list, rest) == (if disk::below(at, rest) {
                    perm_of(w.get(p + rest))
                } else {
                    standing::mode_of(modes, rest)
                })
            &&& forall|rest: Spot|
                #![trigger w.get(p + rest)]
                disk::below(at, rest) ==> !(w.get(p + rest) matches Some(Object::Other(_)))
        })
}

/// That nothing changed and, if the operation succeeded, permissions were added for the named
/// entries at `at` below `p` and further down.
pub open spec fn names_collected(
    w: Disk,
    p: Spot,
    at: Spot,
    names: Seq<Seq<u8>>,
    modes: Modes,
) -> spec_fn(Disk, Result<Modes, Trouble>) -> bool {
    |v: Disk, r: Result<Modes, Trouble>|
        v == w && (r matches Ok(list) ==> {
            &&& placed::modes_proper(list)
            &&& forall|rest: Spot|
                #![trigger standing::mode_of(list, rest)]
                standing::mode_of(list, rest) == (if placed::named_below(names, at, rest) {
                    perm_of(w.get(p + rest))
                } else {
                    standing::mode_of(modes, rest)
                })
            &&& forall|rest: Spot|
                #![trigger w.get(p + rest)]
                placed::named_below(names, at, rest) ==> !(w.get(p + rest) matches Some(
                    Object::Other(_),
                ))
        })
}

proof fn lemma_modes_cons(head: (Seq<u8>, u32), tail: Modes)
    requires
        path::relative(head.0),
        placed::is_mode(head.1),
        placed::modes_proper(tail),
        standing::mode_of(tail, path::components(head.0)) is None,
    ensures
        placed::modes_proper(seq![head] + tail),
{
    let list = seq![head] + tail;
    assert forall|i: int| #![trigger list[i]] 0 <= i < list.len() implies path::relative(list[i].0)
        && placed::is_mode(list[i].1) by {
        if i > 0 {
            assert(list[i] == tail[i - 1]);
        }
    }
    assert forall|i: int, j: int|
        #![trigger list[i], list[j]]
        0 <= i < j < list.len() implies !path::equal(list[i].0, list[j].0) by {
        assert(list[j] == tail[j - 1]);
        if i > 0 {
            assert(list[i] == tail[i - 1]);
        } else if path::equal(head.0, tail[j - 1].0) {
            placed::lemma_mode_some(tail, j - 1);
        }
    }
}

/// Recording permissions that were not recorded does so, and changes no others.
proof fn lemma_with_mode(list: Modes, rel: Seq<u8>, mode: u32)
    requires
        placed::modes_proper(list),
        standing::mode_of(list, path::components(rel)) is None,
        path::relative(rel),
        placed::is_mode(mode),
    ensures
        placed::modes_proper(backup::with_mode(list, rel, mode)),
        forall|rest: Spot|
            #![trigger standing::mode_of(backup::with_mode(list, rel, mode), rest)]
            standing::mode_of(backup::with_mode(list, rel, mode), rest) == (if path::components(rel)
                == rest {
                Some(mode)
            } else {
                standing::mode_of(list, rest)
            }),
    decreases list.len(),
{
    let r = backup::with_mode(list, rel, mode);
    let none = Seq::<(Seq<u8>, u32)>::empty();
    if list.len() == 0 {
        assert(list =~= none);
        lemma_modes_cons((rel, mode), list);
        assert(r =~= seq![(rel, mode)] + list);
        assert(r.skip(1) =~= none);
    } else {
        let tail = list.skip(1);
        placed::lemma_modes_rest(list);
        assert(list =~= seq![list[0]] + tail);
        lemma_head_once(list);
        if path::precedes(rel, list[0].0) {
            assert(r.skip(1) =~= list);
            assert(r =~= seq![(rel, mode)] + list);
            lemma_modes_cons((rel, mode), list);
        } else {
            lemma_with_mode(tail, rel, mode);
            let later = backup::with_mode(tail, rel, mode);
            assert(r.skip(1) =~= later);
            lemma_modes_cons(list[0], later);
            assert forall|rest: Spot| #![trigger standing::mode_of(r, rest)] standing::mode_of(r, rest)
                == (if path::components(rel) == rest {
                Some(mode)
            } else {
                standing::mode_of(list, rest)
            }) by {
                assert(standing::mode_of(later, rest) == (if path::components(rel) == rest {
                    Some(mode)
                } else {
                    standing::mode_of(tail, rest)
                }));
            }
        }
    }
}

/// The first path is not found among the others.
proof fn lemma_head_once(list: Modes)
    requires
        placed::modes_proper(list),
        list.len() > 0,
    ensures
        standing::mode_of(list.skip(1), path::components(list[0].0)) is None,
{
    let tail = list.skip(1);
    assert forall|i: int| #![trigger tail[i]] 0 <= i < tail.len() implies path::components(tail[i].0)
        != path::components(list[0].0) by {
        assert(tail[i] == list[i + 1]);
        assert(!path::equal(list[0].0, list[i + 1].0));
    }
    placed::lemma_mode_none(tail, path::components(list[0].0));
}

/// Permissions hold nothing else.
pub proof fn lemma_permissions(m: Metadata)
    ensures
        placed::is_mode(m.permissions()),
{
    let mode = m.mode;
    assert((mode & 0o7777) & 0o7777 == mode & 0o7777) by (bit_vector);
}

/// Collecting permissions collects those of all files and directories.
proof fn lemma_collect(w: Disk, p: Seq<u8>, rel: Seq<u8>, m: Metadata, modes: Modes)
    requires
        w.sound(),
        path::relative(rel),
        path::components(p).len() > 0,
        placed::modes_proper(modes),
        w.get(path::components(p) + path::components(rel)) matches Some(o) && disk::describes(m, o),
        forall|rest: Spot|
            #![trigger standing::mode_of(modes, rest)]
            disk::below(path::components(rel), rest) ==> standing::mode_of(modes, rest) is None,
    ensures
        backup::modes_program(p, rel, m, modes).meets(
            w,
            collected(w, path::components(p), path::components(rel), modes),
        ),
    decreases usize::MAX - rel.len(), 1int, 0int,
{
    let (base, at) = (path::components(p), path::components(rel));
    let post = collected(w, base, at, modes);
    path::lemma_join(p, rel);
    lemma_permissions(m);
    assert(at.take(at.len() as int) =~= at);
    assert(standing::mode_of(modes, at) is None);
    assert forall|rest: Spot|
        #![trigger w.get(base + rest)]
        disk::below(at, rest) && rest != at && !disk::is_directory(w.get(base + at)) implies w.get(
        base + rest,
    ) is None by {
        standing::lemma_leaf(w, base, at, rest);
    }
    let first = backup::with_mode(modes, rel, m.permissions());
    lemma_with_mode(modes, rel, m.permissions());
    if m.kind is Symlink {
        assert(post(w, Ok(modes)));
    } else if m.kind is File {
        assert forall|rest: Spot| #![trigger standing::mode_of(first, rest)] standing::mode_of(
            first,
            rest,
        ) == (if disk::below(at, rest) {
            perm_of(w.get(base + rest))
        } else {
            standing::mode_of(modes, rest)
        }) by {}
        assert(post(w, Ok(first)));
    } else if m.kind is Directory {
        assert forall|names: Seq<Seq<u8>>| #[trigger]
            w.lists(base + at, names) && host::all_plain(
                names,
            ) implies backup::names_modes_program(p, rel, names, first).meets(w, post) by {
            assert forall|i: int|
                #![trigger names[i]]
                0 <= i < names.len() implies w.get(
                base + at.push(Component::Normal(names[i])),
            ) is Some by {
                assert(names.contains(names[i]));
                assert((base + at).push(Component::Normal(names[i])) =~= base + at.push(
                    Component::Normal(names[i]),
                ));
            }
            assert forall|i: int, rest: Spot|
                #![trigger names[i], standing::mode_of(first, rest)]
                0 <= i < names.len() && disk::below(
                    at.push(Component::Normal(names[i])),
                    rest,
                ) implies standing::mode_of(first, rest) is None by {
                let x = Component::Normal(names[i]);
                placed::lemma_below_push(at, x);
                placed::lemma_below_trans(at, at.push(x), rest);
                assert(rest != at);
            }
            lemma_collect_names(w, p, rel, names, first);
            assert forall|v: Disk, r: Result<Modes, Trouble>| #[trigger]
                names_collected(w, base, at, names, first)(v, r) implies post(v, r) by {
                if r is Ok {
                    lemma_all_collected(w, base, at, names, modes, first, r->Ok_0, m);
                }
            }
        }
    }
}

/// With the directory and all its entries everything is collected.
proof fn lemma_all_collected(
    w: Disk,
    base: Spot,
    at: Spot,
    names: Seq<Seq<u8>>,
    modes: Modes,
    first: Modes,
    list: Modes,
    m: Metadata,
)
    requires
        w.sound(),
        base.len() > 0,
        w.lists(base + at, names),
        w.get(base + at) matches Some(o) && disk::describes(m, o),
        m.kind is Directory,
        forall|rest: Spot|
            #![trigger standing::mode_of(modes, rest)]
            disk::below(at, rest) ==> standing::mode_of(modes, rest) is None,
        forall|rest: Spot|
            #![trigger standing::mode_of(first, rest)]
            standing::mode_of(first, rest) == (if at == rest {
                Some(m.permissions())
            } else {
                standing::mode_of(modes, rest)
            }),
        names_collected(w, base, at, names, first)(w, Ok(list)),
    ensures
        collected(w, base, at, modes)(w, Ok(list)),
{
    assert forall|rest: Spot|
        #![trigger w.get(base + rest)]
        disk::below(at, rest) && rest != at && !placed::named_below(names, at, rest) implies w.get(
        base + rest,
    ) is None by {
        if w.get(base + rest) is Some {
            assert(rest.take(rest.len() as int) =~= rest);
            let x = rest[at.len() as int];
            let child = at.push(x);
            assert(rest.take(child.len() as int) =~= child);
            standing::lemma_ancestor(w, base, child, rest);
            assert((base + at).push(x) =~= base + child);
            let name = x->Normal_0;
            assert(names.contains(name));
            let i = choose|i: int| 0 <= i < names.len() && names[i] == name;
            assert(disk::below(at.push(Component::Normal(names[i])), rest));
        }
    }
    assert forall|rest: Spot| placed::named_below(names, at, rest) implies #[trigger] disk::below(
        at,
        rest,
    ) && rest != at by {
        let i = choose|i: int|
            #![trigger names[i]]
            0 <= i < names.len() && disk::below(at.push(Component::Normal(names[i])), rest);
        placed::lemma_below_push(at, Component::Normal(names[i]));
        placed::lemma_below_trans(at, at.push(Component::Normal(names[i])), rest);
    }
    assert forall|rest: Spot| #![trigger standing::mode_of(list, rest)] standing::mode_of(list, rest)
        == (if disk::below(at, rest) {
        perm_of(w.get(base + rest))
    } else {
        standing::mode_of(modes, rest)
    }) by {
        if disk::below(at, rest) && rest != at && !placed::named_below(names, at, rest) {
            assert(w.get(base + rest) is None);
        }
        assert(at.take(at.len() as int) =~= at);
    }
    assert forall|rest: Spot| #![trigger w.get(base + rest)] disk::below(at, rest) implies !(w.get(
        base + rest,
    ) matches Some(Object::Other(_))) by {
        if rest != at && !placed::named_below(names, at, rest) {
            assert(w.get(base + rest) is None);
        }
    }
}

#[verifier::rlimit(30)]
proof fn lemma_collect_names(
    w: Disk,
    p: Seq<u8>,
    rel: Seq<u8>,
    names: Seq<Seq<u8>>,
    modes: Modes,
)
    requires
        w.sound(),
        path::relative(rel),
        path::components(p).len() > 0,
        placed::modes_proper(modes),
        host::all_plain(names),
        names.no_duplicates(),
        forall|i: int|
            #![trigger names[i]]
            0 <= i < names.len() ==> w.get(
                path::components(p) + path::components(rel).push(Component::Normal(names[i])),
            ) is Some,
        forall|i: int, rest: Spot|
            #![trigger names[i], standing::mode_of(modes, rest)]
            0 <= i < names.len() && disk::below(
                path::components(rel).push(Component::Normal(names[i])),
                rest,
            ) ==> standing::mode_of(modes, rest) is None,
    ensures
        backup::names_modes_program(p, rel, names, modes).meets(
            w,
            names_collected(w, path::components(p), path::components(rel), names, modes),
        ),
    decreases usize::MAX - rel.len(), 0int, names.len(),
{
    let (base, at) = (path::components(p), path::components(rel));
    let post = names_collected(w, base, at, names, modes);
    if names.len() > 0 {
        let child = path::join(rel, names[0]);
        let x = Component::Normal(names[0]);
        let later = names.skip(1);
        assert(path::is_plain(names[0]));
        path::lemma_plain(names[0]);
        path::lemma_join(rel, names[0]);
        path::lemma_join(p, rel);
        path::lemma_entry(rel, names[0]);
        path::lemma_entry(path::join(p, rel), names[0]);
        assert((base + at).push(x) =~= base + at.push(x));
        assert forall|m: Metadata|
            #![trigger disk::describes(m, w.get(base + at.push(x))->Some_0)]
            entry::deeper(rel, child) && disk::describes(
                m,
                w.get(base + at.push(x))->Some_0,
            ) implies backup::modes_program(p, child, m, modes).meets(
            w,
            collected(w, base, at.push(x), modes),
        ) by {
            lemma_collect(w, p, child, m, modes);
        }
        assert forall|v: Disk, r: Result<Modes, Trouble>| #[trigger]
            collected(w, base, at.push(x), modes)(v, r)
                && r is Ok implies backup::names_modes_program(p, rel, later, r->Ok_0).meets(
            w,
            post,
        ) by {
            let list = r->Ok_0;
            assert forall|i: int| 0 <= i < later.len() implies path::is_plain(
                #[trigger] later[i],
            ) by {
                assert(later[i] == names[i + 1]);
            }
            assert forall|i: int|
                #![trigger later[i]]
                0 <= i < later.len() implies w.get(
                base + at.push(Component::Normal(later[i])),
            ) is Some by {
                assert(later[i] == names[i + 1]);
            }
            assert forall|i: int, rest: Spot|
                #![trigger later[i], standing::mode_of(list, rest)]
                0 <= i < later.len() && disk::below(
                    at.push(Component::Normal(later[i])),
                    rest,
                ) implies standing::mode_of(list, rest) is None by {
                assert(later[i] == names[i + 1]);
                if disk::below(at.push(x), rest) {
                    placed::lemma_siblings(at, x, Component::Normal(later[i]), rest);
                }
                assert(standing::mode_of(modes, rest) is None);
            }
            lemma_collect_names(w, p, rel, later, list);
            assert forall|u: Disk, q: Result<Modes, Trouble>| #[trigger]
                names_collected(w, base, at, later, list)(u, q) implies post(u, q) by {
                assert forall|rest: Spot|
                    placed::named_below(names, at, rest) == (disk::below(at.push(x), rest)
                        || #[trigger] placed::named_below(later, at, rest)) by {
                    assert(names[0] == names[0]);
                    if placed::named_below(later, at, rest) {
                        let k = choose|k: int|
                            #![trigger later[k]]
                            0 <= k < later.len() && disk::below(
                                at.push(Component::Normal(later[k])),
                                rest,
                            );
                        assert(later[k] == names[k + 1]);
                    }
                    if placed::named_below(names, at, rest) {
                        let k = choose|k: int|
                            #![trigger names[k]]
                            0 <= k < names.len() && disk::below(
                                at.push(Component::Normal(names[k])),
                                rest,
                            );
                        if k > 0 {
                            assert(later[k - 1] == names[k]);
                        }
                    }
                }
            }
        }
    }
}

/// Whether `v` differs from `w` at most in the directory `zone` and by new objects in the store.
pub open spec fn grown(w: Disk, v: Disk, zone: Spot) -> bool {
    &&& forall|j: Spot|
        #![trigger v.get(j)]
        !disk::below(disk::vault(), j) && (!disk::below(zone, j) || j == zone) ==> v.get(j)
            == w.get(j)
    &&& forall|k: Spot, j: Spot| #[trigger]
        disk::below(k, j) && disk::in_vault(k) && w.get(k) is Some ==> v.get(j) == w.get(j)
}

/// Whether what stands at `j` is as it was on `w`, or is a directory that was made on the way to
/// `zone`.
pub open spec fn abides(w: Disk, v: Disk, zone: Spot, j: Spot) -> bool {
    v.get(j) == w.get(j) || (w.get(j) is None && disk::below(j, zone) && disk::is_directory(
        v.get(j),
    ))
}

pub proof fn lemma_grown_trans(w: Disk, u: Disk, v: Disk, zone: Spot)
    requires
        grown(w, u, zone),
        grown(u, v, zone),
    ensures
        grown(w, v, zone),
{
    assert forall|k: Spot, j: Spot| #[trigger]
        disk::below(k, j) && disk::in_vault(k) && w.get(k) is Some implies v.get(j) == w.get(j) by {
        assert(k.take(k.len() as int) =~= k);
        assert(disk::below(k, k));
    }
    assert forall|j: Spot|
        #![trigger v.get(j)]
        !disk::below(disk::vault(), j) && (!disk::below(zone, j) || j == zone) implies v.get(j)
        == w.get(j) by {
        assert(u.get(j) == w.get(j));
    }
}

pub proof fn lemma_grown_zone(w: Disk, v: Disk, c: Spot, zone: Spot)
    requires
        w.same_but(c, v),
        disk::below(zone, c),
        zone != c,
        disk::apart(zone, disk::vault()),
    ensures
        grown(w, v, zone),
{
    assert(c.take(c.len() as int) =~= c);
    assert forall|j: Spot|
        #![trigger v.get(j)]
        !disk::below(zone, j) || j == zone implies v.get(j) == w.get(j) by {
        if disk::below(c, j) {
            placed::lemma_below_trans(zone, c, j);
        }
    }
    assert forall|k: Spot, j: Spot| #[trigger]
        disk::below(k, j) && disk::in_vault(k) && w.get(k) is Some implies v.get(j) == w.get(j) by {
        placed::lemma_below_trans(disk::vault(), k, j);
        if disk::below(zone, j) {
            placed::lemma_below_both(zone, disk::vault(), j);
        }
    }
}

/// What is apart from `zone` and the store stays.
pub proof fn lemma_grown_away(w: Disk, v: Disk, zone: Spot, p: Spot, rest: Spot)
    requires
        grown(w, v, zone),
        disk::apart(p, zone),
        disk::apart(p, disk::vault()),
    ensures
        v.get(p + rest) == w.get(p + rest),
{
    placed::lemma_away(p, zone, rest);
    placed::lemma_away(p, disk::vault(), rest);
}

/// That a disk is sound and, if the operation succeeded, the store holds a copy of what stands at
/// `p`.
pub open spec fn added(w: Disk, p: Spot, zone: Spot) -> spec_fn(
    Disk,
    Result<Seq<u8>, Trouble>,
) -> bool {
    |v: Disk, r: Result<Seq<u8>, Trouble>|
        v.sound() && (r matches Ok(object) ==> {
            &&& grown(w, v, zone)
            &&& disk::in_vault(path::components(object))
            &&& path::components(object).len() == disk::vault().len() + 1
            &&& v.get(path::components(object)) is Some
            &&& disk::mirrored(w, p, v, path::components(object))
            &&& bytes::trimmed(object) == object
        })
}

/// What was trimmed has no white space at its end.
pub proof fn lemma_trimmed(s: Seq<u8>)
    ensures
        bytes::trimmed(bytes::trimmed(s)) == bytes::trimmed(s),
        bytes::trailing_space(bytes::trimmed(s)) == 0,
    decreases s.len(),
{
    if bytes::trailing_space(s) != 0 {
        lemma_trimmed(s.take(s.len() - bytes::trailing_space(s)));
    }
}

/// What is added to the store is held there as a copy.
pub proof fn lemma_add(
    w: Disk,
    p: Seq<u8>,
    mode: Seq<u8>,
    name: Seq<u8>,
    root: Seq<u8>,
    attempts: nat,
    zone: Spot,
)
    requires
        mode == bytes::text("nar"@) || mode == bytes::text("text"@),
        w.sound(),
        disk::below(zone, path::components(root)),
        zone != path::components(root),
        disk::apart(zone, disk::vault()),
        disk::apart(path::components(p), zone),
        disk::apart(path::components(p), disk::vault()),
    ensures
        store::add_program(p, mode, name, root, attempts).meets(
            w,
            added(w, path::components(p), zone),
        ),
    decreases attempts,
{
    let c = path::components(p);
    let g = path::components(root);
    let post = added(w, c, zone);
    if attempts > 0 {
        let words = store::add_words(p, mode, name);
        assert(words.len() == 8 && words[7] == p && words[4] == mode && words[6] == name);
        assert forall|object: Seq<u8>| #[trigger]
            store::keep_words(root, object).len() == 5 && store::keep_words(root, object)[2] == root
                && store::keep_words(root, object)[4] == object by {}
        assert forall|w1: Disk, printed: Seq<u8>, w2: Disk|
            #![trigger disk::stores(w, w1), bytes::trimmed(printed), w1.same_but(g, w2)]
            disk::stores(w, w1) && w1.same_but(g, w2) && w2.sound() && {
                let s = path::components(bytes::trimmed(printed));
                disk::in_vault(s) && s.len() == disk::vault().len() + 1 && w1.get(s) is Some
                    && disk::mirrored(w, c, w1, s)
            } implies post(w2, Ok(bytes::trimmed(printed))) by {
            let s = path::components(bytes::trimmed(printed));
            lemma_trimmed(printed);
            assert(grown(w, w1, zone));
            lemma_grown_zone(w1, w2, g, zone);
            lemma_grown_trans(w, w1, w2, zone);
            assert forall|rest: Spot| #![trigger w2.get(s + rest)] disk::mirror(
                w.get(c + rest),
                w2.get(s + rest),
            ) by {
                assert((s + rest).take(s.len() as int) =~= s);
                assert(disk::below(s, s + rest));
                assert(w2.get(s + rest) == w1.get(s + rest));
            }
            assert(s.take(s.len() as int) =~= s);
            assert(disk::below(s, s));
        }
        assert forall|w1: Disk, w2: Disk, w3: Disk|
            #![trigger disk::stores(w, w1), w1.same_but(g, w2), w2.without(g, w3)]
            disk::stores(w, w1) && w1.same_but(g, w2) && w2.without(g, w3)
                && w3.sound() implies store::add_program(
            p,
            mode,
            name,
            root,
            (attempts - 1) as nat,
        ).meets(w3, post) by {
            assert(grown(w, w1, zone));
            lemma_grown_zone(w1, w2, g, zone);
            lemma_grown_trans(w, w1, w2, zone);
            assert(w2.same_but(g, w3));
            lemma_grown_zone(w2, w3, g, zone);
            lemma_grown_trans(w, w2, w3, zone);
            lemma_add(w3, p, mode, name, root, (attempts - 1) as nat, zone);
            lemma_added_later(w, w3, c, zone);
        }
        assert forall|w1: Disk, w2: Disk|
            #![trigger disk::stores(w, w1), w1.same_but(g, w2)]
            disk::stores(w, w1) && w1.same_but(g, w2)
                && w2.sound() implies store::add_program(
            p,
            mode,
            name,
            root,
            (attempts - 1) as nat,
        ).meets(w2, post) by {
            assert(grown(w, w1, zone));
            lemma_grown_zone(w1, w2, g, zone);
            lemma_grown_trans(w, w1, w2, zone);
            lemma_add(w2, p, mode, name, root, (attempts - 1) as nat, zone);
            lemma_added_later(w, w2, c, zone);
        }
    }
}

/// What was added after the store grew was added all the same.
proof fn lemma_added_later(w: Disk, u: Disk, c: Spot, zone: Spot)
    requires
        grown(w, u, zone),
        disk::apart(c, zone),
        disk::apart(c, disk::vault()),
    ensures
        forall|v: Disk, r: Result<Seq<u8>, Trouble>| #[trigger]
            added(u, c, zone)(v, r) ==> added(w, c, zone)(v, r),
{
    assert forall|v: Disk, r: Result<Seq<u8>, Trouble>| #[trigger]
        added(u, c, zone)(v, r) implies added(w, c, zone)(v, r) by {
        if r is Ok {
            let s = path::components(r->Ok_0);
            lemma_grown_trans(w, u, v, zone);
            assert forall|rest: Spot| #![trigger v.get(s + rest)] disk::mirror(
                w.get(c + rest),
                v.get(s + rest),
            ) by {
                lemma_grown_away(w, u, zone, c, rest);
                assert(disk::mirror(u.get(c + rest), v.get(s + rest)));
            }
        }
    }
}

/// Whether what a managed entry at `c` is made of leaves the directory at `zone` alone: the entry
/// does not lie there, and the directory does not belong to it.
pub open spec fn avoids(node: Node, c: Spot, zone: Spot) -> bool {
    !disk::below(zone, c) && !owns(node, c, zone)
}

/// Whether what `f` manages below `root` leaves the directory at `zone` alone: the root does not lie
/// there, and the directory, which may lie below the root, does not belong to what is managed.
pub open spec fn clear_of(f: Forest, root: Spot, zone: Spot) -> bool {
    !disk::below(zone, root) && !owned(f, root, zone)
}

/// Whether what `f` manages below `root`, the directory at `zone` and the store are out of each
/// other's way.
pub open spec fn spread(f: Forest, root: Spot, zone: Spot) -> bool {
    &&& clear_of(f, root, zone)
    &&& disk::apart(root, disk::vault())
    &&& disk::apart(zone, disk::vault())
}

/// What is managed leaves a directory alone exactly where nothing at that directory or below belongs
/// to it; so it does where the directory is apart from the root.
pub proof fn law_clear_of(f: Forest, root: Spot, zone: Spot)
    requires
        !disk::below(zone, root),
    ensures
        clear_of(f, root, zone) <==> forall|j: Spot| #[trigger]
            disk::below(zone, j) ==> !owned(f, root, j),
        disk::apart(root, zone) ==> clear_of(f, root, zone),
{
    assert(zone.take(zone.len() as int) =~= zone);
    assert(disk::below(zone, zone));
    if !owned(f, root, zone) {
        assert forall|j: Spot| #[trigger] disk::below(zone, j) implies !owned(f, root, j) by {
            managed::lemma_owned_above(f, root, zone, j);
        }
    }
    if owned(f, root, zone) {
        managed::lemma_owned_within(f, root, zone);
    }
}

/// What is managed above a directory that it leaves alone is a directory, and so on below.
pub proof fn law_clear_above(f: Forest, root: Spot, zone: Spot, name: Seq<u8>, node: Node)
    requires
        clear_of(f, root, zone),
        tree::lookup(f, name) == Some(node),
        disk::below(root.push(Component::Normal(name)), zone),
    ensures
        node matches Node::Directory { tree, .. } && clear_of(
            tree,
            root.push(Component::Normal(name)),
            zone,
        ),
{
    let c = root.push(Component::Normal(name));
    if owns(node, c, zone) {
        managed::lemma_owned_lookup(f, root, name, zone);
    }
    if disk::below(zone, c) {
        assert(c.take(c.len() as int) =~= c);
        assert(zone =~= c);
    }
}

/// The entries of a tree leave a directory alone where the tree does.
pub proof fn lemma_avoids(f: Forest, c: Spot, zone: Spot)
    requires
        clear_of(f, c, zone),
        f.len() > 0,
    ensures
        avoids(f[0].1, c.push(Component::Normal(f[0].0)), zone),
        clear_of(f.skip(1), c, zone),
{
    let x = Component::Normal(f[0].0);
    let k = c.push(x);
    if disk::below(zone, k) {
        placed::lemma_below_push(c, x);
        placed::lemma_below_push(k, x);
        placed::lemma_below_both(c, zone, k);
        assert(zone =~= k);
        assert(owns(f[0].1, k, k));
    }
}

/// The entry that is found under a name leaves a directory alone where the tree does.
pub proof fn lemma_avoids_lookup(f: Forest, c: Spot, zone: Spot, name: Seq<u8>)
    requires
        clear_of(f, c, zone),
        tree::lookup(f, name) is Some,
    ensures
        avoids(tree::lookup(f, name)->Some_0, c.push(Component::Normal(name)), zone),
{
    let x = Component::Normal(name);
    let k = c.push(x);
    let node = tree::lookup(f, name)->Some_0;
    if owns(node, k, zone) {
        managed::lemma_owned_lookup(f, c, name, zone);
    }
    if disk::below(zone, k) {
        placed::lemma_below_push(c, x);
        placed::lemma_below_push(k, x);
        placed::lemma_below_both(c, zone, k);
        assert(zone =~= k);
        assert(owns(node, k, k));
    }
}

/// Whether what an entry is made from is in the store.
pub open spec fn stored(node: Node) -> bool
    decreases node, 1int,
{
    match node {
        Node::Directory { tree, .. } => tree_stored(tree),
        Node::Copy { source, .. } => disk::in_vault(path::components(source)),
        Node::Snapshot { source, .. } => disk::in_vault(path::components(source)),
        _ => true,
    }
}

/// Whether what the entries of a tree are made from is in the store.
pub open spec fn tree_stored(f: Forest) -> bool
    decreases f, 0int,
{
    f.len() == 0 || (stored(f[0].1) && tree_stored(f.skip(1)))
}

/// Whether `former` is a directory only where `node` is one, and then they hold the same names.
pub open spec fn matched(node: Node, former: Node) -> bool
    decreases node, 1int,
{
    match (node, former) {
        (Node::Directory { tree, .. }, Node::Directory { tree: former_tree, .. }) => tree_matched(
            tree,
            former_tree,
        ),
        (_, Node::Directory { .. }) => false,
        _ => true,
    }
}

/// Whether two trees hold the same names, and so on below.
pub open spec fn tree_matched(f: Forest, former: Forest) -> bool
    decreases f, 0int,
{
    f.len() == former.len() && (f.len() == 0 || {
        &&& f[0].0 == former[0].0
        &&& matched(f[0].1, former[0].1)
        &&& tree_matched(f.skip(1), former.skip(1))
    })
}

/// Everything below the root of the image but what lies in `zone` stays while the store grows.
pub proof fn lemma_grown_root(w: Disk, v: Disk, root: Spot, zone: Spot, j: Spot)
    requires
        grown(w, v, zone),
        disk::apart(root, disk::vault()),
        disk::below(root, j),
        !lies_in(zone, j),
    ensures
        v.get(j) == w.get(j),
{
    if disk::below(disk::vault(), j) {
        placed::lemma_below_both(root, disk::vault(), j);
    }
}

/// What an entry is made from stays while the store grows.
pub proof fn lemma_sourced_grown(w: Disk, v: Disk, node: Node, root: Spot, zone: Spot)
    requires
        grown(w, v, zone),
        stored(node),
        placed::sourced(w, node, root),
    ensures
        placed::sourced(v, node, root),
    decreases node, 1int,
{
    match node {
        Node::Directory { tree, .. } => {
            lemma_tree_sourced_grown(w, v, tree, root, zone);
        },
        Node::Copy { source, .. } => {
            let s = path::components(source);
            assert(s.take(s.len() as int) =~= s);
            assert(disk::below(s, s));
        },
        Node::Snapshot { source, modes } => {
            let s = path::components(source);
            assert forall|rest: Spot| #![trigger v.get(s + rest)] v.get(s + rest) == w.get(
                s + rest,
            ) by {
                assert((s + rest).take(s.len() as int) =~= s);
                assert(disk::below(s, s + rest));
            }
            assert(s + Seq::empty() =~= s);
            assert(v.get(s + Seq::empty()) == w.get(s + Seq::empty()));
        },
        _ => {},
    }
}

pub proof fn lemma_tree_sourced_grown(w: Disk, v: Disk, f: Forest, root: Spot, zone: Spot)
    requires
        grown(w, v, zone),
        tree_stored(f),
        placed::tree_sourced(w, f, root),
    ensures
        placed::tree_sourced(v, f, root),
    decreases f, 0int,
{
    if f.len() > 0 {
        lemma_sourced_grown(w, v, f[0].1, root, zone);
        lemma_tree_sourced_grown(w, v, f.skip(1), root, zone);
    }
}

/// Whether `v` is like `w` below `root`, but for what lies in `zone`, and all that is in the store of
/// `w` is there on `v`, unchanged.
pub open spec fn untouched(w: Disk, v: Disk, root: Spot, zone: Spot) -> bool {
    &&& forall|j: Spot|
        #![trigger v.get(j)]
        disk::below(root, j) && !lies_in(zone, j) ==> v.get(j) == w.get(j)
    &&& forall|k: Spot, j: Spot| #[trigger]
        disk::below(k, j) && disk::in_vault(k) && w.get(k) is Some ==> v.get(j) == w.get(j)
}

/// While the store grows nothing changes below the root of the image but what lies in `zone`.
pub proof fn lemma_grown_untouched(w: Disk, v: Disk, root: Spot, zone: Spot)
    requires
        grown(w, v, zone),
        disk::apart(root, disk::vault()),
    ensures
        untouched(w, v, root, zone),
{
    assert forall|j: Spot|
        #![trigger v.get(j)]
        disk::below(root, j) && !lies_in(zone, j) implies v.get(j) == w.get(j) by {
        lemma_grown_root(w, v, root, zone, j);
    }
}

/// An entry stands where nothing changed as it stood before.
pub proof fn lemma_stands_untouched(
    w: Disk,
    v: Disk,
    node: Node,
    p: Seq<u8>,
    root: Spot,
    zone: Spot,
)
    requires
        untouched(w, v, root, zone),
        avoids(node, path::components(p), zone),
        stored(node),
        placed::proper(node),
        placed::sourced(w, node, root),
        disk::below(root, path::components(p)),
    ensures
        standing::stands(v, node, p) == standing::stands(w, node, p),
    decreases node, 1int,
{
    let c = path::components(p);
    assert(c.take(c.len() as int) =~= c);
    assert(owns(node, c, c));
    match node {
        Node::Directory { tree, .. } => {
            lemma_tree_stands_untouched(w, v, tree, p, root, zone);
        },
        Node::Copy { source, .. } => {
            let s = path::components(source);
            assert(s.take(s.len() as int) =~= s);
            assert(disk::below(s, s));
        },
        Node::Snapshot { source, modes } => {
            let s = path::components(source);
            assert forall|rest: Spot| #![trigger v.get(s + rest)] v.get(s + rest) == w.get(
                s + rest,
            ) by {
                assert((s + rest).take(s.len() as int) =~= s);
                assert(disk::below(s, s + rest));
            }
            assert forall|rest: Spot| #![trigger v.get(c + rest)] v.get(c + rest) == w.get(
                c + rest,
            ) by {
                assert((c + rest).take(c.len() as int) =~= c);
                placed::lemma_below_trans(root, c, c + rest);
                if disk::below(zone, c + rest) {
                    placed::lemma_below_both(zone, c, c + rest);
                }
            }
            assert(standing::alike(v, s, c, Seq::empty(), modes) == standing::alike(
                w,
                s,
                c,
                Seq::empty(),
                modes,
            ));
        },
        _ => {},
    }
}

pub proof fn lemma_tree_stands_untouched(
    w: Disk,
    v: Disk,
    f: Forest,
    p: Seq<u8>,
    root: Spot,
    zone: Spot,
)
    requires
        untouched(w, v, root, zone),
        clear_of(f, path::components(p), zone),
        tree_stored(f),
        placed::tree_proper(f),
        placed::tree_sourced(w, f, root),
        disk::below(root, path::components(p)),
    ensures
        standing::tree_stands(v, f, p) == standing::tree_stands(w, f, p),
    decreases f, 0int,
{
    if f.len() > 0 {
        path::lemma_entry(p, f[0].0);
        placed::lemma_below_push(path::components(p), Component::Normal(f[0].0));
        placed::lemma_below_trans(
            root,
            path::components(p),
            path::components(path::join(p, f[0].0)),
        );
        lemma_avoids(f, path::components(p), zone);
        lemma_stands_untouched(w, v, f[0].1, path::join(p, f[0].0), root, zone);
        lemma_tree_stands_untouched(w, v, f.skip(1), p, root, zone);
    }
}

/// Whether what stood and belongs to the former entry at `c` belongs to the entry; of what lies in
/// `zone` or in the store this is not said.
pub open spec fn covers(w: Disk, node: Node, former: Node, c: Spot, zone: Spot) -> bool {
    forall|j: Spot|
        #![trigger owns(former, c, j)]
        w.get(j) is Some && !lies_in(zone, j) && !disk::below(disk::vault(), j) && owns(
            former,
            c,
            j,
        ) ==> owns(node, c, j)
}

/// Whether what stood and belongs to the former tree below `c` belongs to the tree; of what lies in
/// `zone` or in the store this is not said.
pub open spec fn tree_covers(w: Disk, f: Forest, former: Forest, c: Spot, zone: Spot) -> bool {
    forall|j: Spot|
        #![trigger owned(former, c, j)]
        w.get(j) is Some && !lies_in(zone, j) && !disk::below(disk::vault(), j) && owned(
            former,
            c,
            j,
        ) ==> owned(f, c, j)
}

/// Where a directory stands that a tree leaves alone, what is captured for the tree leaves it alone.
pub proof fn lemma_covers_clear(
    w: Disk,
    f: Forest,
    former: Forest,
    c: Spot,
    zone: Spot,
    outer: Spot,
)
    requires
        tree_covers(w, f, former, c, zone),
        clear_of(f, c, outer),
        disk::below(c, outer) ==> w.get(outer) is Some,
        !lies_in(zone, outer),
        disk::apart(outer, disk::vault()),
    ensures
        clear_of(former, c, outer),
{
    if owned(former, c, outer) {
        managed::lemma_owned_within(former, c, outer);
    }
}

/// That a disk is sound and, if the operation succeeded, what was captured stands at `p`.
pub open spec fn captured(w: Disk, node: Node, p: Seq<u8>, root: Spot, zone: Spot) -> spec_fn(
    Disk,
    Result<(Node, usize), Trouble>,
) -> bool {
    |v: Disk, r: Result<(Node, usize), Trouble>|
        v.sound() && (r matches Ok(t) ==> {
            &&& grown(w, v, zone)
            &&& standing::stands(v, t.0, p)
            &&& placed::proper(t.0)
            &&& placed::sourced(v, t.0, root)
            &&& stored(t.0)
            &&& matched(node, t.0)
            &&& covers(w, node, t.0, path::components(p), zone)
        })
}

/// Whether a captured tree is one that stands at `p`, with the names of `f`.
pub open spec fn is_capture(v: Disk, f: Forest, g: Forest, p: Seq<u8>, root: Spot) -> bool {
    &&& standing::tree_stands(v, g, p)
    &&& placed::tree_proper(g)
    &&& placed::tree_sourced(v, g, root)
    &&& tree_stored(g)
    &&& tree_matched(f, g)
}

/// That a disk is sound and, if the operation succeeded, what was captured stands below `p`.
pub open spec fn tree_captured(
    w: Disk,
    f: Forest,
    before: Forest,
    p: Seq<u8>,
    root: Spot,
    zone: Spot,
) -> spec_fn(Disk, Result<(Forest, usize), Trouble>) -> bool {
    |v: Disk, r: Result<(Forest, usize), Trouble>|
        v.sound() && (r matches Ok(t) ==> {
            &&& grown(w, v, zone)
            &&& t.0.len() >= before.len()
            &&& t.0.take(before.len() as int) == before
            &&& is_capture(v, f, t.0.skip(before.len() as int), p, root)
            &&& tree_covers(w, f, t.0.skip(before.len() as int), path::components(p), zone)
        })
}

/// A backup holds what stood at `p`.
proof fn lemma_snapshot_captured(
    w: Disk,
    node: Node,
    m: Metadata,
    p: Seq<u8>,
    roots: Seq<u8>,
    n: usize,
    root: Spot,
)
    requires
        w.sound(),
        w.at(p) matches Some(o) && disk::describes(m, o),
        path::components(p).len() > 0,
        disk::below(root, path::components(p)),
        disk::apart(path::components(p), path::components(roots)),
        disk::apart(root, disk::vault()),
        disk::apart(path::components(roots), disk::vault()),
        avoids(node, path::components(p), path::components(roots)),
        !(node is Directory && disk::is_directory(w.at(p))),
    ensures
        backup::snapshot_program(p, m, roots, n).meets(
            w,
            captured(w, node, p, root, path::components(roots)),
        ),
{
    let zone = path::components(roots);
    let c = path::components(p);
    let none = Seq::<Component<Seq<u8>>>::empty();
    let nothing = Seq::<(Seq<u8>, u32)>::empty();
    let post = captured(w, node, p, root, zone);
    standing::lemma_nothing();
    assert(c + none =~= c);
    assert forall|rest: Spot| #![trigger standing::mode_of(nothing, rest)] standing::mode_of(
        nothing,
        rest,
    ) is None by {}
    lemma_collect(w, p, Seq::empty(), m, nothing);
    let keeper = path::join(roots, bytes::decimal(n as nat));
    lemma_decimal(n as nat);
    path::lemma_entry(roots, bytes::decimal(n as nat));
    placed::lemma_below_push(zone, Component::Normal(bytes::decimal(n as nat)));
    assert(disk::apart(c, disk::vault())) by {
        placed::lemma_apart_below(disk::vault(), root, c);
    }
    lemma_add(
        w,
        p,
        bytes::text("nar"@),
        bytes::text("tohru-backup"@),
        keeper,
        u64::MAX as nat,
        zone,
    );
    assert forall|q: Result<Modes, Trouble>, v: Disk, r: Result<Seq<u8>, Trouble>|
        #![trigger collected(w, c, none, nothing)(w, q), added(w, c, zone)(v, r)]
        collected(w, c, none, nothing)(w, q) && added(w, c, zone)(v, r) && q is Ok
            && r is Ok implies post(
        v,
        Ok((Node::Snapshot { source: r->Ok_0, modes: q->Ok_0 }, backup::next(n))),
    ) by {
        let (modes, source) = (q->Ok_0, r->Ok_0);
        let s = path::components(source);
        assert(disk::apart(s, root)) by {
            placed::lemma_apart_below(root, disk::vault(), s);
        }
        assert forall|rest: Spot| #![trigger v.get(s + rest)] {
            &&& disk::mirror(w.get(c + rest), v.get(s + rest))
            &&& v.get(c + rest) == w.get(c + rest)
            &&& standing::mode_of(modes, rest) == perm_of(w.get(c + rest))
            &&& !(w.get(c + rest) matches Some(Object::Other(_)))
        } by {
            lemma_grown_away(w, v, zone, c, rest);
            assert(rest.take(0) =~= none);
            assert(disk::below(none, rest));
        }
        assert(placed::kept(v, source, modes, root));
        assert forall|rest: Spot| #[trigger] disk::below(none, rest) implies standing::twin(
            v.get(s + rest),
            v.get(c + rest),
            standing::mode_of(modes, rest),
        ) by {
            assert(disk::mirror(w.get(c + rest), v.get(s + rest)));
        }
        assert(v.at(p) == w.at(p)) by {
            lemma_grown_away(w, v, zone, c, none);
        }
        lemma_covers_bare(w, node, Node::Snapshot { source, modes }, c, zone);
    }
}

/// What is captured where no managed directory stands covers nothing more than the entry.
proof fn lemma_covers_bare(w: Disk, node: Node, former: Node, c: Spot, zone: Spot)
    requires
        w.sound(),
        c.len() > 0,
        !(node is Directory && disk::is_directory(w.get(c))),
        !(former is Directory),
    ensures
        covers(w, node, former, c, zone),
{
    assert forall|j: Spot|
        #![trigger owns(former, c, j)]
        w.get(j) is Some && owns(former, c, j) implies owns(node, c, j) by {
        managed::lemma_owns_within(former, c, j);
    }
}

/// A number is the name of an entry.
pub proof fn lemma_decimal(n: nat)
    ensures
        path::is_plain(bytes::decimal(n)),
    decreases n,
{
    lemma_digits(n);
    let d = bytes::decimal(n);
    assert(d.len() > 0);
    assert forall|i: int| 0 <= i < d.len() implies d[i] != bytes::SLASH by {}
    assert(d[0] != bytes::DOT);
}

proof fn lemma_digits(n: nat)
    ensures
        bytes::decimal(n).len() > 0,
        forall|i: int| 0 <= i < bytes::decimal(n).len() ==> 48 <= #[trigger] bytes::decimal(n)[i] <= 57,
    decreases n,
{
    if n >= 10 {
        lemma_digits(n / 10);
    }
}

/// The entry with the last name is put last.
pub proof fn lemma_put_last(f: Forest, name: Seq<u8>, node: Node)
    requires
        forall|i: int| 0 <= i < f.len() ==> bytes::precedes((#[trigger] f[i]).0, name),
    ensures
        tree::put(f, name, node) == f.push((name, node)),
{
    lemma_put_last_at(f, name);
    assert(f.insert(f.len() as int, (name, node)) =~= f.push((name, node)));
}

proof fn lemma_put_last_at(f: Forest, name: Seq<u8>)
    requires
        forall|i: int| 0 <= i < f.len() ==> bytes::precedes((#[trigger] f[i]).0, name),
    ensures
        tree::slot(f, name) == f.len(),
        tree::place(f, name) == f.len(),
    decreases f.len(),
{
    if f.len() > 0 {
        assert(bytes::precedes(f[0].0, name));
        bytes::lemma_precedes_total(name, name);
        if bytes::precedes(name, f[0].0) {
            bytes::lemma_precedes_transitive(name, f[0].0, name);
        }
        let later = f.skip(1);
        assert forall|i: int| 0 <= i < later.len() implies bytes::precedes(
            (#[trigger] later[i]).0,
            name,
        ) by {
            assert(later[i] == f[i + 1]);
        }
        lemma_put_last_at(later, name);
    }
}

/// What is captured stands where it stood.
pub proof fn law_capture(
    w: Disk,
    node: Node,
    dir: Seq<u8>,
    name: Seq<u8>,
    roots: Seq<u8>,
    n: usize,
    root: Spot,
)
    requires
        w.sound(),
        path::is_plain(name),
        disk::below(root, path::components(dir)),
        disk::apart(root, disk::vault()),
        disk::apart(path::components(roots), disk::vault()),
        avoids(node, path::components(path::join(dir, name)), path::components(roots)),
        disk::below(path::components(path::join(dir, name)), path::components(roots)) ==> w.at(
            roots,
        ) is Some,
        placed::proper(node),
        tree::orderly_node(node),
    ensures
        backup::capture_program(node, path::join(dir, name), roots, n).meets(
            w,
            captured(w, node, path::join(dir, name), root, path::components(roots)),
        ),
    decreases node, 1int,
{
    let p = path::join(dir, name);
    let c = path::components(p);
    let zone = path::components(roots);
    let post = captured(w, node, p, root, zone);
    path::lemma_entry(dir, name);
    placed::lemma_below_push(path::components(dir), Component::Normal(name));
    placed::lemma_below_trans(root, path::components(dir), c);
    assert(c.take(c.len() as int) =~= c);
    assert(owns(node, c, c));
    assert forall|m: Metadata| #![trigger disk::describes(m, w.at(p)->Some_0)] w.at(p) is Some
        && disk::describes(m, w.at(p)->Some_0) && !(node is Directory && disk::is_directory(
        w.at(p),
    )) implies backup::snapshot_program(p, m, roots, n).meets(w, post) by {
        lemma_snapshot_captured(w, node, m, p, roots, n, root);
    }
    if w.at(p) is None {
        lemma_covers_bare(w, node, Node::Absent, c, zone);
    }
    match node {
        Node::Directory { mode, tree } => {
            if disk::is_directory(w.at(p)) {
                let none = Seq::<(Seq<u8>, Node)>::empty();
                law_tree_capture(w, tree, p, roots, n, none, root);
                assert forall|v: Disk, r: Result<(Forest, usize), Trouble>, m: Metadata|
                    #![trigger tree_captured(w, tree, none, p, root, zone)(v, r), disk::describes(m, w.at(p)->Some_0)]
                    tree_captured(w, tree, none, p, root, zone)(v, r) && r is Ok
                        && disk::describes(m, w.at(p)->Some_0) implies post(
                    v,
                    Ok(
                        (
                            Node::Directory { mode: m.permissions(), tree: (r->Ok_0).0 },
                            (r->Ok_0).1,
                        ),
                    ),
                ) by {
                    let g = (r->Ok_0).0;
                    assert(g.skip(0) =~= g);
                    lemma_grown_root(w, v, root, zone, c);
                    lemma_permissions(m);
                    assert forall|j: Spot|
                        #![trigger owns(Node::Directory { mode: m.permissions(), tree: g }, c, j)]
                        w.get(j) is Some && !lies_in(zone, j) && !disk::below(disk::vault(), j)
                            && owns(
                            Node::Directory { mode: m.permissions(), tree: g },
                            c,
                            j,
                        ) implies owns(node, c, j) by {
                        assert(j == c || owned(g, c, j));
                    }
                }
            }
        },
        _ => {},
    }
}

/// What is captured of a tree stands where it stood.
#[verifier::rlimit(30)]
pub proof fn law_tree_capture(
    w: Disk,
    f: Forest,
    p: Seq<u8>,
    roots: Seq<u8>,
    n: usize,
    before: Forest,
    root: Spot,
)
    requires
        w.sound(),
        disk::below(root, path::components(p)),
        disk::apart(root, disk::vault()),
        disk::apart(path::components(roots), disk::vault()),
        clear_of(f, path::components(p), path::components(roots)),
        disk::below(path::components(p), path::components(roots)) ==> w.at(roots) is Some,
        placed::tree_proper(f),
        tree::orderly(f),
        forall|i: int, j: int|
            #![trigger before[i], f[j]]
            0 <= i < before.len() && 0 <= j < f.len() ==> bytes::precedes(before[i].0, f[j].0),
    ensures
        backup::tree_capture_program(f, p, roots, n, before).meets(
            w,
            tree_captured(w, f, before, p, root, path::components(roots)),
        ),
    decreases f, 0int,
{
    let zone = path::components(roots);
    let post = tree_captured(w, f, before, p, root, zone);
    if f.len() == 0 {
        assert(before.take(before.len() as int) =~= before);
        assert(before.skip(before.len() as int).len() == 0);
    } else {
        let (name, node) = (f[0].0, f[0].1);
        let later = f.skip(1);
        let q = path::join(p, name);
        path::lemma_entry(p, name);
        placed::lemma_below_push(path::components(p), Component::Normal(name));
        placed::lemma_below_trans(root, path::components(p), path::components(q));
        lemma_avoids(f, path::components(p), zone);
        if disk::below(path::components(q), zone) {
            placed::lemma_below_trans(path::components(p), path::components(q), zone);
        }
        law_capture(w, node, p, name, roots, n, root);
        assert forall|w1: Disk, r: Result<(Node, usize), Trouble>| #[trigger]
            captured(w, node, q, root, zone)(w1, r)
                && r is Ok implies backup::tree_capture_program(
            later,
            p,
            roots,
            (r->Ok_0).1,
            tree::put(before, name, (r->Ok_0).0),
        ).meets(w1, post) by {
            let found = (r->Ok_0).0;
            assert forall|i: int| 0 <= i < before.len() implies bytes::precedes(
                (#[trigger] before[i]).0,
                name,
            ) by {
                assert(bytes::precedes(before[i].0, f[0].0));
            }
            lemma_put_last(before, name, found);
            let more = before.push((name, found));
            lemma_orderly_rest(f);
            assert forall|i: int, j: int|
                #![trigger more[i], later[j]]
                0 <= i < more.len() && 0 <= j < later.len() implies bytes::precedes(
                more[i].0,
                later[j].0,
            ) by {
                assert(later[j] == f[j + 1]);
                if i < before.len() {
                    assert(more[i] == before[i]);
                    assert(bytes::precedes(before[i].0, f[j + 1].0));
                } else {
                    assert(bytes::precedes(f[0].0, f[j + 1].0));
                }
            }
            assert(disk::below(path::components(p), zone) ==> w1.get(zone) is Some) by {
                if disk::below(disk::vault(), zone) {
                    placed::lemma_below_both(disk::vault(), zone, zone);
                }
            }
            law_tree_capture(w1, later, p, roots, (r->Ok_0).1, more, root);
            assert forall|v: Disk, t: Result<(Forest, usize), Trouble>| #[trigger]
                tree_captured(w1, later, more, p, root, zone)(v, t) implies post(v, t) by {
                if t is Ok {
                    let g = (t->Ok_0).0;
                    let tail = g.skip(more.len() as int);
                    let whole = g.skip(before.len() as int);
                    lemma_grown_trans(w, w1, v, zone);
                    assert(g.take(before.len() as int) =~= g.take(more.len() as int).take(
                        before.len() as int,
                    ));
                    assert(more.take(before.len() as int) =~= before);
                    assert(g[before.len() as int] == g.take(more.len() as int)[before.len() as int]);
                    assert(whole[0] == (name, found));
                    assert(whole.skip(1) =~= tail);
                    lemma_grown_untouched(w1, v, root, zone);
                    lemma_found_avoids(w, node, found, path::components(q), zone);
                    lemma_stands_untouched(w1, v, found, q, root, zone);
                    lemma_covers_more(w, w1, f, whole, path::components(p), zone);
                    lemma_sourced_grown(w1, v, found, root, zone);
                    lemma_matched_names(later, tail);
                    assert forall|i: int| 0 < i < whole.len() implies (#[trigger] whole[i]).0
                        != whole[0].0 by {
                        assert(whole[i] == tail[i - 1]);
                        assert(tail[i - 1].0 == later[i - 1].0);
                        assert(later[i - 1] == f[i]);
                    }
                }
            }
        }
    }
}

/// What was captured for an entry leaves alone the directory that the entry leaves alone.
proof fn lemma_found_avoids(w: Disk, node: Node, found: Node, c: Spot, zone: Spot)
    requires
        covers(w, node, found, c, zone),
        avoids(node, c, zone),
        disk::below(c, zone) ==> w.get(zone) is Some,
        disk::apart(zone, disk::vault()),
    ensures
        avoids(found, c, zone),
{
    if owns(found, c, zone) {
        managed::lemma_owns_within(found, c, zone);
    }
}

/// What is captured for a tree covers what is captured for its first entry and for the others.
proof fn lemma_covers_more(w: Disk, w1: Disk, f: Forest, g: Forest, c: Spot, zone: Spot)
    requires
        f.len() > 0,
        g.len() > 0,
        f[0].0 == g[0].0,
        grown(w, w1, zone),
        covers(w, f[0].1, g[0].1, c.push(Component::Normal(f[0].0)), zone),
        tree_covers(w1, f.skip(1), g.skip(1), c, zone),
    ensures
        tree_covers(w, f, g, c, zone),
{
    let k = c.push(Component::Normal(f[0].0));
    assert forall|j: Spot|
        #![trigger owned(g, c, j)]
        w.get(j) is Some && !lies_in(zone, j) && !disk::below(disk::vault(), j) && owned(
            g,
            c,
            j,
        ) implies owned(f, c, j) by {
        assert(w1.get(j) == w.get(j));
        if owns(g[0].1, k, j) {
            assert(owns(f[0].1, k, j));
        } else {
            assert(owned(g.skip(1), c, j));
        }
    }
}

/// The names of matched trees are the same.
pub proof fn lemma_matched_names(f: Forest, g: Forest)
    requires
        tree_matched(f, g),
    ensures
        f.len() == g.len(),
        forall|i: int| #![trigger g[i]] #![trigger f[i]] 0 <= i < f.len() ==> f[i].0 == g[i].0,
    decreases f.len(),
{
    if f.len() > 0 {
        lemma_matched_names(f.skip(1), g.skip(1));
        assert forall|i: int| #![trigger g[i]] #![trigger f[i]] 0 <= i < f.len() implies f[i].0
            == g[i].0 by {
            if i > 0 {
                assert(f.skip(1)[i - 1] == f[i]);
                assert(g.skip(1)[i - 1] == g[i]);
            }
        }
    }
}

/// The later entries of an orderly tree are orderly.
pub proof fn lemma_orderly_rest(f: Forest)
    requires
        tree::orderly(f),
        f.len() > 0,
    ensures
        tree::orderly(f.skip(1)),
        tree::orderly_node(f[0].1),
{
    let later = f.skip(1);
    assert forall|i: int, j: int| 0 <= i < j < later.len() implies bytes::precedes(
        (#[trigger] later[i]).0,
        (#[trigger] later[j]).0,
    ) by {
        assert(later[i] == f[i + 1] && later[j] == f[j + 1]);
    }
    assert forall|i: int| 0 <= i < later.len() implies tree::orderly_node(
        (#[trigger] later[i]).1,
    ) by {
        assert(later[i] == f[i + 1]);
    }
}

/// That permissions, if they were collected, come in the order of their paths.
pub open spec fn in_order<W>() -> spec_fn(W, Result<Modes, Trouble>) -> bool {
    |v: W, r: Result<Modes, Trouble>| r matches Ok(list) ==> backup::ascending(list)
}

/// Permissions are collected in the order of their paths, whatever is answered.
pub proof fn law_collect_ascending<W: World>(
    w: W,
    root: Seq<u8>,
    rel: Seq<u8>,
    m: Metadata,
    modes: Modes,
)
    requires
        backup::ascending(modes),
    ensures
        backup::modes_program(root, rel, m, modes).meets(w, in_order()),
    decreases usize::MAX - rel.len(), 1int, 0int,
{
    let more = backup::with_mode(modes, rel, m.permissions());
    backup::law_with_mode_ascending(modes, rel, m.permissions());
    let post = in_order::<W>();
    assert forall|x: Answer, v: W| #[trigger]
        w.leads(Request::ReadDir(path::join(root, rel)), x, v)
            && x.names() is Ok implies backup::names_modes_program(
        root,
        rel,
        x.names()->Ok_0,
        more,
    ).meets(v, post) by {
        lemma_collect_names_ascending(v, root, rel, x.names()->Ok_0, more);
    }
}

proof fn lemma_collect_names_ascending<W: World>(
    w: W,
    root: Seq<u8>,
    rel: Seq<u8>,
    names: Seq<Seq<u8>>,
    modes: Modes,
)
    requires
        backup::ascending(modes),
    ensures
        backup::names_modes_program(root, rel, names, modes).meets(w, in_order()),
    decreases usize::MAX - rel.len(), 0int, names.len(),
{
    if names.len() > 0 {
        let child = path::join(rel, names[0]);
        let look = Request::Stat(path::join(path::join(root, rel), names[0]));
        let post = in_order::<W>();
        assert forall|x: Answer, v: W| #[trigger]
            w.leads(look, x, v) && x.stats() is Ok && entry::deeper(
                rel,
                child,
            ) implies backup::modes_program(root, child, x.stats()->Ok_0, modes).meets(v, post) by {
            law_collect_ascending(v, root, child, x.stats()->Ok_0, modes);
        }
        assert forall|u: W, r: Result<Modes, Trouble>| #[trigger]
            post(u, r) && r is Ok implies backup::names_modes_program(
            root,
            rel,
            names.skip(1),
            r->Ok_0,
        ).meets(u, post) by {
            lemma_collect_names_ascending(u, root, rel, names.skip(1), r->Ok_0);
        }
    }
}

} // verus!
