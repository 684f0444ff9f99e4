//! That mounting puts an image on a disk, and unmounting puts back what stood there.
use vstd::prelude::*;

use crate::atomic;
use crate::backed;
use crate::backup;
use crate::bytes;
use crate::disk;
use crate::disk::{Disk, Object, Spot};
use crate::error::Trouble;
use crate::guarded;
use crate::host::Answer;
use crate::managed;
use crate::path;
use crate::path::Component;
use crate::placed;
use crate::program::Program;
use crate::quiet;
use crate::reason;
use crate::reason::World;
use crate::standing;
use crate::state;
use crate::state::{ActivationModel, StatePaths, Transaction};
use crate::store;
use crate::tree;
use crate::tree::{Forest, Node};
use crate::turned;

verus! {

broadcast use crate::reason::group_reason;

/// Any program leaves a sound disk, on which written forms mean what they meant.
pub open spec fn intact<R>(w: Disk) -> spec_fn(Disk, R) -> bool {
    |v: Disk, r: R| v.sound() && v.records == w.records && v.journals == w.journals
}

pub proof fn lemma_intact<R>(p: Program<R>, w: Disk)
    requires
        w.sound(),
    ensures
        p.meets(w, intact(w)),
    decreases p,
{
    match p {
        Program::Done(r) => {},
        Program::Ask(request, f) => {
            assert forall|x: Answer, v: Disk| #[trigger] w.leads(request, x, v) implies f(x).meets(
                v,
                intact(w),
            ) by {
                lemma_intact(f(x), v);
            }
        },
        Program::Stuck => {},
    }
}

/// That a disk is sound and, if the operation succeeded, it changed at most below `c`.
pub open spec fn changed<R>(w: Disk, c: Spot) -> spec_fn(Disk, Result<R, Trouble>) -> bool {
    |v: Disk, r: Result<R, Trouble>| v.sound() && (r is Ok ==> w.same_but(c, v))
}

/// That a disk is sound and, if the operation succeeded, a file with `contents` stands at `p`,
/// and nothing else changed.
pub open spec fn written(w: Disk, p: Seq<u8>, contents: Seq<u8>) -> spec_fn(
    Disk,
    Result<(), Trouble>,
) -> bool {
    |v: Disk, r: Result<(), Trouble>|
        v.sound() && (r is Ok ==> (v.at(p) matches Some(Object::File(data, _)) && data == contents)
            && w.same_but(path::components(p), v))
}

/// What is written to an entry of a directory is there.
pub proof fn law_write(w: Disk, dir: Seq<u8>, name: Seq<u8>, contents: Seq<u8>)
    requires
        w.sound(),
        path::is_plain(name),
    ensures
        atomic::write_program(path::join(dir, name), contents).meets(
            w,
            written(w, path::join(dir, name), contents),
        ),
{
    let p = path::join(dir, name);
    let c = path::components(p);
    path::lemma_parent(dir, name);
    path::lemma_entry(dir, name);
    let d = path::parent(p)->Some_0;
    let post = written(w, p, contents);
    assert(c.take(c.len() as int) =~= c);
    assert(Seq::<u8>::empty() + contents =~= contents);
    assert forall|t: Seq<u8>, m: u32, w1: Disk| #[trigger]
        disk::creates(w, d, t, Object::File(Seq::empty(), m), w1)
            && w1.sound() implies atomic::cleaned_on_failure(
        t,
        atomic::write_body(p, contents, t),
        atomic::sync_program(d),
    ).meets(w1, post) by {
        let k = path::components(t);
        assert(w1.get(k) == Some(Object::File(Seq::empty(), m)));
        assert forall|w2: Disk, w3: Disk|
            #![trigger w1.with(k, Object::File(Seq::<u8>::empty() + contents, m), w2), disk::renames(w2, k, c, w3)]
            w1.with(k, Object::File(Seq::<u8>::empty() + contents, m), w2) && disk::renames(
                w2,
                k,
                c,
                w3,
            ) && w3.sound() implies post(w3, Ok(())) by {
            assert(k + c.skip(c.len() as int) =~= k);
            if k != c {
                assert(w3.get(c) == w2.get(k + c.skip(c.len() as int)));
            }
            assert forall|j: Spot| #![trigger w3.get(j)] !disk::below(c, j) implies w3.get(j)
                == w.get(j) by {
                if disk::below(k, j) {
                    placed::lemma_void(w, k, j);
                }
                if j == k {
                    assert(j.take(j.len() as int) =~= j);
                }
            }
        }
    }
}

/// Removing a file changes nothing else.
pub proof fn lemma_remove_file(w: Disk, dir: Seq<u8>, name: Seq<u8>)
    requires
        w.sound(),
        path::is_plain(name),
    ensures
        atomic::remove_program(path::join(dir, name)).meets(
            w,
            turned::cleared(w, path::join(dir, name)),
        ),
{
    let c = path::components(path::join(dir, name));
    path::lemma_parent(dir, name);
    assert(c.take(c.len() as int) =~= c);
}

/// The names of what is kept for an image are names of entries.
pub proof fn lemma_state_names()
    ensures
        path::is_plain(bytes::text("images"@)),
        path::is_plain(bytes::text("current"@)),
        path::is_plain(bytes::text("transaction"@)),
        path::is_plain(bytes::text("preparing"@)),
        path::is_plain(bytes::text("gc-roots"@)),
        path::is_plain(bytes::text("activation"@)),
{
    reveal_strlit("images");
    reveal_strlit("current");
    reveal_strlit("transaction");
    reveal_strlit("preparing");
    reveal_strlit("gc-roots");
    reveal_strlit("activation");
    lemma_plain_text("images"@);
    lemma_plain_text("current"@);
    lemma_plain_text("transaction"@);
    lemma_plain_text("preparing"@);
    lemma_plain_text("gc-roots"@);
    lemma_plain_text("activation"@);
}

/// A longer text of plain characters without a slash is the name of an entry.
proof fn lemma_plain_text(s: Seq<char>)
    requires
        s.len() > 2,
        vstd::utf8::is_ascii_chars(s),
        forall|i: int| 0 <= i < s.len() ==> #[trigger] s[i] != '/',
    ensures
        path::is_plain(bytes::text(s)),
{
    vstd::utf8::is_ascii_chars_encode_utf8(s);
    let b = bytes::text(s);
    assert(b.len() == s.len());
    assert forall|i: int| 0 <= i < b.len() implies b[i] != bytes::SLASH by {
        assert(b[i] == s[i] as u8);
        assert(s[i] != '/');
    }
}

/// Whether these are the places where the state of an image is kept.
pub open spec fn are_places(paths: StatePaths<Seq<u8>>) -> bool {
    &&& paths.current == path::join(paths.directory, bytes::text("current"@))
    &&& paths.journal == path::join(paths.directory, bytes::text("transaction"@))
    &&& paths.preparing == path::join(paths.directory, bytes::text("preparing"@))
    &&& paths.gc_roots == path::join(paths.directory, bytes::text("gc-roots"@))
}

/// What is kept for an image lies in the directory of its state.
pub proof fn lemma_places(paths: StatePaths<Seq<u8>>)
    requires
        are_places(paths),
    ensures
        disk::below(path::components(paths.directory), path::components(paths.current)),
        disk::below(path::components(paths.directory), path::components(paths.journal)),
        disk::below(path::components(paths.directory), path::components(paths.preparing)),
        disk::below(path::components(paths.directory), path::components(paths.gc_roots)),
        path::components(paths.current) == path::components(paths.directory).push(
            Component::Normal(bytes::text("current"@)),
        ),
        path::components(paths.preparing) == path::components(paths.directory).push(
            Component::Normal(bytes::text("preparing"@)),
        ),
        path::components(paths.journal) != path::components(paths.directory),
        path::components(paths.gc_roots) != path::components(paths.directory),
        path::components(paths.current) != path::components(paths.directory),
        path::components(paths.preparing) != path::components(paths.directory),
{
    let d = path::components(paths.directory);
    lemma_state_names();
    path::lemma_entry(paths.directory, bytes::text("current"@));
    path::lemma_entry(paths.directory, bytes::text("transaction"@));
    path::lemma_entry(paths.directory, bytes::text("preparing"@));
    path::lemma_entry(paths.directory, bytes::text("gc-roots"@));
    placed::lemma_below_push(d, Component::Normal(bytes::text("current"@)));
    placed::lemma_below_push(d, Component::Normal(bytes::text("transaction"@)));
    placed::lemma_below_push(d, Component::Normal(bytes::text("preparing"@)));
    placed::lemma_below_push(d, Component::Normal(bytes::text("gc-roots"@)));
    assert forall|x: Component<Seq<u8>>| #[trigger] d.push(x) != d by {
        assert(d.push(x).len() != d.len());
    }
}

/// That a disk is sound and, if the operation succeeded, it changed at most below `zone` and by
/// new objects in the store.
pub open spec fn tended<R>(w: Disk, zone: Spot) -> spec_fn(Disk, Result<R, Trouble>) -> bool {
    |v: Disk, r: Result<R, Trouble>|
        v.sound() && v.records == w.records && (r is Ok ==> backed::grown(w, v, zone))
}

/// What changes only in a narrower zone changes only in a wider one.
proof fn lemma_grown_wider(w: Disk, v: Disk, zone: Spot, wider: Spot)
    requires
        backed::grown(w, v, zone),
        disk::below(wider, zone),
    ensures
        backed::grown(w, v, wider),
{
    assert forall|j: Spot|
        #![trigger v.get(j)]
        !disk::below(disk::vault(), j) && (!disk::below(wider, j) || j == wider) implies v.get(j)
        == w.get(j) by {
        if disk::below(zone, j) {
            placed::lemma_below_trans(wider, zone, j);
            if j == wider {
                assert(zone.take(wider.len() as int) =~= zone);
                assert(j.take(zone.len() as int) == zone);
            }
        }
    }
}

/// Changes below `zone` are changes below `zone`.
pub proof fn lemma_changed_tended<R>(p: Program<Result<R, Trouble>>, w: Disk, c: Spot, zone: Spot)
    requires
        w.sound(),
        p.meets(w, changed(w, c)),
        disk::below(zone, c),
        zone != c,
        disk::apart(zone, disk::vault()),
    ensures
        p.meets(w, tended(w, zone)),
{
    lemma_intact(p, w);
    reason::lemma_both(p, w, changed(w, c), intact(w));
    let both = |v: Disk, r: Result<R, Trouble>| changed(w, c)(v, r) && intact(w)(v, r);
    assert forall|v: Disk, r: Result<R, Trouble>| #[trigger]
        both(v, r) implies tended(w, zone)(v, r) by {
        if r is Ok {
            backed::lemma_grown_zone(w, v, c, zone);
        }
    }
    reason::lemma_weaken(p, w, both, tended(w, zone));
}

/// Removing the roots of what was being prepared changes nothing else.
pub proof fn lemma_remove_preparing(w: Disk, paths: StatePaths<Seq<u8>>, zone: Spot)
    requires
        w.sound(),
        are_places(paths),
        zone == path::components(paths.directory),
        disk::apart(zone, disk::vault()),
    ensures
        state::remove_preparing_program(paths).meets(w, tended(w, zone)),
        state::remove_preparing_program(paths).meets(
            w,
            changed(w, path::components(paths.preparing)),
        ),
{
    lemma_places(paths);
    let p = state::remove_preparing_program(paths);
    assert(p.meets(w, changed(w, path::components(paths.preparing))));
    lemma_changed_tended(p, w, path::components(paths.preparing), zone);
}

/// Writing down what is under way changes nothing else.
pub proof fn lemma_write_transaction(
    w: Disk,
    paths: StatePaths<Seq<u8>>,
    t: Transaction<Seq<u8>>,
    zone: Spot,
)
    requires
        w.sound(),
        are_places(paths),
        zone == path::components(paths.directory),
        disk::apart(zone, disk::vault()),
    ensures
        state::write_transaction_program(paths, t).meets(w, tended(w, zone)),
{
    lemma_places(paths);
    lemma_state_names();
    let p = state::write_transaction_program(paths, t);
    let c = path::components(paths.journal);
    assert forall|form: Seq<u8>|
        #![trigger atomic::write_program(paths.journal, form)]
        atomic::write_program(paths.journal, form).meets(w, changed(w, c)) by {
        law_write(w, paths.directory, bytes::text("transaction"@), form);
    }
    assert(p.meets(w, changed(w, c)));
    lemma_changed_tended(p, w, c, zone);
}

/// Writing down that nothing is under way changes nothing else.
pub proof fn lemma_clear_transaction(w: Disk, paths: StatePaths<Seq<u8>>, zone: Spot)
    requires
        w.sound(),
        are_places(paths),
        zone == path::components(paths.directory),
        disk::apart(zone, disk::vault()),
    ensures
        state::clear_transaction_program(paths).meets(w, tended(w, zone)),
        state::clear_transaction_program(paths).meets(
            w,
            changed(w, path::components(paths.journal)),
        ),
{
    lemma_places(paths);
    lemma_state_names();
    let p = state::clear_transaction_program(paths);
    let c = path::components(paths.journal);
    lemma_remove_file(w, paths.directory, bytes::text("transaction"@));
    assert(p.meets(w, changed(w, c)));
    lemma_changed_tended(p, w, c, zone);
}

/// Removing the roots of other activations changes nothing else.
pub proof fn lemma_clean_names(
    w: Disk,
    paths: StatePaths<Seq<u8>>,
    names: Seq<Seq<u8>>,
    keep: Option<Seq<u8>>,
)
    requires
        w.sound(),
        crate::host::all_plain(names),
    ensures
        state::clean_names_program(paths, names, keep).meets(
            w,
            changed(w, path::components(paths.gc_roots)),
        ),
    decreases names.len(),
{
    let g = path::components(paths.gc_roots);
    let post = changed::<()>(w, g);
    if names.len() > 0 {
        let later = names.skip(1);
        let x = Component::Normal(names[0]);
        assert(path::is_plain(names[0]));
        path::lemma_entry(paths.gc_roots, names[0]);
        placed::lemma_below_push(g, x);
        assert forall|i: int| 0 <= i < later.len() implies path::is_plain(#[trigger] later[i]) by {
            assert(later[i] == names[i + 1]);
        }
        lemma_clean_names(w, paths, later, keep);
        assert forall|w1: Disk| #[trigger] w.without(g.push(x), w1) && w1.sound() implies state::clean_names_program(
            paths,
            later,
            keep,
        ).meets(w1, post) by {
            lemma_clean_names(w1, paths, later, keep);
            assert(w.same_but(g, w1)) by {
                assert forall|j: Spot| #![trigger w1.get(j)] !disk::below(g, j) implies w1.get(j)
                    == w.get(j) by {
                    if disk::below(g.push(x), j) {
                        placed::lemma_below_trans(g, g.push(x), j);
                    }
                }
            }
            assert forall|v: Disk, r: Result<(), Trouble>| #[trigger]
                changed::<()>(w1, g)(v, r) implies post(v, r) by {
                assert forall|j: Spot|
                    #![trigger v.get(j)]
                    r is Ok && !disk::below(g, j) implies v.get(j) == w.get(j) by {
                    assert(w1.get(j) == w.get(j));
                }
            }
        }
    }
}

pub proof fn lemma_clean(w: Disk, paths: StatePaths<Seq<u8>>, current: Option<Seq<u8>>, zone: Spot)
    requires
        w.sound(),
        are_places(paths),
        zone == path::components(paths.directory),
        disk::apart(zone, disk::vault()),
    ensures
        state::clean_program(paths, current).meets(w, tended(w, zone)),
        state::clean_program(paths, current).meets(
            w,
            changed(w, path::components(paths.gc_roots)),
        ),
{
    lemma_places(paths);
    let p = state::clean_program(paths, current);
    let c = path::components(paths.gc_roots);
    assert forall|x: Answer|
        #![trigger x.names()]
        x.names() matches Ok(names) ==> forall|keep: Option<Seq<u8>>|
            #[trigger] state::clean_names_program(paths, names, keep).meets(w, changed(w, c)) by {
        if x.names() is Ok {
            let names = x.names()->Ok_0;
            assert forall|keep: Option<Seq<u8>>| #[trigger]
                state::clean_names_program(paths, names, keep).meets(w, changed(w, c)) by {
                lemma_clean_names(w, paths, names, keep);
            }
        }
    }
    assert(p.meets(w, changed(w, c)));
    lemma_changed_tended(p, w, c, zone);
}

/// Whether the record of an activation is at `p`.
pub open spec fn holds(v: Disk, p: Seq<u8>, a: ActivationModel) -> bool {
    &&& disk::in_vault(path::components(p))
    &&& bytes::trimmed(p) == p
    &&& v.at(p) matches Some(Object::File(form, _)) && v.records.dom().contains(form)
        && v.records[form] == a
}

/// A record stays while the store grows.
pub proof fn lemma_holds_grown(w: Disk, v: Disk, p: Seq<u8>, a: ActivationModel, zone: Spot)
    requires
        holds(w, p, a),
        backed::grown(w, v, zone),
        v.records == w.records,
    ensures
        holds(v, p, a),
{
    let s = path::components(p);
    assert(s.take(s.len() as int) =~= s);
    assert(disk::below(s, s));
}

proof fn lemma_keep_all(w: Disk, dir: Seq<u8>, objects: Seq<Seq<u8>>, number: nat)
    requires
        w.sound(),
    ensures
        store::keep_all_program(dir, objects, number).meets(w, changed(w, path::components(dir))),
    decreases objects.len(),
{
    let g = path::components(dir);
    let post = changed::<()>(w, g);
    if objects.len() > 0 {
        let name = bytes::decimal(number);
        let root = path::join(dir, name);
        let x = Component::Normal(name);
        let words = store::keep_words(root, objects[0]);
        backed::lemma_decimal(number);
        path::lemma_entry(dir, name);
        placed::lemma_below_push(g, x);
        assert(words.len() == 5 && words[2] == root && words[4] == objects[0]);
        assert forall|w1: Disk| #[trigger] w.same_but(g.push(x), w1) && w1.sound() implies store::keep_all_program(
            dir,
            objects.skip(1),
            number + 1,
        ).meets(w1, post) by {
            lemma_keep_all(w1, dir, objects.skip(1), number + 1);
            turned::lemma_same_but_root(w, g.push(x), g, w1);
            assert forall|v: Disk, r: Result<(), Trouble>| #[trigger]
                changed::<()>(w1, g)(v, r) implies post(v, r) by {
                assert forall|j: Spot|
                    #![trigger v.get(j)]
                    r is Ok && !disk::below(g, j) implies v.get(j) == w.get(j) by {
                    assert(w1.get(j) == w.get(j));
                }
            }
        }
    }
}

/// Making new roots keep an activation changes nothing but the roots.
proof fn lemma_root(
    w: Disk,
    paths: StatePaths<Seq<u8>>,
    activation: Seq<u8>,
    a: ActivationModel,
    root: Seq<u8>,
)
    requires
        w.sound(),
        disk::below(path::components(paths.gc_roots), path::components(root)),
    ensures
        state::root_program(paths, activation, a, root).meets(
            w,
            changed(w, path::components(paths.gc_roots)),
        ),
{
    let (g, c) = (path::components(paths.gc_roots), path::components(root));
    let post = changed::<()>(w, g);
    assert(c.take(c.len() as int) =~= c);
    assert forall|m: u32, w1: Disk, objects: Seq<Seq<u8>>|
        #![trigger w.with(c, Object::Directory(m), w1), store::ordered(objects)]
        w.with(c, Object::Directory(m), w1) && w1.sound() implies store::keep_all_program(
        root,
        store::ordered(objects),
        0,
    ).meets(w1, post) by {
        lemma_keep_all(w1, root, store::ordered(objects), 0);
        assert(w.same_but(c, w1));
        turned::lemma_same_but_root(w, c, g, w1);
        assert forall|v: Disk, r: Result<(), Trouble>| #[trigger]
            changed::<()>(w1, c)(v, r) implies post(v, r) by {
            if r is Ok {
                turned::lemma_same_but_root(w1, c, g, v);
                assert forall|j: Spot| #![trigger v.get(j)] !disk::below(g, j) implies v.get(j)
                    == w.get(j) by {
                    assert(w1.get(j) == w.get(j));
                }
            }
        }
    }
}

/// That a disk is sound and, if the operation succeeded, the record of an activation is in the
/// store.
pub open spec fn persisted(w: Disk, a: ActivationModel, zone: Spot) -> spec_fn(
    Disk,
    Result<Seq<u8>, Trouble>,
) -> bool {
    |v: Disk, r: Result<Seq<u8>, Trouble>|
        v.sound() && v.records == w.records && (r matches Ok(p) ==> backed::grown(w, v, zone)
            && holds(v, p, a))
}

/// Recording by way of a temporary file leaves a record.
#[verifier::rlimit(30)]
proof fn lemma_persist_body(
    w: Disk,
    a: ActivationModel,
    paths: StatePaths<Seq<u8>>,
    temporary: Seq<u8>,
    zone: Spot,
)
    requires
        w.sound(),
        are_places(paths),
        zone == path::components(paths.directory),
        disk::apart(zone, disk::vault()),
        disk::below(zone, path::components(temporary)),
        zone != path::components(temporary),
        disk::apart(path::components(temporary), path::components(paths.preparing)),
        w.at(temporary) matches Some(Object::File(data, _)) && data.len() == 0,
    ensures
        state::persist_body(a, paths, temporary).meets(w, persisted(w, a, zone)),
{
    let k = path::components(temporary);
    let g = path::components(paths.preparing);
    let post = persisted(w, a, zone);
    let none = Seq::<Component<Seq<u8>>>::empty();
    lemma_places(paths);
    lemma_state_names();
    assert(disk::apart(g, disk::vault())) by {
        placed::lemma_apart_below(disk::vault(), zone, g);
    }
    assert(disk::apart(k, disk::vault())) by {
        placed::lemma_apart_below(disk::vault(), zone, k);
    }
    let keeper = path::join(paths.preparing, bytes::text("activation"@));
    path::lemma_entry(paths.preparing, bytes::text("activation"@));
    placed::lemma_below_push(g, Component::Normal(bytes::text("activation"@)));
    assert forall|form: Seq<u8>, m: u32, w1: Disk|
        #![trigger w.with(k, Object::File(form, m), w1)]
        w.with(k, Object::File(form, m), w1) && w1.sound() && w1.records == w.records
            && w.records.dom().contains(form) && w.records[form] == a implies store::add_program(
        temporary,
        bytes::text("text"@),
        bytes::text("tohru-activation"@),
        keeper,
        u64::MAX as nat,
    ).meets(w1, persisted(w, a, zone)) by {
        let p = store::add_program(
            temporary,
            bytes::text("text"@),
            bytes::text("tohru-activation"@),
            keeper,
            u64::MAX as nat,
        );
        backed::lemma_add(
            w1,
            temporary,
            bytes::text("text"@),
            bytes::text("tohru-activation"@),
            keeper,
            u64::MAX as nat,
            g,
        );
        lemma_intact(p, w1);
        reason::lemma_both(p, w1, backed::added(w1, k, g), intact(w1));
        let both = |v: Disk, r: Result<Seq<u8>, Trouble>|
            backed::added(w1, k, g)(v, r) && intact(w1)(v, r);
        assert forall|v: Disk, r: Result<Seq<u8>, Trouble>| #[trigger]
            both(v, r) implies post(v, r) by {
            if r is Ok {
                let s = path::components(r->Ok_0);
                assert(k + none =~= k);
                assert(s + none =~= s);
                assert(disk::mirror(w1.get(k + none), v.get(s + none)));
                assert(k.take(k.len() as int) =~= k);
                backed::lemma_grown_zone(w, w1, k, zone);
                lemma_grown_wider(w1, v, g, zone);
                backed::lemma_grown_trans(w, w1, v, zone);
            }
        }
        reason::lemma_weaken(p, w1, both, post);
    }
    assert forall|v: Disk, r: Result<Seq<u8>, Trouble>, root: Seq<u8>|
        #![trigger post(v, r), state::root_program(paths, r->Ok_0, a, root)]
        post(v, r) && r is Ok && state::gc_root_of(r->Ok_0, paths) == Ok::<_, Trouble>(
            root,
        ) implies state::root_program(paths, r->Ok_0, a, root).meets(
        v,
        |u: Disk, q: Result<(), Trouble>| u.sound() && u.records == w.records && (q is Ok ==> post(u, r)),
    ) by {
        lemma_rooted(w, v, a, paths, r->Ok_0, root, zone);
    }
}

/// A record is still there when roots were made for it.
proof fn lemma_rooted(
    w: Disk,
    v: Disk,
    a: ActivationModel,
    paths: StatePaths<Seq<u8>>,
    activation: Seq<u8>,
    root: Seq<u8>,
    zone: Spot,
)
    requires
        are_places(paths),
        zone == path::components(paths.directory),
        disk::apart(zone, disk::vault()),
        persisted(w, a, zone)(v, Ok(activation)),
        state::gc_root_of(activation, paths) == Ok::<_, Trouble>(root),
    ensures
        state::root_program(paths, activation, a, root).meets(
            v,
            |u: Disk, q: Result<(), Trouble>|
                u.sound() && u.records == w.records && (q is Ok ==> persisted(w, a, zone)(
                    u,
                    Ok(activation),
                )),
        ),
{
    let g = path::components(paths.gc_roots);
    let p = state::root_program(paths, activation, a, root);
    let post = |u: Disk, q: Result<(), Trouble>|
        u.sound() && u.records == w.records && (q is Ok ==> persisted(w, a, zone)(
            u,
            Ok(activation),
        ));
    lemma_places(paths);
    assert(disk::below(g, path::components(root))) by {
        lemma_file_name(activation);
        let name = path::file_name(activation)->Some_0;
        path::lemma_entry(paths.gc_roots, name);
        placed::lemma_below_push(g, Component::Normal(name));
    }
    lemma_root(v, paths, activation, a, root);
    lemma_changed_tended(p, v, g, zone);
    assert forall|u: Disk, q: Result<(), Trouble>| #[trigger] tended::<()>(v, zone)(u, q) implies post(
        u,
        q,
    ) by {
        if q is Ok {
            backed::lemma_grown_trans(w, v, u, zone);
            lemma_holds_grown(v, u, activation, a, zone);
        }
    }
    reason::lemma_weaken(p, v, tended::<()>(v, zone), post);
}

/// The last name of a path is the name of an entry.
pub proof fn lemma_file_name(p: Seq<u8>)
    ensures
        path::file_name(p) matches Some(name) ==> path::is_plain(name),
{
    path::lemma_last_plain(p);
}

/// Recording an activation leaves its record in the store.
#[verifier::rlimit(30)]
pub proof fn law_persist(w: Disk, a: ActivationModel, paths: StatePaths<Seq<u8>>, zone: Spot)
    requires
        w.sound(),
        are_places(paths),
        zone == path::components(paths.directory),
        disk::apart(zone, disk::vault()),
        w.at(paths.preparing) is Some,
    ensures
        state::persist_program(a, paths).meets(w, persisted(w, a, zone)),
{
    let g = path::components(paths.preparing);
    let post = persisted(w, a, zone);
    lemma_places(paths);
    assert forall|t: Seq<u8>, m: u32, w1: Disk| #[trigger]
        disk::creates(w, paths.directory, t, Object::File(Seq::empty(), m), w1) && w1.sound()
            && w1.records == w.records implies atomic::cleaned(
        t,
        state::persist_body(a, paths, t),
    ).meets(w1, post) by {
        let k = path::components(t);
        let n = choose|n: Seq<u8>| #[trigger]
            path::is_plain(n) && k == zone.push(Component::Normal(n));
        placed::lemma_below_push(zone, Component::Normal(n));
        assert(k != g);
        assert(disk::apart(k, g)) by {
            assert(k.take(k.len() as int) =~= k);
            assert(g.take(g.len() as int) =~= g);
        }
        lemma_persist_body(w1, a, paths, t, zone);
        assert(k.take(k.len() as int) =~= k);
        assert(w.same_but(k, w1));
        backed::lemma_grown_zone(w, w1, k, zone);
        assert forall|v: Disk, r: Result<Seq<u8>, Trouble>, u: Disk|
            #![trigger persisted(w1, a, zone)(v, r), v.without(k, u)]
            persisted(w1, a, zone)(v, r) && v.without(k, u) && u.sound() && u.records
                == v.records implies post(u, r) by {
            if r is Ok {
                assert(v.same_but(k, u));
                backed::lemma_grown_zone(v, u, k, zone);
                backed::lemma_grown_trans(w, w1, v, zone);
                backed::lemma_grown_trans(w, v, u, zone);
                lemma_holds_grown(v, u, r->Ok_0, a, zone);
            }
        }
    }
}

/// That a disk is sound and, if the operation succeeded, an activation of `f` is prepared: what
/// stood below `root` is in its baseline, and its record is in the store.
pub open spec fn prepared(w: Disk, root: Seq<u8>, f: Forest, zone: Spot) -> spec_fn(
    Disk,
    Result<(Seq<u8>, ActivationModel), Trouble>,
) -> bool {
    |v: Disk, r: Result<(Seq<u8>, ActivationModel), Trouble>|
        v.sound() && v.records == w.records && (r matches Ok(t) ==> {
            &&& backed::grown(w, v, zone)
            &&& t.1.root == root
            &&& t.1.projection == f
            &&& backed::is_capture(v, f, t.1.baseline, root, path::components(root))
            &&& backed::clear_of(t.1.baseline, path::components(root), zone)
            &&& v.get(zone) is Some
            &&& holds(v, t.0, t.1)
        })
}

/// What was captured is still there while the store grows.
pub proof fn lemma_capture_grown(
    w: Disk,
    v: Disk,
    f: Forest,
    g: Forest,
    p: Seq<u8>,
    root: Spot,
    zone: Spot,
)
    requires
        backed::grown(w, v, zone),
        disk::apart(root, disk::vault()),
        disk::below(root, path::components(p)),
        backed::clear_of(g, path::components(p), zone),
        backed::is_capture(w, f, g, p, root),
    ensures
        backed::is_capture(v, f, g, p, root),
{
    backed::lemma_grown_untouched(w, v, root, zone);
    backed::lemma_tree_stands_untouched(w, v, g, p, root, zone);
    backed::lemma_tree_sourced_grown(w, v, g, root, zone);
}

/// Preparing an activation does so.
#[verifier::rlimit(30)]
pub proof fn lemma_prepare(w: Disk, paths: StatePaths<Seq<u8>>, root: Seq<u8>, f: Forest, zone: Spot)
    requires
        w.sound(),
        are_places(paths),
        zone == path::components(paths.directory),
        backed::spread(f, path::components(root), zone),
        placed::tree_proper(f),
        tree::orderly(f),
    ensures
        state::prepare_program(paths, root, f).meets(w, prepared(w, root, f, zone)),
{
    let post = prepared(w, root, f, zone);
    let g = path::components(paths.preparing);
    let c = path::components(root);
    lemma_places(paths);
    lemma_remove_preparing(w, paths, zone);
    assert(c.take(c.len() as int) =~= c);
    assert(backed::spread(f, c, g)) by {
        if disk::below(g, c) {
            placed::lemma_below_trans(zone, g, c);
        }
        managed::lemma_owned_above(f, c, zone, g);
        placed::lemma_apart_below(disk::vault(), zone, g);
    }
    assert forall|w1: Disk, r: Result<(), Trouble>, m: u32, w2: Disk|
        #![trigger tended::<()>(w, zone)(w1, r), w1.with(g, Object::Directory(m), w2)]
        tended::<()>(w, zone)(w1, r) && r is Ok && w1.with(g, Object::Directory(m), w2)
            && w2.sound() && w2.records == w1.records implies backup::tree_capture_program(
        f,
        root,
        paths.preparing,
        0,
        Seq::empty(),
    ).and_then(
        |captured: (Forest, usize)|
            state::record_program(
                paths,
                ActivationModel { root, projection: f, baseline: captured.0 },
            ),
    ).meets(w2, post) by {
        let none = Seq::<(Seq<u8>, Node)>::empty();
        let capture = backup::tree_capture_program(f, root, paths.preparing, 0, none);
        assert(g.take(g.len() as int) =~= g);
        assert(w1.same_but(g, w2));
        backed::lemma_grown_zone(w1, w2, g, zone);
        backed::lemma_grown_trans(w, w1, w2, zone);
        backed::law_tree_capture(w2, f, root, paths.preparing, 0, none, c);
        lemma_intact(capture, w2);
        reason::lemma_both(
            capture,
            w2,
            backed::tree_captured(w2, f, none, root, c, g),
            intact(w2),
        );
        let both = |v: Disk, q: Result<(Forest, usize), Trouble>|
            backed::tree_captured(w2, f, none, root, c, g)(v, q) && intact(w2)(v, q);
        assert forall|v: Disk, q: Result<(Forest, usize), Trouble>| #[trigger]
            both(v, q) && q is Ok implies state::record_program(
            paths,
            ActivationModel { root, projection: f, baseline: (q->Ok_0).0 },
        ).meets(v, post) by {
            let b = (q->Ok_0).0;
            assert(b.skip(0) =~= b);
            lemma_grown_wider(w2, v, g, zone);
            backed::lemma_grown_trans(w, w2, v, zone);
            assert(v.get(g) == w2.get(g));
            assert(disk::below(g, g) && disk::below(zone, zone)) by {
                assert(zone.take(zone.len() as int) =~= zone);
            }
            assert(!disk::below(g, zone)) by {
                if disk::below(g, zone) {
                    assert(zone.take(g.len() as int) == g);
                    assert(g.take(zone.len() as int) == zone);
                    assert(g =~= zone);
                }
            }
            assert(zone.len() > 0) by {
                if zone.len() == 0 {
                    assert(disk::vault().take(0) =~= zone);
                }
            }
            assert(v.get(zone) is Some);
            assert(w2.get(zone) is Some);
            backed::lemma_covers_clear(w2, f, b, c, g, zone);
            lemma_record(
                w,
                v,
                paths,
                ActivationModel { root, projection: f, baseline: b },
                zone,
            );
        }
    }
}

/// Recording a prepared activation keeps it prepared.
proof fn lemma_record(
    w: Disk,
    v: Disk,
    paths: StatePaths<Seq<u8>>,
    a: ActivationModel,
    zone: Spot,
)
    requires
        v.sound(),
        v.records == w.records,
        are_places(paths),
        zone == path::components(paths.directory),
        backed::spread(a.projection, path::components(a.root), zone),
        backed::clear_of(a.baseline, path::components(a.root), zone),
        v.get(zone) is Some,
        v.at(paths.preparing) is Some,
        backed::grown(w, v, zone),
        backed::is_capture(v, a.projection, a.baseline, a.root, path::components(a.root)),
    ensures
        state::record_program(paths, a).meets(v, prepared(w, a.root, a.projection, zone)),
{
    let post = prepared(w, a.root, a.projection, zone);
    let c = path::components(a.root);
    assert(c.take(c.len() as int) =~= c);
    law_persist(v, a, paths, zone);
    assert forall|u: Disk, r: Result<Seq<u8>, Trouble>| #[trigger]
        persisted(v, a, zone)(u, r) && r is Ok implies state::remove_preparing_program(
        paths,
    ).meets(
        u,
        |x: Disk, q: Result<(), Trouble>|
            x.sound() && x.records == w.records && (q is Ok ==> post(x, Ok((r->Ok_0, a)))),
    ) by {
        lemma_remove_preparing(u, paths, zone);
        assert forall|x: Disk, q: Result<(), Trouble>| #[trigger]
            tended::<()>(u, zone)(x, q) && q is Ok implies post(x, Ok((r->Ok_0, a))) by {
            backed::lemma_grown_trans(v, u, x, zone);
            backed::lemma_grown_trans(w, v, x, zone);
            lemma_capture_grown(v, x, a.projection, a.baseline, a.root, c, zone);
            lemma_holds_grown(u, x, r->Ok_0, a, zone);
        }
    }
}

/// Whether something is to stand at every managed path of an entry.
pub open spec fn solid(node: Node) -> bool
    decreases node, 1int,
{
    match node {
        Node::Absent => false,
        Node::Directory { tree, .. } => tree_solid(tree),
        _ => true,
    }
}

/// Whether something is to stand at every managed path of a tree.
pub open spec fn tree_solid(f: Forest) -> bool
    decreases f, 0int,
{
    f.len() == 0 || (solid(f[0].1) && tree_solid(f.skip(1)))
}

/// What is solid and was reached stands.
pub proof fn lemma_reached_solid(w: Disk, from: Node, to: Node, p: Seq<u8>)
    requires
        turned::reached(w, from, to, p),
        solid(to),
        placed::proper(to),
        backed::matched(to, from),
    ensures
        standing::stands(w, to, p),
    decreases from, 1int,
{
    match (from, to) {
        (Node::Directory { tree: f, .. }, Node::Directory { tree: g, .. }) => {
            if !standing::stands(w, to, p) {
                assert forall|i: int| 0 <= i < g.len() implies tree::lookup(
                    g,
                    (#[trigger] g[i]).0,
                ) == Some(g[i].1) by {
                    lemma_lookup_at(g, i);
                }
                lemma_tree_reached_solid(w, f, g, g, p);
            }
        },
        _ => {},
    }
}

/// In a proper tree every entry is found by its name.
pub proof fn lemma_lookup_at(f: Forest, i: int)
    requires
        placed::tree_proper(f),
        0 <= i < f.len(),
    ensures
        tree::slot(f, f[i].0) == i,
        tree::lookup(f, f[i].0) == Some(f[i].1),
    decreases f.len(),
{
    if i > 0 {
        assert(f.skip(1)[i - 1] == f[i]);
        lemma_lookup_at(f.skip(1), i - 1);
        assert(f[i].0 != f[0].0);
    }
}

pub proof fn lemma_tree_reached_solid(w: Disk, from: Forest, all: Forest, to: Forest, p: Seq<u8>)
    requires
        turned::tree_reached(w, from, all, p),
        tree_solid(to),
        placed::tree_proper(to),
        backed::tree_matched(to, from),
        forall|i: int|
            0 <= i < to.len() ==> tree::lookup(all, (#[trigger] to[i]).0) == Some(to[i].1),
    ensures
        standing::tree_stands(w, to, p),
    decreases from, 0int,
{
    if to.len() > 0 {
        assert(tree::lookup(all, to[0].0) == Some(to[0].1));
        lemma_reached_solid(w, from[0].1, to[0].1, path::join(p, to[0].0));
        let later = to.skip(1);
        assert forall|i: int| 0 <= i < later.len() implies tree::lookup(
            all,
            (#[trigger] later[i]).0,
        ) == Some(later[i].1) by {
            assert(later[i] == to[i + 1]);
        }
        lemma_tree_reached_solid(w, from.skip(1), all, later, p);
    }
}

/// Whether an activation is one that mounting makes: its trees are of the right form, and what
/// they are made from is in the store.
pub open spec fn genuine(v: Disk, a: ActivationModel) -> bool {
    let root = path::components(a.root);
    &&& placed::tree_proper(a.projection)
    &&& placed::tree_proper(a.baseline)
    &&& placed::tree_sourced(v, a.projection, root)
    &&& placed::tree_sourced(v, a.baseline, root)
    &&& backed::tree_stored(a.projection)
    &&& backed::tree_stored(a.baseline)
    &&& backed::tree_matched(a.projection, a.baseline)
    &&& tree_solid(a.projection)
}

/// Whether an activation is written down as the one that is mounted.
pub open spec fn installed(
    v: Disk,
    paths: StatePaths<Seq<u8>>,
    p: Seq<u8>,
    a: ActivationModel,
) -> bool {
    &&& v.at(paths.current) matches Some(Object::File(line, _)) && line == state::line_of(p)
    &&& holds(v, p, a)
    &&& genuine(v, a)
}

/// Whether the trees of an activation, what is kept for its image and the store are out of each
/// other's way.
pub open spec fn housed(paths: StatePaths<Seq<u8>>, a: ActivationModel) -> bool {
    let (root, zone) = (path::components(a.root), path::components(paths.directory));
    backed::spread(a.projection, root, zone) && backed::clear_of(a.baseline, root, zone)
}

/// A genuine activation stays so while the store grows.
pub proof fn lemma_genuine_grown(w: Disk, v: Disk, a: ActivationModel, zone: Spot)
    requires
        genuine(w, a),
        backed::grown(w, v, zone),
    ensures
        genuine(v, a),
{
    let root = path::components(a.root);
    backed::lemma_tree_sourced_grown(w, v, a.projection, root, zone);
    backed::lemma_tree_sourced_grown(w, v, a.baseline, root, zone);
}

/// A genuine activation stays so while things change below its root.
pub proof fn lemma_genuine_root(w: Disk, v: Disk, a: ActivationModel)
    requires
        genuine(w, a),
        w.same_but(path::components(a.root), v),
    ensures
        genuine(v, a),
{
    let root = path::components(a.root);
    placed::lemma_tree_sourced_frame(w, v, a.projection, root);
    placed::lemma_tree_sourced_frame(w, v, a.baseline, root);
}

/// What a transition of a tree touches lies below its root.
pub proof fn lemma_tree_root(w: Disk, f: Forest, c: Spot, v: Disk)
    requires
        placed::same_but_tree(w, f, c, v),
    ensures
        w.same_but(c, v),
{
    assert forall|j: Spot| #![trigger v.get(j)] !disk::below(c, j) implies v.get(j) == w.get(j) by {
        if placed::touches(f, c, j) {
            placed::lemma_touches_below(f, c, j);
        }
    }
}

/// Changes below the root of an image leave the store as it is.
pub proof fn lemma_store_away(w: Disk, v: Disk, root: Spot, p: Seq<u8>, a: ActivationModel)
    requires
        w.same_but(root, v),
        disk::apart(root, disk::vault()),
        holds(w, p, a),
        v.records == w.records,
    ensures
        holds(v, p, a),
{
    let s = path::components(p);
    if disk::below(root, s) {
        placed::lemma_below_both(root, disk::vault(), s);
    }
}

/// That a disk is sound and, if the operation succeeded, an activation is mounted.
pub open spec fn entered(w: Disk, paths: StatePaths<Seq<u8>>, p: Seq<u8>, a: ActivationModel) -> spec_fn(
    Disk,
    Result<(), Trouble>,
) -> bool {
    |v: Disk, r: Result<(), Trouble>|
        v.sound() && v.records == w.records && (r is Ok ==> installed(v, paths, p, a)
            && standing::tree_stands(v, a.projection, a.root))
}

/// After an activation: the line is written, and what is left over is removed.
pub proof fn lemma_settle(
    w: Disk,
    v: Disk,
    paths: StatePaths<Seq<u8>>,
    p: Seq<u8>,
    a: ActivationModel,
    zone: Spot,
)
    requires
        v.sound(),
        v.records == w.records,
        are_places(paths),
        zone == path::components(paths.directory),
        backed::spread(a.projection, path::components(a.root), zone),
        genuine(v, a),
        holds(v, p, a),
        standing::tree_stands(v, a.projection, a.root),
    ensures
        state::write_current_program(paths, p).and_then(
            |u: ()|
                state::clear_transaction_program(paths).and_then(
                    |u: ()| state::clean_program(paths, Some(p)),
                ),
        ).meets(v, entered(w, paths, p, a)),
{
    let post = entered(w, paths, p, a);
    let c = path::components(paths.current);
    let root = path::components(a.root);
    lemma_places(paths);
    lemma_state_names();
    assert(root.take(root.len() as int) =~= root);
    law_write(v, paths.directory, bytes::text("current"@), state::line_of(p));
    let write = state::write_current_program(paths, p);
    lemma_intact(write, v);
    reason::lemma_both(
        write,
        v,
        written(v, paths.current, state::line_of(p)),
        intact(v),
    );
    let both = |u: Disk, r: Result<(), Trouble>|
        written(v, paths.current, state::line_of(p))(u, r) && intact(v)(u, r);
    assert forall|u: Disk, r: Result<(), Trouble>| #[trigger]
        both(u, r) && r is Ok implies state::clear_transaction_program(paths).and_then(
        |x: ()| state::clean_program(paths, Some(p)),
    ).meets(u, post) by {
        backed::lemma_grown_zone(v, u, c, zone);
        lemma_current_stays(w, v, u, paths, p, a, zone);
        assert(entered(w, paths, p, a)(u, Ok(())));
        lemma_tidied(w, u, paths, p, a, zone);
    }
}

/// An activation that is written down stands and stays genuine in the zone of its state.
pub proof fn lemma_current_stays(
    w: Disk,
    v: Disk,
    u: Disk,
    paths: StatePaths<Seq<u8>>,
    p: Seq<u8>,
    a: ActivationModel,
    zone: Spot,
)
    requires
        u.sound(),
        u.records == v.records,
        v.records == w.records,
        backed::spread(a.projection, path::components(a.root), zone),
        genuine(v, a),
        holds(v, p, a),
        standing::tree_stands(v, a.projection, a.root),
        backed::grown(v, u, zone),
        u.at(paths.current) matches Some(Object::File(line, _)) && line == state::line_of(p),
    ensures
        entered(w, paths, p, a)(u, Ok(())),
{
    let root = path::components(a.root);
    assert(root.take(root.len() as int) =~= root);
    lemma_genuine_grown(v, u, a, zone);
    lemma_holds_grown(v, u, p, a, zone);
    backed::lemma_grown_untouched(v, u, root, zone);
    backed::lemma_tree_stands_untouched(v, u, a.projection, a.root, root, zone);
}

/// Removing what is left over keeps an activation mounted.
pub proof fn lemma_tidied(
    w: Disk,
    u: Disk,
    paths: StatePaths<Seq<u8>>,
    p: Seq<u8>,
    a: ActivationModel,
    zone: Spot,
)
    requires
        are_places(paths),
        zone == path::components(paths.directory),
        backed::spread(a.projection, path::components(a.root), zone),
        entered(w, paths, p, a)(u, Ok(())),
    ensures
        state::clear_transaction_program(paths).and_then(
            |x: ()| state::clean_program(paths, Some(p)),
        ).meets(u, entered(w, paths, p, a)),
{
    let post = entered(w, paths, p, a);
    let j = path::components(paths.journal);
    let g = path::components(paths.gc_roots);
    lemma_places(paths);
    lemma_names_differ(paths);
    let clear = state::clear_transaction_program(paths);
    lemma_clear_transaction(u, paths, zone);
    reason::lemma_both(clear, u, tended(u, zone), changed(u, j));
    let both = |x: Disk, r: Result<(), Trouble>|
        tended::<()>(u, zone)(x, r) && changed::<()>(u, j)(x, r);
    assert forall|x: Disk, r: Result<(), Trouble>| #[trigger] both(x, r) && r is Ok implies state::clean_program(
        paths,
        Some(p),
    ).meets(x, post) by {
        assert(x.at(paths.current) == u.at(paths.current));
        lemma_current_stays(w, u, x, paths, p, a, zone);
        let clean = state::clean_program(paths, Some(p));
        lemma_clean(x, paths, Some(p), zone);
        reason::lemma_both(clean, x, tended(x, zone), changed(x, g));
        let again = |y: Disk, q: Result<(), Trouble>|
            tended::<()>(x, zone)(y, q) && changed::<()>(x, g)(y, q);
        assert forall|y: Disk, q: Result<(), Trouble>| #[trigger] again(y, q) implies post(y, q) by {
            if q is Ok {
                assert(y.at(paths.current) == x.at(paths.current));
                lemma_current_stays(w, x, y, paths, p, a, zone);
            }
        }
        reason::lemma_weaken(clean, x, again, post);
    }
}

/// What names the mounted activation lies apart from the other files of the state.
pub proof fn lemma_names_differ(paths: StatePaths<Seq<u8>>)
    requires
        are_places(paths),
    ensures
        !disk::below(path::components(paths.journal), path::components(paths.current)),
        !disk::below(path::components(paths.gc_roots), path::components(paths.current)),
        !disk::below(path::components(paths.preparing), path::components(paths.current)),
{
    let d = path::components(paths.directory);
    let (x, y, z) = (bytes::text("current"@), bytes::text("transaction"@), bytes::text("gc-roots"@));
    let t = bytes::text("preparing"@);
    lemma_state_names();
    path::lemma_entry(paths.directory, t);
    reveal_strlit("preparing");
    vstd::utf8::is_ascii_chars_encode_utf8("preparing"@);
    assert(t.len() == 9);
    lemma_state_names();
    path::lemma_entry(paths.directory, x);
    path::lemma_entry(paths.directory, y);
    path::lemma_entry(paths.directory, z);
    reveal_strlit("current");
    reveal_strlit("transaction");
    reveal_strlit("gc-roots");
    vstd::utf8::is_ascii_chars_encode_utf8("current"@);
    vstd::utf8::is_ascii_chars_encode_utf8("transaction"@);
    vstd::utf8::is_ascii_chars_encode_utf8("gc-roots"@);
    assert(x.len() == 7 && y.len() == 11 && z.len() == 8);
    let c = d.push(Component::Normal(x));
    placed::lemma_below_push(c, Component::Root);
    if disk::below(d.push(Component::Normal(y)), c) {
        placed::lemma_siblings(d, Component::Normal(y), Component::Normal(x), c);
    }
    if disk::below(d.push(Component::Normal(z)), c) {
        placed::lemma_siblings(d, Component::Normal(z), Component::Normal(x), c);
    }
    if disk::below(d.push(Component::Normal(t)), c) {
        placed::lemma_siblings(d, Component::Normal(t), Component::Normal(x), c);
    }
}

/// Whether all that is in the store of `u` is there on `v`, unchanged.
pub open spec fn preserved(u: Disk, v: Disk) -> bool {
    forall|k: Spot, j: Spot| #[trigger]
        disk::below(k, j) && disk::in_vault(k) && u.get(k) is Some ==> v.get(j) == u.get(j)
}

pub proof fn lemma_preserved_trans(w: Disk, u: Disk, v: Disk)
    requires
        preserved(w, u),
        preserved(u, v),
    ensures
        preserved(w, v),
{
    assert forall|k: Spot, j: Spot| #[trigger]
        disk::below(k, j) && disk::in_vault(k) && w.get(k) is Some implies v.get(j) == w.get(j) by {
        assert(k.take(k.len() as int) =~= k);
        assert(disk::below(k, k));
    }
}

/// Changes apart from the store preserve it.
pub proof fn lemma_preserved_away(w: Disk, v: Disk, c: Spot)
    requires
        w.same_but(c, v),
        disk::apart(c, disk::vault()),
    ensures
        preserved(w, v),
{
    assert forall|k: Spot, j: Spot| #[trigger]
        disk::below(k, j) && disk::in_vault(k) && w.get(k) is Some implies v.get(j) == w.get(j) by {
        placed::lemma_below_trans(disk::vault(), k, j);
        if disk::below(c, j) {
            placed::lemma_below_both(c, disk::vault(), j);
        }
    }
}

/// What is made from the preserved store still can be.
proof fn lemma_sourced_preserved(w: Disk, v: Disk, node: Node, root: Spot)
    requires
        preserved(w, v),
        backed::stored(node),
        placed::sourced(w, node, root),
    ensures
        placed::sourced(v, node, root),
    decreases node, 1int,
{
    match node {
        Node::Directory { tree, .. } => {
            lemma_tree_sourced_preserved(w, v, tree, root);
        },
        Node::Copy { source, .. } => {
            let s = path::components(source);
            assert(s.take(s.len() as int) =~= s);
            assert(disk::below(s, s));
        },
        Node::Snapshot { source, modes } => {
            let s = path::components(source);
            assert forall|rest: Spot| #![trigger v.get(s + rest)] v.get(s + rest) == w.get(
                s + rest,
            ) by {
                assert((s + rest).take(s.len() as int) =~= s);
                assert(disk::below(s, s + rest));
            }
            assert(s + Seq::empty() =~= s);
            assert(v.get(s + Seq::empty()) == w.get(s + Seq::empty()));
        },
        _ => {},
    }
}

pub proof fn lemma_tree_sourced_preserved(w: Disk, v: Disk, f: Forest, root: Spot)
    requires
        preserved(w, v),
        backed::tree_stored(f),
        placed::tree_sourced(w, f, root),
    ensures
        placed::tree_sourced(v, f, root),
    decreases f, 0int,
{
    if f.len() > 0 {
        lemma_sourced_preserved(w, v, f[0].1, root);
        lemma_tree_sourced_preserved(w, v, f.skip(1), root);
    }
}

/// That a disk is sound and, if the operation succeeded, an activation is mounted, and the store
/// is preserved.
pub open spec fn settled(w: Disk, paths: StatePaths<Seq<u8>>, p: Seq<u8>, a: ActivationModel) -> spec_fn(
    Disk,
    Result<(), Trouble>,
) -> bool {
    |v: Disk, r: Result<(), Trouble>| entered(w, paths, p, a)(v, r) && (r is Ok ==> preserved(w, v))
}

/// Nothing that is done after an activation touches what is in the store.
pub proof fn lemma_settle_preserves(
    w: Disk,
    paths: StatePaths<Seq<u8>>,
    p: Seq<u8>,
    current: Option<Seq<u8>>,
    zone: Spot,
)
    requires
        w.sound(),
        are_places(paths),
        zone == path::components(paths.directory),
        disk::apart(zone, disk::vault()),
    ensures
        state::write_current_program(paths, p).and_then(
            |u: ()|
                state::clear_transaction_program(paths).and_then(
                    |u: ()| state::clean_program(paths, current),
                ),
        ).meets(w, tended(w, zone)),
{
    let post = tended::<()>(w, zone);
    let c = path::components(paths.current);
    let write = state::write_current_program(paths, p);
    lemma_places(paths);
    lemma_state_names();
    law_write(w, paths.directory, bytes::text("current"@), state::line_of(p));
    assert(write.meets(w, changed(w, c)));
    lemma_changed_tended(write, w, c, zone);
    assert forall|u: Disk, r: Result<(), Trouble>| #[trigger]
        tended::<()>(w, zone)(u, r) && r is Ok implies state::clear_transaction_program(
        paths,
    ).and_then(|x: ()| state::clean_program(paths, current)).meets(u, post) by {
        lemma_tidy_tended(w, u, paths, current, zone);
    }
}

pub proof fn lemma_tidy_tended(
    w: Disk,
    u: Disk,
    paths: StatePaths<Seq<u8>>,
    current: Option<Seq<u8>>,
    zone: Spot,
)
    requires
        tended::<()>(w, zone)(u, Ok(())),
        are_places(paths),
        zone == path::components(paths.directory),
        disk::apart(zone, disk::vault()),
    ensures
        state::clear_transaction_program(paths).and_then(
            |x: ()| state::clean_program(paths, current),
        ).meets(u, tended::<()>(w, zone)),
{
    let post = tended::<()>(w, zone);
    lemma_clear_transaction(u, paths, zone);
    assert forall|x: Disk, r: Result<(), Trouble>| #[trigger]
        tended::<()>(u, zone)(x, r) && r is Ok implies state::clean_program(
        paths,
        current,
    ).meets(x, post) by {
        lemma_clean(x, paths, current, zone);
        backed::lemma_grown_trans(w, u, x, zone);
        assert forall|y: Disk, q: Result<(), Trouble>| #[trigger]
            tended::<()>(x, zone)(y, q) implies post(y, q) by {
            if q is Ok {
                backed::lemma_grown_trans(w, x, y, zone);
            }
        }
    }
}

/// Entering a prepared activation mounts it.
#[verifier::rlimit(30)]
pub proof fn lemma_enter(
    w: Disk,
    paths: StatePaths<Seq<u8>>,
    previous: Option<Seq<u8>>,
    p: Seq<u8>,
    a: ActivationModel,
    zone: Spot,
)
    requires
        w.sound(),
        are_places(paths),
        zone == path::components(paths.directory),
        backed::spread(a.projection, path::components(a.root), zone),
        genuine(w, a),
        holds(w, p, a),
    ensures
        state::enter_program(paths, previous, (p, a)).meets(w, settled(w, paths, p, a)),
{
    let post = settled(w, paths, p, a);
    let root = path::components(a.root);
    assert(root.take(root.len() as int) =~= root);
    lemma_write_transaction(w, paths, Transaction::Mount { previous, next: Some(p) }, zone);
    assert forall|w1: Disk, r: Result<(), Trouble>| #[trigger]
        tended::<()>(w, zone)(w1, r) && r is Ok implies state::activate_program(a).and_then(
        |u: ()|
            state::write_current_program(paths, p).and_then(
                |u: ()|
                    state::clear_transaction_program(paths).and_then(
                        |u: ()| state::clean_program(paths, Some(p)),
                    ),
            ),
    ).meets(w1, post) by {
        lemma_genuine_grown(w, w1, a, zone);
        lemma_holds_grown(w, w1, p, a, zone);
        turned::law_tree_transition(w1, a.baseline, a.projection, a.root, root);
        let act = state::activate_program(a);
        lemma_intact(act, w1);
        reason::lemma_both(
            act,
            w1,
            turned::tree_turned(w1, a.baseline, a.projection, a.root),
            intact(w1),
        );
        let both = |v: Disk, q: Result<(), Trouble>|
            turned::tree_turned(w1, a.baseline, a.projection, a.root)(v, q) && intact(w1)(v, q);
        assert forall|v: Disk, q: Result<(), Trouble>| #[trigger]
            both(v, q) && q is Ok implies state::write_current_program(paths, p).and_then(
            |u: ()|
                state::clear_transaction_program(paths).and_then(
                    |u: ()| state::clean_program(paths, Some(p)),
                ),
        ).meets(v, post) by {
            lemma_tree_root(w1, a.baseline, root, v);
            lemma_genuine_root(w1, v, a);
            lemma_store_away(w1, v, root, p, a);
            lemma_activated(v, a);
            lemma_settle(w, v, paths, p, a, zone);
            lemma_settle_preserves(v, paths, p, Some(p), zone);
            let rest = state::write_current_program(paths, p).and_then(
                |u: ()|
                    state::clear_transaction_program(paths).and_then(
                        |u: ()| state::clean_program(paths, Some(p)),
                    ),
            );
            reason::lemma_both(rest, v, entered(w, paths, p, a), tended(v, zone));
            let last = |y: Disk, t: Result<(), Trouble>|
                entered(w, paths, p, a)(y, t) && tended::<()>(v, zone)(y, t);
            assert forall|y: Disk, t: Result<(), Trouble>| #[trigger] last(y, t) implies post(y, t) by {
                if t is Ok {
                    lemma_preserved_away(w1, v, root);
                    lemma_preserved_trans(w, w1, v);
                    lemma_preserved_trans(w, v, y);
                }
            }
            reason::lemma_weaken(rest, v, last, post);
        }
    }
}

/// What an activation reached stands.
pub proof fn lemma_activated(v: Disk, a: ActivationModel)
    requires
        genuine(v, a),
        turned::tree_reached(v, a.baseline, a.projection, a.root),
    ensures
        standing::tree_stands(v, a.projection, a.root),
{
    let f = a.projection;
    assert forall|i: int| 0 <= i < f.len() implies tree::lookup(f, (#[trigger] f[i]).0) == Some(
        f[i].1,
    ) by {
        lemma_lookup_at(f, i);
    }
    lemma_tree_reached_solid(v, a.baseline, f, f, a.root);
}

/// That nothing changed and, if the operation succeeded, its value is `value`.
pub open spec fn gives<R>(w: Disk, value: R) -> spec_fn(Disk, Result<R, Trouble>) -> bool {
    |v: Disk, r: Result<R, Trouble>| v == w && (r matches Ok(found) ==> found == value)
}

/// Reading a record gives the activation that was recorded.
pub proof fn law_read(w: Disk, p: Seq<u8>, a: ActivationModel)
    requires
        w.sound(),
        holds(w, p, a),
    ensures
        state::read_program(p).meets(w, gives(w, a)),
{
}

/// The line that names an activation names it.
pub proof fn lemma_line(p: Seq<u8>)
    requires
        bytes::trimmed(p) == p,
    ensures
        bytes::trimmed(state::line_of(p)) == p,
{
    let line = state::line_of(p);
    assert(line.take(line.len() - 1) =~= p);
    assert(bytes::trailing_space(line) == 1);
}

/// Loading gives the activation that is written down as mounted.
pub proof fn law_load(w: Disk, paths: StatePaths<Seq<u8>>, p: Seq<u8>, a: ActivationModel)
    requires
        w.sound(),
        installed(w, paths, p, a),
    ensures
        state::load_program(paths).meets(w, gives(w, Some((p, a)))),
{
    lemma_line(p);
    law_read(w, p, a);
}

/// Loading gives back what was written down as mounted: the path without the line's end, and what is
/// recorded there.
pub proof fn law_write_load(w: Disk, paths: StatePaths<Seq<u8>>, p: Seq<u8>, a: ActivationModel)
    requires
        w.sound(),
        are_places(paths),
        bytes::trimmed(p) == p,
        w.at(p) matches Some(Object::File(form, _)) && w.records.dom().contains(form)
            && w.records[form] == a,
        path::components(p) != path::components(paths.current),
    ensures
        state::write_current_program(paths, p).and_then(|u: ()| state::load_program(paths)).meets(
            w,
            |v: Disk, r: Result<Option<(Seq<u8>, ActivationModel)>, Trouble>|
                r matches Ok(found) ==> found == Some((p, a)),
        ),
{
    let name = bytes::text("current"@);
    let line = state::line_of(p);
    let (c, s) = (path::components(paths.current), path::components(p));
    let post = |v: Disk, r: Result<Option<(Seq<u8>, ActivationModel)>, Trouble>|
        r matches Ok(found) ==> found == Some((p, a));
    lemma_state_names();
    lemma_line(p);
    law_write(w, paths.directory, name, line);
    let q = atomic::write_program(paths.current, line);
    lemma_intact(q, w);
    reason::lemma_both(q, w, intact(w), written(w, paths.current, line));
    let both = |v: Disk, r: Result<(), Trouble>|
        intact::<Result<(), Trouble>>(w)(v, r) && written(w, paths.current, line)(v, r);
    assert forall|v: Disk, r: Result<(), Trouble>| #[trigger]
        both(v, r) && r is Ok implies state::load_program(paths).meets(v, post) by {
        assert(disk::below(c, s) ==> v.get(s) is None);
    }
}

/// Loading gives nothing after it was written down that nothing is mounted.
pub proof fn law_remove_load(w: Disk, paths: StatePaths<Seq<u8>>)
    requires
        w.sound(),
        are_places(paths),
    ensures
        state::remove_current_program(paths).and_then(|u: ()| state::load_program(paths)).meets(
            w,
            |v: Disk, r: Result<Option<(Seq<u8>, ActivationModel)>, Trouble>|
                r matches Ok(found) ==> found is None,
        ),
{
    let c = path::components(paths.current);
    let post = |v: Disk, r: Result<Option<(Seq<u8>, ActivationModel)>, Trouble>|
        r matches Ok(found) ==> found is None;
    let cleared = |v: Disk, r: Result<(), Trouble>|
        v.sound() && (r is Ok ==> v.at(paths.current) is None);
    lemma_state_names();
    path::lemma_parent(paths.directory, bytes::text("current"@));
    assert(c.take(c.len() as int) =~= c);
    assert(state::remove_current_program(paths).meets(w, cleared));
    assert forall|v: Disk, r: Result<(), Trouble>| #[trigger]
        cleared(v, r) && r is Ok implies state::load_program(paths).meets(v, post) by {
        law_load_nothing(v, paths);
    }
}

/// Loading fails where an activation is written down as mounted that is not there.
pub proof fn law_load_lost(w: Disk, paths: StatePaths<Seq<u8>>, line: Seq<u8>, mode: u32)
    requires
        w.sound(),
        w.at(paths.current) == Some(Object::File(line, mode)),
        w.at(bytes::trimmed(line)) is None,
    ensures
        state::load_program(paths).meets(
            w,
            |v: Disk, r: Result<Option<(Seq<u8>, ActivationModel)>, Trouble>| v == w && r is Err,
        ),
{
}

/// Loading gives nothing where nothing is written down.
pub proof fn law_load_nothing(w: Disk, paths: StatePaths<Seq<u8>>)
    requires
        w.sound(),
        w.at(paths.current) is None,
    ensures
        state::load_program(paths).meets(w, gives(w, None)),
{
}

/// One activation at most is written down as mounted.
pub proof fn law_installed_once(
    w: Disk,
    paths: StatePaths<Seq<u8>>,
    p: Seq<u8>,
    a: ActivationModel,
    q: Seq<u8>,
    b: ActivationModel,
)
    requires
        installed(w, paths, p, a),
        installed(w, paths, q, b),
    ensures
        p == q,
        a == b,
{
    lemma_line(p);
    lemma_line(q);
}

/// That nothing changed and, if the operation succeeded, its value is what is written down as
/// mounted.
pub open spec fn loads(w: Disk, paths: StatePaths<Seq<u8>>) -> spec_fn(
    Disk,
    Result<Option<(Seq<u8>, ActivationModel)>, Trouble>,
) -> bool {
    |v: Disk, r: Result<Option<(Seq<u8>, ActivationModel)>, Trouble>|
        v == w && (r matches Ok(found) ==> {
            &&& w.at(paths.current) is None ==> found is None
            &&& forall|p: Seq<u8>, a: ActivationModel| #[trigger]
                installed(w, paths, p, a) ==> found == Some((p, a))
        })
}

/// Loading gives what is written down as mounted.
pub proof fn law_load_tells(w: Disk, paths: StatePaths<Seq<u8>>)
    requires
        w.sound(),
    ensures
        state::load_program(paths).meets(w, loads(w, paths)),
{
    let load = state::load_program(paths);
    let post = loads(w, paths);
    if w.at(paths.current) is None {
        law_load_nothing(w, paths);
        reason::lemma_weaken(load, w, gives(w, None), post);
    } else if exists|p: Seq<u8>, a: ActivationModel| #[trigger] installed(w, paths, p, a) {
        let (p, a) = choose|p: Seq<u8>, a: ActivationModel| #[trigger] installed(w, paths, p, a);
        law_load(w, paths, p, a);
        assert forall|q: Seq<u8>, b: ActivationModel| #[trigger]
            installed(w, paths, q, b) implies q == p && b == a by {
            law_installed_once(w, paths, p, a, q, b);
        }
        reason::lemma_weaken(load, w, gives(w, Some((p, a))), post);
    } else {
        quiet::lemma_load(paths);
        quiet::lemma_still(load, w);
        reason::lemma_weaken(load, w, quiet::still(w), post);
    }
}

/// Looking whether a mounted activation is as it was left changes nothing, and it is found to be
/// only if it stands.
pub proof fn law_verify(w: Disk, a: ActivationModel)
    requires
        w.sound(),
        genuine(w, a),
    ensures
        state::verify_program(a).meets(
            w,
            |v: Disk, r: Result<(), Trouble>|
                v == w && (r is Ok ==> standing::tree_stands(w, a.projection, a.root)),
        ),
{
    standing::law_drifts_found(w, a.projection, a.root);
}

/// That a disk is sound and, if the operation succeeded, the managed paths of an activation were
/// turned back, and the store is preserved.
pub open spec fn turned_back(w: Disk, a: ActivationModel) -> spec_fn(
    Disk,
    Result<(), Trouble>,
) -> bool {
    |v: Disk, r: Result<(), Trouble>|
        v.sound() && v.records == w.records && (r is Ok ==> preserved(w, v)
            && turned::tree_reached(v, a.projection, a.baseline, a.root))
}

/// Deactivating turns the managed paths back.
pub proof fn lemma_deactivate(w: Disk, a: ActivationModel)
    requires
        w.sound(),
        genuine(w, a),
        disk::apart(path::components(a.root), disk::vault()),
    ensures
        state::deactivate_program(a).meets(
            w,
            |v: Disk, r: Result<(), Trouble>|
                turned_back(w, a)(v, r) && (r is Ok ==> w.same_but(path::components(a.root), v))
                    && guarded::sparing(w, a.projection, path::components(a.root))(v),
        ),
{
    let root = path::components(a.root);
    let p = state::deactivate_program(a);
    let post = |v: Disk, r: Result<(), Trouble>|
        turned_back(w, a)(v, r) && (r is Ok ==> w.same_but(root, v)) && guarded::sparing(
            w,
            a.projection,
            root,
        )(v);
    assert(root.take(root.len() as int) =~= root);
    guarded::law_transition_spares(w, a.projection, a.baseline, a.root, a.projection, root);
    let none = quiet::any::<Disk, Result<(), Trouble>>();
    let inv = guarded::sparing(w, a.projection, root);
    reason::lemma_upholds_meets(p, w, inv, none);
    turned::law_tree_transition(w, a.projection, a.baseline, a.root, root);
    lemma_intact(p, w);
    reason::lemma_both(
        p,
        w,
        turned::tree_turned(w, a.projection, a.baseline, a.root),
        intact(w),
    );
    let both = |v: Disk, r: Result<(), Trouble>|
        turned::tree_turned(w, a.projection, a.baseline, a.root)(v, r) && intact(w)(v, r);
    let kept = |v: Disk, r: Result<(), Trouble>| inv(v) && none(v, r);
    reason::lemma_both(p, w, both, kept);
    let all = |v: Disk, r: Result<(), Trouble>| both(v, r) && kept(v, r);
    assert forall|v: Disk, r: Result<(), Trouble>| #[trigger] all(v, r) implies post(v, r) by {
        if r is Ok {
            lemma_tree_root(w, a.projection, root, v);
            lemma_preserved_away(w, v, root);
        }
    }
    reason::lemma_weaken(p, w, all, post);
}

/// Where something is written down for an image, the directory of its state stands.
pub proof fn lemma_zone_stands(w: Disk, paths: StatePaths<Seq<u8>>)
    requires
        w.sound(),
        are_places(paths),
        disk::apart(path::components(paths.directory), disk::vault()),
        w.at(paths.current) is Some || w.at(paths.journal) is Some,
    ensures
        disk::is_directory(w.at(paths.directory)),
{
    let zone = path::components(paths.directory);
    lemma_places(paths);
    if zone.len() == 0 {
        assert(disk::vault().take(0) =~= zone);
    }
}

/// Where what an activation does not manage is spared, so is what is kept for its image.
pub proof fn lemma_zone_spared(w: Disk, v: Disk, paths: StatePaths<Seq<u8>>, a: ActivationModel)
    requires
        housed(paths, a),
        w.at(paths.directory) is Some,
        guarded::sparing(w, a.projection, path::components(a.root))(v),
    ensures
        forall|j: Spot|
            #![trigger v.get(j)]
            disk::below(path::components(paths.directory), j) ==> v.get(j) == w.get(j),
        v.at(paths.directory) is Some,
{
    let (root, zone) = (path::components(a.root), path::components(paths.directory));
    assert(zone.take(zone.len() as int) =~= zone);
    assert(disk::below(zone, zone));
    assert forall|j: Spot| #![trigger v.get(j)] disk::below(zone, j) implies v.get(j) == w.get(
        j,
    ) by {
        if disk::below(root, zone) {
            assert(managed::lies_in(root, zone));
            assert(disk::below(zone, j));
        } else if disk::below(root, j) {
            placed::lemma_below_both(root, zone, j);
        }
    }
}

/// What was turned stays so where nothing changed but what lies in `zone`.
proof fn lemma_reached_untouched(
    w: Disk,
    v: Disk,
    from: Node,
    to: Node,
    p: Seq<u8>,
    root: Spot,
    zone: Spot,
)
    requires
        backed::untouched(w, v, root, zone),
        disk::below(root, zone) ==> w.get(zone) is Some,
        backed::avoids(from, path::components(p), zone),
        backed::avoids(to, path::components(p), zone),
        placed::proper(from),
        placed::proper(to),
        backed::stored(to),
        placed::sourced(w, to, root),
        disk::below(root, path::components(p)),
        turned::reached(w, from, to, p),
    ensures
        turned::reached(v, from, to, p),
    decreases from, 1int,
{
    backed::lemma_stands_untouched(w, v, to, p, root, zone);
    match (from, to) {
        (Node::Directory { tree: f, .. }, Node::Directory { tree: g, .. }) => {
            if !standing::stands(w, to, p) {
                lemma_tree_reached_untouched(w, v, f, g, p, root, zone);
            }
        },
        (Node::Directory { .. }, Node::Absent) => {
            if !standing::stands(w, to, p) {
                lemma_left_untouched(w, v, from, p, root, zone);
            }
        },
        _ => {},
    }
}

/// What left is still gone where nothing changed but what lies in `zone`.
proof fn lemma_left_untouched(w: Disk, v: Disk, node: Node, p: Seq<u8>, root: Spot, zone: Spot)
    requires
        backed::untouched(w, v, root, zone),
        disk::below(root, zone) ==> w.get(zone) is Some,
        backed::avoids(node, path::components(p), zone),
        placed::proper(node),
        disk::below(root, path::components(p)),
        turned::left(w, node, p),
    ensures
        turned::left(v, node, p),
    decreases node, 1int,
{
    let c = path::components(p);
    assert(v.get(c) == w.get(c));
    match node {
        Node::Directory { tree, .. } => {
            if w.at(p) is Some {
                lemma_tree_left_untouched(w, v, tree, p, root, zone);
                let j = choose|j: Spot|
                    #![trigger w.get(j)]
                    managed::lies_in(c, j) && w.get(j) is Some && !managed::owned(tree, c, j);
                placed::lemma_below_trans(root, c, j);
                if managed::lies_in(zone, j) {
                    placed::lemma_below_both(zone, c, j);
                    placed::lemma_below_trans(root, c, zone);
                    assert(zone != c);
                    assert(v.get(zone) == w.get(zone));
                    assert(managed::lies_in(c, zone));
                } else {
                    assert(v.get(j) == w.get(j));
                }
            }
        },
        _ => {},
    }
}

proof fn lemma_tree_left_untouched(
    w: Disk,
    v: Disk,
    f: Forest,
    p: Seq<u8>,
    root: Spot,
    zone: Spot,
)
    requires
        backed::untouched(w, v, root, zone),
        disk::below(root, zone) ==> w.get(zone) is Some,
        backed::clear_of(f, path::components(p), zone),
        placed::tree_proper(f),
        disk::below(root, path::components(p)),
        turned::tree_left(w, f, p),
    ensures
        turned::tree_left(v, f, p),
    decreases f, 0int,
{
    if f.len() > 0 {
        let q = path::join(p, f[0].0);
        path::lemma_entry(p, f[0].0);
        placed::lemma_below_push(path::components(p), Component::Normal(f[0].0));
        placed::lemma_below_trans(root, path::components(p), path::components(q));
        backed::lemma_avoids(f, path::components(p), zone);
        lemma_left_untouched(w, v, f[0].1, q, root, zone);
        lemma_tree_left_untouched(w, v, f.skip(1), p, root, zone);
    }
}

pub proof fn lemma_tree_reached_untouched(
    w: Disk,
    v: Disk,
    from: Forest,
    to: Forest,
    p: Seq<u8>,
    root: Spot,
    zone: Spot,
)
    requires
        backed::untouched(w, v, root, zone),
        disk::below(root, zone) ==> w.get(zone) is Some,
        backed::clear_of(from, path::components(p), zone),
        backed::clear_of(to, path::components(p), zone),
        placed::tree_proper(from),
        placed::tree_proper(to),
        backed::tree_stored(to),
        placed::tree_sourced(w, to, root),
        disk::below(root, path::components(p)),
        turned::tree_reached(w, from, to, p),
    ensures
        turned::tree_reached(v, from, to, p),
    decreases from, 0int,
{
    if from.len() > 0 {
        let q = path::join(p, from[0].0);
        let node = tree::lookup(to, from[0].0)->Some_0;
        path::lemma_entry(p, from[0].0);
        placed::lemma_below_push(path::components(p), Component::Normal(from[0].0));
        placed::lemma_below_trans(root, path::components(p), path::components(q));
        turned::lemma_lookup(w, to, from[0].0, root);
        lemma_lookup_stored(to, from[0].0);
        backed::lemma_avoids(from, path::components(p), zone);
        backed::lemma_avoids_lookup(to, path::components(p), zone, from[0].0);
        lemma_reached_untouched(w, v, from[0].1, node, q, root, zone);
        lemma_tree_reached_untouched(w, v, from.skip(1), to, p, root, zone);
    }
}

proof fn lemma_lookup_stored(f: Forest, name: Seq<u8>)
    requires
        backed::tree_stored(f),
        tree::lookup(f, name) is Some,
    ensures
        backed::stored(tree::lookup(f, name)->Some_0),
    decreases f.len(),
{
    if f.len() > 0 && f[0].0 != name {
        tree::lemma_slot(f.skip(1), name);
        assert(tree::slot(f, name) == 1 + tree::slot(f.skip(1), name));
        assert(f.skip(1)[tree::slot(f.skip(1), name)] == f[tree::slot(f, name)]);
        lemma_lookup_stored(f.skip(1), name);
    }
}

/// What names the mounted activation does not lie on the way to its roots.
pub proof fn lemma_current_apart(paths: StatePaths<Seq<u8>>)
    requires
        are_places(paths),
    ensures
        !disk::below(path::components(paths.current), path::components(paths.gc_roots)),
{
    let d = path::components(paths.directory);
    let (x, z) = (bytes::text("current"@), bytes::text("gc-roots"@));
    lemma_state_names();
    path::lemma_entry(paths.directory, x);
    path::lemma_entry(paths.directory, z);
    reveal_strlit("current");
    reveal_strlit("gc-roots");
    vstd::utf8::is_ascii_chars_encode_utf8("current"@);
    vstd::utf8::is_ascii_chars_encode_utf8("gc-roots"@);
    assert(x.len() == 7 && z.len() == 8);
    let c = d.push(Component::Normal(z));
    placed::lemma_below_push(c, Component::Root);
    if disk::below(d.push(Component::Normal(x)), c) {
        placed::lemma_siblings(d, Component::Normal(x), Component::Normal(z), c);
    }
}

} // verus!
