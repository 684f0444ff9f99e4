//! That the state of an image can be read at any time.
use vstd::prelude::*;

use crate::atomic;
use crate::backed;
use crate::backed::abides;
use crate::backup;
use crate::bytes;
use crate::disk;
use crate::disk::{Disk, Object, Spot};
use crate::error::Trouble;
use crate::host;
use crate::host::{Answer, Metadata, Request};
use crate::managed::lies_in;
use crate::mounted;
use crate::path;
use crate::path::Component;
use crate::placed;
use crate::quiet;
use crate::quiet::any;
use crate::reason::World;
use crate::session;
use crate::state;
use crate::state::{ActivationModel, StatePaths};
use crate::store;
use crate::tree;
use crate::tree::{Forest, Node};

verus! {

broadcast use crate::reason::group_upholds;

/// Whether `v` differs from `w` at most in what is kept for an image, in directories on the way
/// there, and by new objects in the store.
pub open spec fn tends(w: Disk, v: Disk, paths: StatePaths<Seq<u8>>) -> bool {
    &&& v.sound()
    &&& v.records == w.records
    &&& v.journals == w.journals
    &&& mounted::preserved(w, v)
    &&& forall|j: Spot|
        #![trigger v.get(j)]
        !lies_in(path::components(paths.directory), j) && !disk::below(disk::vault(), j)
            ==> abides(w, v, path::components(paths.directory), j)
}

/// Whether, besides, neither what is written down as mounted nor what is written down as under
/// way changed.
pub open spec fn steady(w: Disk, paths: StatePaths<Seq<u8>>) -> spec_fn(Disk) -> bool {
    |v: Disk|
        tends(w, v, paths) && v.at(paths.current) == w.at(paths.current) && v.at(paths.journal)
            == w.at(paths.journal)
}

/// Whether what stands at `c` and below is kept for an image, and is neither of the two files
/// that are read to recover.
pub open spec fn harmless(paths: StatePaths<Seq<u8>>, c: Spot) -> bool {
    &&& lies_in(path::components(paths.directory), c)
    &&& !disk::below(c, path::components(paths.current))
    &&& !disk::below(c, path::components(paths.journal))
}

pub proof fn lemma_tends_trans(w: Disk, u: Disk, v: Disk, paths: StatePaths<Seq<u8>>)
    requires
        tends(w, u, paths),
        tends(u, v, paths),
    ensures
        tends(w, v, paths),
{
    mounted::lemma_preserved_trans(w, u, v);
    assert forall|j: Spot|
        #![trigger v.get(j)]
        !lies_in(path::components(paths.directory), j) && !disk::below(
            disk::vault(),
            j,
        ) implies abides(w, v, path::components(paths.directory), j) by {
        assert(abides(w, u, path::components(paths.directory), j));
    }
}

/// A change in what is kept for an image is one.
pub proof fn lemma_tends(w: Disk, v: Disk, paths: StatePaths<Seq<u8>>, c: Spot)
    requires
        v.sound(),
        v.records == w.records,
        v.journals == w.journals,
        w.same_but(c, v),
        lies_in(path::components(paths.directory), c),
        disk::apart(path::components(paths.directory), disk::vault()),
    ensures
        tends(w, v, paths),
{
    let zone = path::components(paths.directory);
    assert forall|k: Spot, j: Spot| #[trigger]
        disk::below(k, j) && disk::in_vault(k) && w.get(k) is Some implies v.get(j) == w.get(j) by {
        placed::lemma_below_trans(disk::vault(), k, j);
        if disk::below(c, j) {
            placed::lemma_below_trans(zone, c, j);
            placed::lemma_below_both(zone, disk::vault(), j);
        }
    }
    assert forall|j: Spot|
        #![trigger v.get(j)]
        !lies_in(zone, j) && !disk::below(disk::vault(), j) implies abides(w, v, zone, j) by {
        if disk::below(c, j) {
            placed::lemma_below_trans(zone, c, j);
            assert(c.len() > zone.len()) by {
                assert(c.take(c.len() as int) =~= c);
            }
        }
    }
}

/// A harmless change is one after which the state can be read.
pub proof fn lemma_harmless(w0: Disk, w: Disk, v: Disk, paths: StatePaths<Seq<u8>>, c: Spot)
    requires
        steady(w0, paths)(w),
        v.sound(),
        v.records == w.records,
        v.journals == w.journals,
        w.same_but(c, v),
        harmless(paths, c),
        disk::apart(path::components(paths.directory), disk::vault()),
    ensures
        steady(w0, paths)(v),
{
    lemma_tends(w, v, paths, c);
    lemma_tends_trans(w0, w, v, paths);
}

/// What lies below a harmless place is harmless.
pub proof fn lemma_harmless_below(paths: StatePaths<Seq<u8>>, c: Spot, k: Spot)
    requires
        harmless(paths, c),
        disk::below(c, k),
    ensures
        harmless(paths, k),
{
    placed::lemma_below_trans(path::components(paths.directory), c, k);
    assert(c.take(c.len() as int) =~= c);
    if disk::below(k, path::components(paths.current)) {
        placed::lemma_below_trans(c, k, path::components(paths.current));
    }
    if disk::below(k, path::components(paths.journal)) {
        placed::lemma_below_trans(c, k, path::components(paths.journal));
    }
}

/// New objects in the store are harmless.
proof fn lemma_stores(w0: Disk, w: Disk, v: Disk, paths: StatePaths<Seq<u8>>)
    requires
        steady(w0, paths)(w),
        v.sound(),
        v.records == w.records,
        v.journals == w.journals,
        disk::stores(w, v),
        mounted::are_places(paths),
        disk::apart(path::components(paths.directory), disk::vault()),
    ensures
        steady(w0, paths)(v),
{
    let zone = path::components(paths.directory);
    mounted::lemma_places(paths);
    assert(!disk::below(disk::vault(), path::components(paths.current))) by {
        if disk::below(disk::vault(), path::components(paths.current)) {
            placed::lemma_below_both(zone, disk::vault(), path::components(paths.current));
        }
    }
    assert(!disk::below(disk::vault(), path::components(paths.journal))) by {
        if disk::below(disk::vault(), path::components(paths.journal)) {
            placed::lemma_below_both(zone, disk::vault(), path::components(paths.journal));
        }
    }
    lemma_tends_trans(w0, w, v, paths);
}

/// A change at a harmless place, whether it succeeds or fails.
proof fn lemma_act(w0: Disk, w: Disk, paths: StatePaths<Seq<u8>>, p: Seq<u8>)
    requires
        steady(w0, paths)(w),
        harmless(paths, path::components(p)),
        disk::apart(path::components(paths.directory), disk::vault()),
    ensures
        session::act(Request::CreateDir(p)).upholds(w, steady(w0, paths), any()),
        session::act(Request::RemoveTree(p)).upholds(w, steady(w0, paths), any()),
        session::act(Request::RemoveFile(p)).upholds(w, steady(w0, paths), any()),
        session::tell(Request::Discard(p)).upholds(w, steady(w0, paths), any()),
{
    let c = path::components(p);
    let inv = steady(w0, paths);
    assert(c.take(c.len() as int) =~= c);
    assert forall|request: Request, x: Answer, v: Disk| #[trigger]
        w.leads(request, x, v) && (request == Request::CreateDir(p) || request
            == Request::RemoveTree(p) || request == Request::RemoveFile(p) || request
            == Request::Discard(p)) implies inv(v) by {
        assert(w.same_but(c, v));
        lemma_harmless(w0, w, v, paths, c);
    }
}

/// A command that makes a root keep an object.
proof fn lemma_keep(w0: Disk, w: Disk, paths: StatePaths<Seq<u8>>, root: Seq<u8>, object: Seq<u8>)
    requires
        steady(w0, paths)(w),
        harmless(paths, path::components(root)),
        disk::apart(path::components(paths.directory), disk::vault()),
    ensures
        store::keep_program(root, object).upholds(w, steady(w0, paths), any()),
{
    let words = store::keep_words(root, object);
    assert(words.len() == 5 && words[2] == root && words[4] == object);
    assert forall|x: Answer, v: Disk| #[trigger]
        w.leads(Request::Execute(words), x, v) implies steady(w0, paths)(v) by {
        lemma_harmless(w0, w, v, paths, path::components(root));
    }
}

/// Adding to the store is harmless.
proof fn lemma_add(
    w0: Disk,
    w: Disk,
    paths: StatePaths<Seq<u8>>,
    p: Seq<u8>,
    mode: Seq<u8>,
    name: Seq<u8>,
    root: Seq<u8>,
    attempts: nat,
)
    requires
        mode == bytes::text("nar"@) || mode == bytes::text("text"@),
        steady(w0, paths)(w),
        mounted::are_places(paths),
        harmless(paths, path::components(root)),
        disk::apart(path::components(paths.directory), disk::vault()),
    ensures
        store::add_program(p, mode, name, root, attempts).upholds(w, steady(w0, paths), any()),
    decreases attempts,
{
    let inv = steady(w0, paths);
    if attempts > 0 {
        let words = store::add_words(p, mode, name);
        let fewer = (attempts - 1) as nat;
        assert(words.len() == 8 && words[7] == p && words[4] == mode && words[6] == name);
        assert forall|x: Answer, v: Disk| #[trigger]
            w.leads(Request::Execute(words), x, v) implies inv(v) by {
            lemma_stores(w0, w, v, paths);
        }
        assert forall|v: Disk, object: Seq<u8>|
            #![trigger inv(v), store::keep_program(root, object)]
            inv(v) implies store::keep_program(root, object).upholds(v, inv, any()) by {
            lemma_keep(w0, v, paths, root, object);
        }
        assert forall|v: Disk| #[trigger] inv(v) implies atomic::remove_program(root).upholds(
            v,
            inv,
            any(),
        ) && store::add_program(p, mode, name, root, fewer).upholds(v, inv, any()) by {
            lemma_act(w0, v, paths, root);
            lemma_add(w0, v, paths, p, mode, name, root, fewer);
        }
    }
}

/// An entry of another name beside the two files is harmless.
proof fn lemma_entry_harmless(paths: StatePaths<Seq<u8>>, name: Seq<u8>)
    requires
        mounted::are_places(paths),
        name != bytes::text("current"@),
        name != bytes::text("transaction"@),
    ensures
        harmless(paths, path::components(paths.directory).push(Component::Normal(name))),
{
    let d = path::components(paths.directory);
    let (a, b) = (bytes::text("current"@), bytes::text("transaction"@));
    let c = d.push(Component::Normal(name));
    mounted::lemma_state_names();
    path::lemma_entry(paths.directory, a);
    path::lemma_entry(paths.directory, b);
    placed::lemma_below_push(d, Component::Normal(name));
    assert(c.len() != d.len());
    placed::lemma_below_push(d.push(Component::Normal(a)), Component::Root);
    placed::lemma_below_push(d.push(Component::Normal(b)), Component::Root);
    if disk::below(c, d.push(Component::Normal(a))) {
        placed::lemma_siblings(
            d,
            Component::Normal(name),
            Component::Normal(a),
            d.push(Component::Normal(a)),
        );
    }
    if disk::below(c, d.push(Component::Normal(b))) {
        placed::lemma_siblings(
            d,
            Component::Normal(name),
            Component::Normal(b),
            d.push(Component::Normal(b)),
        );
    }
}

/// What is kept for an image beside the two files is harmless, and so are temporary objects.
pub proof fn lemma_kept_harmless(paths: StatePaths<Seq<u8>>)
    requires
        mounted::are_places(paths),
    ensures
        harmless(paths, path::components(paths.preparing)),
        harmless(paths, path::components(paths.gc_roots)),
        forall|name: Seq<u8>| #[trigger]
            disk::is_temporary(name) ==> harmless(
                paths,
                path::components(paths.directory).push(Component::Normal(name)),
            ),
        !disk::below(path::components(paths.current), path::components(paths.journal)),
        !disk::below(path::components(paths.journal), path::components(paths.current)),
{
    let d = path::components(paths.directory);
    let (a, b) = (bytes::text("current"@), bytes::text("transaction"@));
    let (x, y, z) = (bytes::text("preparing"@), bytes::text("gc-roots"@), bytes::text(".tmp"@));
    mounted::lemma_state_names();
    path::lemma_entry(paths.directory, a);
    path::lemma_entry(paths.directory, b);
    path::lemma_entry(paths.directory, x);
    path::lemma_entry(paths.directory, y);
    reveal_strlit("current");
    reveal_strlit("transaction");
    reveal_strlit("preparing");
    reveal_strlit("gc-roots");
    reveal_strlit(".tmp");
    vstd::utf8::is_ascii_chars_encode_utf8("current"@);
    vstd::utf8::is_ascii_chars_encode_utf8("transaction"@);
    vstd::utf8::is_ascii_chars_encode_utf8("preparing"@);
    vstd::utf8::is_ascii_chars_encode_utf8("gc-roots"@);
    vstd::utf8::is_ascii_chars_encode_utf8(".tmp"@);
    assert(a.len() == 7 && b.len() == 11 && x.len() == 9 && y.len() == 8 && z.len() == 4);
    assert(a[0] == 'c' as u8 && b[0] == 't' as u8 && z[0] == '.' as u8);
    lemma_entry_harmless(paths, x);
    lemma_entry_harmless(paths, y);
    assert forall|name: Seq<u8>| #[trigger] disk::is_temporary(name) implies harmless(
        paths,
        d.push(Component::Normal(name)),
    ) by {
        assert(name.take(4)[0] == name[0]);
        lemma_entry_harmless(paths, name);
    }
    let (p, q) = (d.push(Component::Normal(a)), d.push(Component::Normal(b)));
    placed::lemma_below_push(p, Component::Root);
    placed::lemma_below_push(q, Component::Root);
    if disk::below(p, q) {
        placed::lemma_siblings(d, Component::Normal(a), Component::Normal(b), q);
    }
    if disk::below(q, p) {
        placed::lemma_siblings(d, Component::Normal(b), Component::Normal(a), p);
    }
}

/// Removing the roots of what was being prepared is harmless.
pub proof fn lemma_remove_preparing(w0: Disk, w: Disk, paths: StatePaths<Seq<u8>>)
    requires
        steady(w0, paths)(w),
        mounted::are_places(paths),
        disk::apart(path::components(paths.directory), disk::vault()),
    ensures
        state::remove_preparing_program(paths).upholds(w, steady(w0, paths), any()),
{
    lemma_kept_harmless(paths);
    lemma_act(w0, w, paths, paths.preparing);
}

/// Removing the roots of other activations is harmless.
pub proof fn lemma_clean(
    w0: Disk,
    w: Disk,
    paths: StatePaths<Seq<u8>>,
    current: Option<Seq<u8>>,
)
    requires
        steady(w0, paths)(w),
        mounted::are_places(paths),
        disk::apart(path::components(paths.directory), disk::vault()),
    ensures
        state::clean_program(paths, current).upholds(w, steady(w0, paths), any()),
{
    lemma_kept_harmless(paths);
    if state::kept_root(current, paths) is Ok {
        let keep = state::kept_root(current, paths)->Ok_0;
        assert forall|x: Answer|
            #![trigger x.names()]
            x.names() is Ok implies state::clean_names_program(
            paths,
            x.names()->Ok_0,
            keep,
        ).upholds(w, steady(w0, paths), any()) by {
            lemma_clean_names(w0, w, paths, x.names()->Ok_0, keep);
        }
    }
}

proof fn lemma_clean_names(
    w0: Disk,
    w: Disk,
    paths: StatePaths<Seq<u8>>,
    names: Seq<Seq<u8>>,
    keep: Option<Seq<u8>>,
)
    requires
        steady(w0, paths)(w),
        host::all_plain(names),
        harmless(paths, path::components(paths.gc_roots)),
        disk::apart(path::components(paths.directory), disk::vault()),
    ensures
        state::clean_names_program(paths, names, keep).upholds(w, steady(w0, paths), any()),
    decreases names.len(),
{
    let inv = steady(w0, paths);
    if names.len() > 0 {
        let later = names.skip(1);
        let g = path::components(paths.gc_roots);
        let p = path::join(paths.gc_roots, names[0]);
        assert(path::is_plain(names[0]));
        path::lemma_entry(paths.gc_roots, names[0]);
        placed::lemma_below_push(g, Component::Normal(names[0]));
        lemma_harmless_below(paths, g, path::components(p));
        lemma_act(w0, w, paths, p);
        assert forall|i: int| 0 <= i < later.len() implies path::is_plain(#[trigger] later[i]) by {
            assert(later[i] == names[i + 1]);
        }
        assert forall|v: Disk| #[trigger] inv(v) implies state::clean_names_program(
            paths,
            later,
            keep,
        ).upholds(v, inv, any()) by {
            lemma_clean_names(w0, v, paths, later, keep);
        }
    }
}

/// Capturing what stands at an entry is harmless.
proof fn lemma_capture(
    w0: Disk,
    w: Disk,
    paths: StatePaths<Seq<u8>>,
    node: Node,
    p: Seq<u8>,
    n: usize,
)
    requires
        steady(w0, paths)(w),
        mounted::are_places(paths),
        disk::apart(path::components(paths.directory), disk::vault()),
    ensures
        backup::capture_program(node, p, paths.preparing, n).upholds(w, steady(w0, paths), any()),
    decreases node, 1int,
{
    let inv = steady(w0, paths);
    assert forall|x: Answer|
        #![trigger x.stats()]
        x.stats() is Ok implies backup::snapshot_program(
        p,
        x.stats()->Ok_0,
        paths.preparing,
        n,
    ).upholds(w, inv, any()) by {
        lemma_snapshot(w0, w, paths, p, x.stats()->Ok_0, n);
    }
    match node {
        Node::Directory { tree, .. } => {
            lemma_tree_capture(w0, w, paths, tree, p, n, Seq::empty());
        },
        _ => {},
    }
}

/// Backing up what stands at a path is harmless.
proof fn lemma_snapshot(
    w0: Disk,
    w: Disk,
    paths: StatePaths<Seq<u8>>,
    p: Seq<u8>,
    m: Metadata,
    n: usize,
)
    requires
        steady(w0, paths)(w),
        mounted::are_places(paths),
        disk::apart(path::components(paths.directory), disk::vault()),
    ensures
        backup::snapshot_program(p, m, paths.preparing, n).upholds(w, steady(w0, paths), any()),
{
    let inv = steady(w0, paths);
    let g = path::components(paths.preparing);
    let name = bytes::decimal(n as nat);
    let nothing = Seq::<(Seq<u8>, u32)>::empty();
    lemma_kept_harmless(paths);
    backed::lemma_decimal(n as nat);
    path::lemma_entry(paths.preparing, name);
    placed::lemma_below_push(g, Component::Normal(name));
    lemma_harmless_below(paths, g, g.push(Component::Normal(name)));
    quiet::lemma_modes(p, Seq::empty(), m, nothing);
    quiet::lemma_quiet(backup::modes_program(p, Seq::empty(), m, nothing), w, inv);
    lemma_add(
        w0,
        w,
        paths,
        p,
        bytes::text("nar"@),
        bytes::text("tohru-backup"@),
        path::join(paths.preparing, name),
        u64::MAX as nat,
    );
}

proof fn lemma_tree_capture(
    w0: Disk,
    w: Disk,
    paths: StatePaths<Seq<u8>>,
    f: Forest,
    p: Seq<u8>,
    n: usize,
    before: Forest,
)
    requires
        steady(w0, paths)(w),
        mounted::are_places(paths),
        disk::apart(path::components(paths.directory), disk::vault()),
    ensures
        backup::tree_capture_program(f, p, paths.preparing, n, before).upholds(
            w,
            steady(w0, paths),
            any(),
        ),
    decreases f, 0int,
{
    let inv = steady(w0, paths);
    if f.len() > 0 {
        let end = any::<Disk, Result<(Node, usize), Trouble>>();
        lemma_capture(w0, w, paths, f[0].1, path::join(p, f[0].0), n);
        assert forall|v: Disk, r: Result<(Node, usize), Trouble>| #[trigger]
            end(v, r) && inv(v) && r is Ok implies backup::tree_capture_program(
            f.skip(1),
            p,
            paths.preparing,
            r->Ok_0.1,
            tree::put(before, f[0].0, r->Ok_0.0),
        ).upholds(v, inv, any()) by {
            lemma_tree_capture(
                w0,
                v,
                paths,
                f.skip(1),
                p,
                r->Ok_0.1,
                tree::put(before, f[0].0, r->Ok_0.0),
            );
        }
    }
}

/// Making roots keep objects is harmless.
proof fn lemma_keep_all(
    w0: Disk,
    w: Disk,
    paths: StatePaths<Seq<u8>>,
    dir: Seq<u8>,
    objects: Seq<Seq<u8>>,
    number: nat,
)
    requires
        steady(w0, paths)(w),
        harmless(paths, path::components(dir)),
        disk::apart(path::components(paths.directory), disk::vault()),
    ensures
        store::keep_all_program(dir, objects, number).upholds(w, steady(w0, paths), any()),
    decreases objects.len(),
{
    let inv = steady(w0, paths);
    if objects.len() > 0 {
        let name = bytes::decimal(number);
        let g = path::components(dir);
        backed::lemma_decimal(number);
        path::lemma_entry(dir, name);
        placed::lemma_below_push(g, Component::Normal(name));
        lemma_harmless_below(paths, g, g.push(Component::Normal(name)));
        lemma_keep(w0, w, paths, path::join(dir, name), objects[0]);
        assert forall|v: Disk| #[trigger] inv(v) implies store::keep_all_program(
            dir,
            objects.skip(1),
            number + 1,
        ).upholds(v, inv, any()) by {
            lemma_keep_all(w0, v, paths, dir, objects.skip(1), number + 1);
        }
    }
}

/// Making new roots keep an activation is harmless.
proof fn lemma_root(
    w0: Disk,
    w: Disk,
    paths: StatePaths<Seq<u8>>,
    activation: Seq<u8>,
    a: ActivationModel,
    root: Seq<u8>,
)
    requires
        steady(w0, paths)(w),
        mounted::are_places(paths),
        disk::apart(path::components(paths.directory), disk::vault()),
        state::gc_root_of(activation, paths) == Ok::<_, Trouble>(root),
    ensures
        state::root_program(paths, activation, a, root).upholds(w, steady(w0, paths), any()),
{
    let inv = steady(w0, paths);
    let g = path::components(paths.gc_roots);
    let name = path::file_name(activation)->Some_0;
    lemma_kept_harmless(paths);
    mounted::lemma_file_name(activation);
    path::lemma_entry(paths.gc_roots, name);
    placed::lemma_below_push(g, Component::Normal(name));
    lemma_harmless_below(paths, g, path::components(root));
    lemma_act(w0, w, paths, root);
    assert forall|v: Disk, objects: Seq<Seq<u8>>|
        #![trigger inv(v), store::ordered(objects)]
        inv(v) implies store::keep_all_program(root, store::ordered(objects), 0).upholds(
        v,
        inv,
        any(),
    ) by {
        lemma_keep_all(w0, v, paths, root, store::ordered(objects), 0);
    }
}

/// Recording an activation is harmless.
proof fn lemma_persist(w0: Disk, w: Disk, a: ActivationModel, paths: StatePaths<Seq<u8>>)
    requires
        steady(w0, paths)(w),
        mounted::are_places(paths),
        disk::apart(path::components(paths.directory), disk::vault()),
    ensures
        state::persist_program(a, paths).upholds(w, steady(w0, paths), any()),
{
    let inv = steady(w0, paths);
    let zone = path::components(paths.directory);
    lemma_kept_harmless(paths);
    assert forall|t: Seq<u8>, m: u32, w1: Disk| #[trigger]
        disk::creates(w, paths.directory, t, Object::File(Seq::empty(), m), w1) && w1.sound()
            && w1.records == w.records && w1.journals == w.journals implies atomic::cleaned(
        t,
        state::persist_body(a, paths, t),
    ).upholds(w1, inv, any()) by {
        let k = path::components(t);
        let n = choose|n: Seq<u8>| #[trigger]
            path::is_plain(n) && disk::is_temporary(n) && k == zone.push(Component::Normal(n));
        assert(k.take(k.len() as int) =~= k);
        assert(w.same_but(k, w1));
        lemma_harmless(w0, w, w1, paths, k);
        lemma_persist_body(w0, w1, a, paths, t);
        assert forall|v: Disk| #[trigger] inv(v) implies session::tell(Request::Discard(t)).upholds(
            v,
            inv,
            any(),
        ) by {
            lemma_act(w0, v, paths, t);
        }
    }
}

proof fn lemma_persist_body(
    w0: Disk,
    w: Disk,
    a: ActivationModel,
    paths: StatePaths<Seq<u8>>,
    temporary: Seq<u8>,
)
    requires
        steady(w0, paths)(w),
        mounted::are_places(paths),
        disk::apart(path::components(paths.directory), disk::vault()),
        harmless(paths, path::components(temporary)),
        disk::is_file(w.at(temporary)),
    ensures
        state::persist_body(a, paths, temporary).upholds(w, steady(w0, paths), any()),
{
    let inv = steady(w0, paths);
    let k = path::components(temporary);
    let g = path::components(paths.preparing);
    let keeper = path::join(paths.preparing, bytes::text("activation"@));
    let end = any::<Disk, Result<Seq<u8>, Trouble>>();
    lemma_kept_harmless(paths);
    mounted::lemma_state_names();
    path::lemma_entry(paths.preparing, bytes::text("activation"@));
    placed::lemma_below_push(g, Component::Normal(bytes::text("activation"@)));
    lemma_harmless_below(paths, g, path::components(keeper));
    assert(k.take(k.len() as int) =~= k);
    assert forall|form: Seq<u8>, x: Answer, v: Disk| #[trigger]
        w.leads(Request::WriteFile(temporary, form), x, v) implies inv(v) by {
        assert(w.same_but(k, v));
        lemma_harmless(w0, w, v, paths, k);
    }
    assert forall|v: Disk| #[trigger] inv(v) implies store::add_program(
        temporary,
        bytes::text("text"@),
        bytes::text("tohru-activation"@),
        keeper,
        u64::MAX as nat,
    ).upholds(v, inv, any()) by {
        lemma_add(
            w0,
            v,
            paths,
            temporary,
            bytes::text("text"@),
            bytes::text("tohru-activation"@),
            keeper,
            u64::MAX as nat,
        );
    }
    assert forall|v: Disk, r: Result<Seq<u8>, Trouble>, root: Seq<u8>|
        #![trigger end(v, r), state::root_program(paths, r->Ok_0, a, root)]
        inv(v) && r is Ok && state::gc_root_of(r->Ok_0, paths) == Ok::<_, Trouble>(
            root,
        ) implies state::root_program(paths, r->Ok_0, a, root).upholds(v, inv, any()) by {
        lemma_root(w0, v, paths, r->Ok_0, a, root);
    }
}

/// Preparing an activation is harmless.
pub proof fn lemma_prepare(
    w0: Disk,
    w: Disk,
    paths: StatePaths<Seq<u8>>,
    root: Seq<u8>,
    f: Forest,
)
    requires
        steady(w0, paths)(w),
        mounted::are_places(paths),
        disk::apart(path::components(paths.directory), disk::vault()),
    ensures
        state::prepare_program(paths, root, f).upholds(w, steady(w0, paths), any()),
{
    let inv = steady(w0, paths);
    let end = any::<Disk, Result<(Forest, usize), Trouble>>();
    lemma_kept_harmless(paths);
    lemma_remove_preparing(w0, w, paths);
    assert forall|v: Disk| #[trigger] inv(v) implies session::act(
        Request::CreateDir(paths.preparing),
    ).upholds(v, inv, any()) && backup::tree_capture_program(
        f,
        root,
        paths.preparing,
        0,
        Seq::empty(),
    ).upholds(v, inv, any()) by {
        lemma_act(w0, v, paths, paths.preparing);
        lemma_tree_capture(w0, v, paths, f, root, 0, Seq::empty());
    }
    assert forall|v: Disk, r: Result<(Forest, usize), Trouble>| #[trigger]
        end(v, r) && inv(v) && r is Ok implies state::record_program(
        paths,
        ActivationModel { root, projection: f, baseline: r->Ok_0.0 },
    ).upholds(v, inv, any()) by {
        lemma_record(
            w0,
            v,
            paths,
            ActivationModel { root, projection: f, baseline: r->Ok_0.0 },
        );
    }
}

proof fn lemma_record(w0: Disk, w: Disk, paths: StatePaths<Seq<u8>>, a: ActivationModel)
    requires
        steady(w0, paths)(w),
        mounted::are_places(paths),
        disk::apart(path::components(paths.directory), disk::vault()),
    ensures
        state::record_program(paths, a).upholds(w, steady(w0, paths), any()),
{
    let inv = steady(w0, paths);
    lemma_persist(w0, w, a, paths);
    assert forall|v: Disk| #[trigger] inv(v) implies state::remove_preparing_program(paths).upholds(
        v,
        inv,
        any(),
    ) by {
        lemma_remove_preparing(w0, v, paths);
    }
}

/// What is kept for an image are different entries of one directory.
pub proof fn lemma_same_depth(paths: StatePaths<Seq<u8>>)
    requires
        mounted::are_places(paths),
    ensures
        path::components(paths.current).len() == path::components(paths.gc_roots).len(),
        path::components(paths.journal).len() == path::components(paths.gc_roots).len(),
        path::components(paths.current) != path::components(paths.gc_roots),
        path::components(paths.journal) != path::components(paths.gc_roots),
{
    mounted::lemma_state_names();
    lemma_kept_harmless(paths);
    path::lemma_entry(paths.directory, bytes::text("current"@));
    path::lemma_entry(paths.directory, bytes::text("transaction"@));
    path::lemma_entry(paths.directory, bytes::text("gc-roots"@));
    let g = path::components(paths.gc_roots);
    assert(g.take(g.len() as int) =~= g);
}

} // verus!
