//! That backups are kept while an activation is being prepared.
use vstd::prelude::*;

use crate::backed;
use crate::backup;
use crate::bytes;
use crate::disk;
use crate::error::Trouble;
use crate::host::{Answer, Metadata, Request};
use crate::kept;
use crate::kept::has_node;
use crate::path;
use crate::program;
use crate::program::Program;
use crate::quiet;
use crate::quiet::Witness;
use crate::reason;
use crate::reason::World;
use crate::store;
use crate::tree;
use crate::tree::{Forest, Modes, Node};

verus! {

broadcast use crate::reason::group_reason;

/// A world that answers anything and notes which roots keep which objects.
pub struct Shelf {
    pub roots: Map<Seq<u8>, Seq<u8>>,
}

/// What the roots keep after a request.
pub open spec fn shelved(roots: Map<Seq<u8>, Seq<u8>>, request: Request, x: Answer) -> Map<
    Seq<u8>,
    Seq<u8>,
> {
    match request {
        Request::Execute(words) => if disk::keeps_object(words) {
            match x {
                Answer::Output { success, .. } => if success {
                    roots.insert(words[2], words[4])
                } else {
                    roots.remove(words[2])
                },
                _ => roots.remove(words[2]),
            }
        } else {
            roots
        },
        Request::RemoveFile(p) => roots.remove(p),
        _ => roots,
    }
}

impl World for Shelf {
    open spec fn leads(self, request: Request, x: Answer, next: Shelf) -> bool {
        next.roots == shelved(self.roots, request, x)
    }
}

/// The path of the root with a number.
pub open spec fn numbered(dir: Seq<u8>, n: nat) -> Seq<u8> {
    path::join(dir, bytes::decimal(n))
}

/// Roots with different numbers are different paths.
proof fn lemma_numbered(dir: Seq<u8>, a: nat, b: nat)
    ensures
        numbered(dir, a) == numbered(dir, b) ==> a == b,
{
    let (x, y) = (bytes::decimal(a), bytes::decimal(b));
    backed::lemma_decimal(a);
    backed::lemma_decimal(b);
    assert(!path::absolute(x)) by {
        if path::absolute(x) {
            assert(x.contains(x[0]));
        }
    }
    assert(!path::absolute(y)) by {
        if path::absolute(y) {
            assert(y.contains(y[0]));
        }
    }
    if numbered(dir, a) == numbered(dir, b) {
        let (p, q) = (numbered(dir, a), numbered(dir, b));
        let n = if dir.len() == 0 {
            0int
        } else if dir.last() == bytes::SLASH {
            dir.len() as int
        } else {
            dir.len() as int + 1
        };
        assert(p.skip(n) =~= x);
        assert(q.skip(n) =~= y);
        kept::law_decimal(a, b);
    }
}

/// Whether roots from number `n` on, and before number `m`, differ at most, and nothing else does.
pub open spec fn only_between(w: Shelf, v: Shelf, dir: Seq<u8>, n: nat, m: nat) -> bool {
    forall|p: Seq<u8>|
        #![trigger v.roots.dom().contains(p)]
        (forall|k: nat| n <= k < m ==> p != #[trigger] numbered(dir, k)) ==> (
        v.roots.dom().contains(p) == w.roots.dom().contains(p) && (v.roots.dom().contains(p)
            ==> v.roots[p] == w.roots[p]))
}

/// Whether the root with a number keeps an object.
pub open spec fn at_number(v: Shelf, dir: Seq<u8>, k: nat, object: Seq<u8>) -> bool {
    v.roots.dom().contains(numbered(dir, k)) && v.roots[numbered(dir, k)] == object
}

/// That, if the operation succeeded, what was added is kept by a root, and no other root changed.
pub open spec fn keeps_one(w: Shelf, root: Seq<u8>) -> spec_fn(Shelf, Result<Seq<u8>, Trouble>) -> bool {
    |v: Shelf, r: Result<Seq<u8>, Trouble>|
        r matches Ok(object) ==> v.roots == w.roots.insert(root, object)
}

/// What is added to the store is kept by the root that is given.
pub proof fn law_add_kept(
    w: Shelf,
    p: Seq<u8>,
    mode: Seq<u8>,
    name: Seq<u8>,
    root: Seq<u8>,
    attempts: nat,
)
    ensures
        store::add_program(p, mode, name, root, attempts).meets(w, keeps_one(w, root)),
    decreases attempts,
{
    if attempts > 0 {
        let post = keeps_one(w, root);
        let fewer = (attempts - 1) as nat;
        let words = store::add_words(p, mode, name);
        assert(words.len() == 8);
        assert forall|object: Seq<u8>| #[trigger]
            store::keep_words(root, object).len() == 5 && disk::keeps_object(
                store::keep_words(root, object),
            ) && store::keep_words(root, object)[2] == root && store::keep_words(root, object)[4]
                == object by {}
        assert forall|v: Shelf| v.roots == w.roots.remove(root) implies #[trigger] store::add_program(
            p,
            mode,
            name,
            root,
            fewer,
        ).meets(v, post) by {
            law_add_kept(v, p, mode, name, root, fewer);
            assert forall|u: Shelf, r: Result<Seq<u8>, Trouble>| #[trigger]
                keeps_one(v, root)(u, r) implies post(u, r) by {
                if r is Ok {
                    assert(w.roots.remove(root).insert(root, r->Ok_0) =~= w.roots.insert(
                        root,
                        r->Ok_0,
                    ));
                }
            }
        }
        assert(w.roots.remove(root).remove(root) =~= w.roots.remove(root));
    }
}

/// Whether an entry is a backup from a source, or holds one.
pub open spec fn backs_up(node: Node, source: Seq<u8>) -> bool {
    ||| node matches Node::Snapshot { source: s, .. } && s == source
    ||| node matches Node::Directory { tree, .. } && tree_backs_up(tree, source)
}

/// Whether a tree holds a backup from a source.
pub open spec fn tree_backs_up(f: Forest, source: Seq<u8>) -> bool {
    exists|modes: Modes| has_node(f, #[trigger] snapshot(source, modes))
}

/// A backup.
pub open spec fn snapshot(source: Seq<u8>, modes: Modes) -> Node {
    Node::Snapshot { source, modes }
}

/// The number of entries of a tree, and in the directories in it.
pub open spec fn size(f: Forest) -> nat
    decreases f, 0int,
{
    if f.len() == 0 {
        0
    } else {
        node_size(f[0].1) + size(f.skip(1))
    }
}

/// The number of entries that an entry is.
pub open spec fn node_size(node: Node) -> nat
    decreases node, 1int,
{
    match node {
        Node::Directory { tree, .. } => 1 + size(tree),
        _ => 1,
    }
}

/// A program that only looks leaves the roots as they are.
proof fn lemma_quiet<R>(p: Program<R>, w: Shelf)
    requires
        quiet::quiet(p),
    ensures
        p.meets(w, |v: Shelf, r: R| v.roots == w.roots),
    decreases p,
{
    match p {
        Program::Ask(request, f) => {
            let a = Witness { moved: false };
            assert forall|x: Answer, v: Shelf| #[trigger] w.leads(request, x, v) implies f(x).meets(
                v,
                |u: Shelf, r: R| u.roots == w.roots,
            ) by {
                let b = Witness { moved: !disk::is_look(request) };
                assert(a.leads(request, x, b));
                assert(f(x).upholds(b, quiet::unmoved(), quiet::any()));
                assert(quiet::unmoved()(b));
                assert(b == a);
                assert(v.roots == w.roots);
                lemma_quiet(f(x), v);
            }
        },
        _ => {},
    }
}

/// Whether backups that were taken are kept by the roots from number `n` on, and before number `m`, and no
/// other root changed.
pub open spec fn sheltered(
    w: Shelf,
    v: Shelf,
    dir: Seq<u8>,
    n: nat,
    m: nat,
    taken: spec_fn(Seq<u8>) -> bool,
) -> bool {
    &&& n <= m
    &&& only_between(w, v, dir, n, m)
    &&& forall|source: Seq<u8>| #[trigger]
        taken(source) ==> exists|k: nat| n <= k < m && #[trigger] at_number(v, dir, k, source)
}

/// That, if the operation succeeded, the backups that were taken of an entry are kept.
pub open spec fn shelters(w: Shelf, dir: Seq<u8>, n: usize, count: nat) -> spec_fn(
    Shelf,
    Result<(Node, usize), Trouble>,
) -> bool {
    |v: Shelf, r: Result<(Node, usize), Trouble>|
        r matches Ok(t) ==> t.1 <= n + count && sheltered(
            w,
            v,
            dir,
            n as nat,
            t.1 as nat,
            |source: Seq<u8>| backs_up(t.0, source),
        )
}

/// That, if the operation succeeded, the backups that were taken of a tree are kept.
pub open spec fn tree_shelters(w: Shelf, before: Forest, dir: Seq<u8>, n: usize, count: nat) -> spec_fn(
    Shelf,
    Result<(Forest, usize), Trouble>,
) -> bool {
    |v: Shelf, r: Result<(Forest, usize), Trouble>|
        r matches Ok(t) ==> t.1 <= n + count && sheltered(
            w,
            v,
            dir,
            n as nat,
            t.1 as nat,
            |source: Seq<u8>| tree_backs_up(t.0, source) && !tree_backs_up(before, source),
        )
}

/// A backup that was taken is kept by the root with the number that is given.
proof fn lemma_snapshot(w: Shelf, p: Seq<u8>, m: Metadata, dir: Seq<u8>, n: usize)
    requires
        n < usize::MAX,
    ensures
        backup::snapshot_program(p, m, dir, n).meets(w, shelters(w, dir, n, 1)),
{
    let post = shelters(w, dir, n, 1);
    let root = numbered(dir, n as nat);
    let none = Seq::<(Seq<u8>, u32)>::empty();
    quiet::lemma_modes(p, Seq::empty(), m, none);
    lemma_quiet(backup::modes_program(p, Seq::empty(), m, none), w);
    let (mode, name) = (bytes::text("nar"@), bytes::text("tohru-backup"@));
    let adding = store::add_program(p, mode, name, root, u64::MAX as nat);
    let next = |modes: Modes|
        store::add_program(
            p,
            bytes::text("nar"@),
            bytes::text("tohru-backup"@),
            path::join(dir, bytes::decimal(n as nat)),
            u64::MAX as nat,
        ).and_then(
            |source: Seq<u8>| program::give((Node::Snapshot { source, modes }, backup::next(n))),
        );
    let same = |v: Shelf, r: Result<Modes, Trouble>| v.roots == w.roots;
    assert forall|v: Shelf, r: Result<Modes, Trouble>| #[trigger] same(v, r) implies match r {
        Ok(modes) => next(modes).meets(v, post),
        Err(e) => post(v, Err(e)),
    } by {
        if r is Ok {
            let modes = r->Ok_0;
            let mid = keeps_one(v, root);
            let give = |source: Seq<u8>|
                program::give((Node::Snapshot { source, modes }, backup::next(n)));
            law_add_kept(v, p, mode, name, root, u64::MAX as nat);
            assert forall|u: Shelf, q: Result<Seq<u8>, Trouble>| #[trigger] mid(u, q) implies match q {
                Ok(source) => give(source).meets(u, post),
                Err(e) => post(u, Err(e)),
            } by {
                if q is Ok {
                    lemma_one(w, u, dir, n, q->Ok_0, modes);
                }
            }
            reason::lemma_and_then(adding, give, v, mid, post);
            assert(next(modes) == adding.and_then(give));
        }
    }
    reason::lemma_and_then(
        backup::modes_program(p, Seq::empty(), m, none),
        next,
        w,
        same,
        post,
    );
    assert(backup::snapshot_program(p, m, dir, n) == backup::modes_program(
        p,
        Seq::empty(),
        m,
        none,
    ).and_then(next));
}

/// One more root keeps the one backup that was taken.
proof fn lemma_one(w: Shelf, u: Shelf, dir: Seq<u8>, n: usize, source: Seq<u8>, modes: Modes)
    requires
        n < usize::MAX,
        u.roots == w.roots.insert(numbered(dir, n as nat), source),
    ensures
        shelters(w, dir, n, 1)(u, Ok((Node::Snapshot { source, modes }, backup::next(n)))),
{
    assert(at_number(u, dir, n as nat, source));
    assert forall|q: Seq<u8>|
        #![trigger u.roots.dom().contains(q)]
        (forall|k: nat| n <= k < n + 1 ==> q != #[trigger] numbered(dir, k)) implies (
    u.roots.dom().contains(q) == w.roots.dom().contains(q) && (u.roots.dom().contains(q)
        ==> u.roots[q] == w.roots[q])) by {
        assert(q != numbered(dir, n as nat));
    }
}

/// Roots that changed between numbers, and then between later ones.
proof fn lemma_further(
    w: Shelf,
    u: Shelf,
    v: Shelf,
    dir: Seq<u8>,
    n: nat,
    m: nat,
    l: nat,
    object: Seq<u8>,
)
    requires
        n <= m <= l,
        only_between(w, u, dir, n, m),
        only_between(u, v, dir, m, l),
    ensures
        only_between(w, v, dir, n, l),
        (exists|k: nat| n <= k < m && #[trigger] at_number(u, dir, k, object)) ==> exists|k: nat|
            n <= k < l && #[trigger] at_number(v, dir, k, object),
{
    assert forall|p: Seq<u8>|
        #![trigger v.roots.dom().contains(p)]
        (forall|k: nat| n <= k < l ==> p != #[trigger] numbered(dir, k)) implies (
    v.roots.dom().contains(p) == w.roots.dom().contains(p) && (v.roots.dom().contains(p)
        ==> v.roots[p] == w.roots[p])) by {
        assert(u.roots.dom().contains(p) == w.roots.dom().contains(p));
    }
    if exists|k: nat| n <= k < m && #[trigger] at_number(u, dir, k, object) {
        let k = choose|k: nat| n <= k < m && #[trigger] at_number(u, dir, k, object);
        let p = numbered(dir, k);
        assert forall|i: nat| m <= i < l implies p != #[trigger] numbered(dir, i) by {
            lemma_numbered(dir, k, i);
        }
        assert(v.roots.dom().contains(p));
        assert(at_number(v, dir, k, object));
    }
}

/// The backups that were taken of an entry are kept while the activation is being prepared.
pub proof fn law_capture_held(w: Shelf, node: Node, p: Seq<u8>, dir: Seq<u8>, n: usize)
    requires
        n + node_size(node) < usize::MAX,
    ensures
        backup::capture_program(node, p, dir, n).meets(w, shelters(w, dir, n, node_size(node))),
    decreases node, 1int,
{
    let post = shelters(w, dir, n, node_size(node));
    assert forall|m: Metadata, v: Shelf|
        #![trigger backup::snapshot_program(p, m, dir, n).meets(v, post)]
        v.roots == w.roots implies backup::snapshot_program(p, m, dir, n).meets(v, post) by {
        lemma_snapshot(v, p, m, dir, n);
        let one = shelters(v, dir, n, 1);
        assert forall|u: Shelf, r: Result<(Node, usize), Trouble>| #[trigger] one(u, r) implies post(
            u,
            r,
        ) by {}
    }
    assert forall|v: Shelf| v.roots == w.roots implies #[trigger] post(
        v,
        Ok((Node::Absent, n)),
    ) by {}
    match node {
        Node::Directory { tree, .. } => {
            let none = Seq::<(Seq<u8>, Node)>::empty();
            assert forall|v: Shelf| #[trigger]
                v.roots == w.roots implies backup::tree_capture_program(
                tree,
                p,
                dir,
                n,
                none,
            ).meets(v, tree_shelters(w, none, dir, n, size(tree))) by {
                law_tree_capture_held(v, tree, p, dir, n, none);
                let (a, b) = (
                    tree_shelters(v, none, dir, n, size(tree)),
                    tree_shelters(w, none, dir, n, size(tree)),
                );
                assert forall|u: Shelf, r: Result<(Forest, usize), Trouble>| #[trigger]
                    a(u, r) implies b(u, r) by {}
            }
            let b = tree_shelters(w, none, dir, n, size(tree));
            assert forall|u: Shelf, r: Result<(Forest, usize), Trouble>, mode: u32|
                #![trigger b(u, r), post(u, Ok((Node::Directory { mode, tree: (r->Ok_0).0 }, (r->Ok_0).1)))]
                b(u, r) && r is Ok implies post(
                u,
                Ok((Node::Directory { mode, tree: (r->Ok_0).0 }, (r->Ok_0).1)),
            ) by {
                let (g, l) = r->Ok_0;
                let t = |s: Seq<u8>| tree_backs_up(g, s) && !tree_backs_up(none, s);
                assert forall|source: Seq<u8>| !#[trigger] tree_backs_up(none, source) by {}
                assert forall|source: Seq<u8>|
                    backs_up(Node::Directory { mode, tree: g }, source) implies exists|k: nat|
                    n <= k < l && #[trigger] at_number(u, dir, k, source) by {
                    assert(t(source));
                }
            }
        },
        _ => {},
    }
}

/// The backups that were taken of a tree are kept while the activation is being prepared.
pub proof fn law_tree_capture_held(
    w: Shelf,
    f: Forest,
    p: Seq<u8>,
    dir: Seq<u8>,
    n: usize,
    before: Forest,
)
    requires
        n + size(f) < usize::MAX,
    ensures
        backup::tree_capture_program(f, p, dir, n, before).meets(
            w,
            tree_shelters(w, before, dir, n, size(f)),
        ),
    decreases f, 0int,
{
    let post = tree_shelters(w, before, dir, n, size(f));
    if f.len() > 0 {
        let (name, node) = (f[0].0, f[0].1);
        let later = f.skip(1);
        let first = shelters(w, dir, n, node_size(node));
        law_capture_held(w, node, path::join(p, name), dir, n);
        assert forall|u: Shelf, r: Result<(Node, usize), Trouble>| #[trigger]
            first(u, r) && r is Ok implies backup::tree_capture_program(
            later,
            p,
            dir,
            (r->Ok_0).1,
            tree::put(before, name, (r->Ok_0).0),
        ).meets(u, post) by {
            let (found, m) = r->Ok_0;
            let more = tree::put(before, name, found);
            law_tree_capture_held(u, later, p, dir, m, more);
            let rest = tree_shelters(u, more, dir, m, size(later));
            assert forall|v: Shelf, q: Result<(Forest, usize), Trouble>| #[trigger]
                rest(v, q) implies post(v, q) by {
                if q is Ok {
                    let (g, l) = q->Ok_0;
                    lemma_further(w, u, v, dir, n as nat, m as nat, l as nat, Seq::empty());
                    assert forall|source: Seq<u8>|
                        tree_backs_up(g, source) && !tree_backs_up(
                            before,
                            source,
                        ) implies exists|k: nat| n <= k < l && #[trigger] at_number(
                        v,
                        dir,
                        k,
                        source,
                    ) by {
                        if tree_backs_up(more, source) {
                            lemma_put_backs_up(before, name, found, source);
                            let t = |s: Seq<u8>| backs_up(found, s);
                            assert(t(source));
                            lemma_further(
                                w,
                                u,
                                v,
                                dir,
                                n as nat,
                                m as nat,
                                l as nat,
                                source,
                            );
                        } else {
                            let t = |s: Seq<u8>| tree_backs_up(g, s) && !tree_backs_up(more, s);
                            assert(t(source));
                        }
                    }
                }
            }
        }
    }
}

/// A tree with an entry put into it holds a backup only if the tree did, or the entry does.
proof fn lemma_put_backs_up(f: Forest, name: Seq<u8>, node: Node, source: Seq<u8>)
    requires
        tree_backs_up(tree::put(f, name, node), source),
    ensures
        tree_backs_up(f, source) || backs_up(node, source),
{
    let g = tree::put(f, name, node);
    let modes = choose|modes: Modes| has_node(g, #[trigger] snapshot(source, modes));
    let x = snapshot(source, modes);
    let i = choose|i: int|
        0 <= i < g.len() && ((#[trigger] g[i]).1 == x || (g[i].1 matches Node::Directory {
            tree,
            ..
        } && has_node(tree, x)));
    tree::lemma_slot(f, name);
    tree::lemma_place(f, name);
    if g[i] == (name, node) {
        if node != x {
            assert(has_node(node->tree, snapshot(source, modes)));
        }
    } else {
        let k = if tree::lookup(f, name) is Some || i < tree::place(f, name) {
            i
        } else {
            i - 1
        };
        assert(f[k] == g[i]);
        assert(has_node(f, snapshot(source, modes)));
    }
}

} // verus!
