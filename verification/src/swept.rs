//! That nothing is left over: of the roots that keep objects in the store, and of what was being
//! prepared.
use vstd::prelude::*;

use crate::atomic;
use crate::backup;
use crate::bytes;
use crate::disk;
use crate::disk::{Disk, Object, Spot};
use crate::error::Trouble;
use crate::host;
use crate::mounted;
use crate::path;
use crate::path::Component;
use crate::placed;
use crate::program;
use crate::quiet;
use crate::state;
use crate::state::{ActivationModel, StatePaths, Transaction};
use crate::tree::Forest;

verus! {

broadcast use crate::reason::group_reason;

/// The place of the roots of the activation called `name`.
pub open spec fn root_place(paths: StatePaths<Seq<u8>>, name: Seq<u8>) -> Spot {
    path::components(paths.gc_roots).push(Component::Normal(name))
}

/// Whether no roots are there but those of the activation that is recorded at `current`.
pub open spec fn only_roots(v: Disk, paths: StatePaths<Seq<u8>>, current: Option<Seq<u8>>) -> bool {
    forall|name: Seq<u8>|
        #![trigger root_place(paths, name)]
        v.get(root_place(paths, name)) is Some ==> (current matches Some(p) && path::file_name(p)
            == Some(name))
}

/// That a disk is sound and, if the operation succeeded, no roots are there but those of the
/// activation that is recorded at `current`.
pub open spec fn sweeps(paths: StatePaths<Seq<u8>>, current: Option<Seq<u8>>) -> spec_fn(
    Disk,
    Result<(), Trouble>,
) -> bool {
    |v: Disk, r: Result<(), Trouble>| v.sound() && (r is Ok ==> only_roots(v, paths, current))
}

/// Removing roots, if it succeeds, leaves none but those of the current activation.
pub proof fn law_clean(w: Disk, paths: StatePaths<Seq<u8>>, current: Option<Seq<u8>>)
    requires
        w.sound(),
        mounted::are_places(paths),
    ensures
        state::clean_program(paths, current).meets(w, sweeps(paths, current)),
{
    let g = path::components(paths.gc_roots);
    mounted::lemma_places(paths);
    assert(g.len() > 0);
    assert forall|name: Seq<u8>|
        #![trigger root_place(paths, name)]
        !disk::is_directory(w.get(g)) implies w.get(root_place(paths, name)) is None by {
        placed::lemma_below_push(g, Component::Normal(name));
    }
    if state::kept_root(current, paths) is Ok {
        let keep = state::kept_root(current, paths)->Ok_0;
        assert forall|names: Seq<Seq<u8>>|
            #![trigger w.lists(g, names)]
            #![trigger host::all_plain(names)]
            host::all_plain(names) && (disk::is_directory(w.get(g)) ==> w.lists(
                g,
                names,
            )) implies state::clean_names_program(paths, names, keep).meets(
            w,
            sweeps(paths, current),
        ) by {
            assert forall|name: Seq<u8>|
                #![trigger root_place(paths, name)]
                w.get(root_place(paths, name)) is Some implies names.contains(name) by {
                assert(root_place(paths, name).last() == Component::Normal(name));
                assert(root_place(paths, name).len() > 1);
            }
            lemma_clean_names(w, paths, names, current);
        }
    }
}

proof fn lemma_clean_names(
    w: Disk,
    paths: StatePaths<Seq<u8>>,
    names: Seq<Seq<u8>>,
    current: Option<Seq<u8>>,
)
    requires
        w.sound(),
        host::all_plain(names),
        state::kept_root(current, paths) is Ok,
        forall|name: Seq<u8>|
            #![trigger root_place(paths, name)]
            w.get(root_place(paths, name)) is Some ==> names.contains(name) || (
            current matches Some(p) && path::file_name(p) == Some(name)),
    ensures
        state::clean_names_program(
            paths,
            names,
            state::kept_root(current, paths)->Ok_0,
        ).meets(w, sweeps(paths, current)),
    decreases names.len(),
{
    let keep = state::kept_root(current, paths)->Ok_0;
    if names.len() == 0 {
        assert forall|name: Seq<u8>|
            #![trigger root_place(paths, name)]
            w.get(root_place(paths, name)) is Some implies (current matches Some(p)
            && path::file_name(p) == Some(name)) by {
            assert(!names.contains(name));
        }
    } else {
        let later = names.skip(1);
        let p = path::join(paths.gc_roots, names[0]);
        assert(path::is_plain(names[0]));
        path::lemma_entry(paths.gc_roots, names[0]);
        assert(path::components(p) == root_place(paths, names[0]));
        assert forall|i: int| 0 <= i < later.len() implies path::is_plain(#[trigger] later[i]) by {
            assert(later[i] == names[i + 1]);
        }
        if state::is_kept(p, keep) {
            let q = current->Some_0;
            let name = path::file_name(q)->Some_0;
            path::lemma_components_plain(q);
            path::lemma_entry(paths.gc_roots, name);
            assert(root_place(paths, names[0]).last() == root_place(paths, name).last());
        }
        assert forall|v: Disk|
            #![trigger v.sound()]
            v.sound() && (forall|j: Spot| #![trigger v.get(j)] v.get(j) is Some ==> w.get(j) is Some)
                && (state::is_kept(p, keep) || v.get(path::components(p)) is None) implies state::clean_names_program(
            paths,
            later,
            keep,
        ).meets(v, sweeps(paths, current)) by {
            assert forall|name: Seq<u8>|
                #![trigger root_place(paths, name)]
                v.get(root_place(paths, name)) is Some implies later.contains(name) || (
            current matches Some(p) && path::file_name(p) == Some(name)) by {
                if names.contains(name) && name != names[0] {
                    let i = choose|i: int| 0 <= i < names.len() && names[i] == name;
                    assert(later[i - 1] == name);
                }
            }
            lemma_clean_names(v, paths, later, current);
        }
        let c = path::components(p);
        assert(c.take(c.len() as int) =~= c);
    }
}

/// That a disk is sound and, if the operation succeeded, nothing is left of what was being prepared.
pub open spec fn unprepared<R>(paths: StatePaths<Seq<u8>>) -> spec_fn(Disk, Result<R, Trouble>) -> bool {
    |v: Disk, r: Result<R, Trouble>| v.sound() && (r is Ok ==> v.at(paths.preparing) is None)
}

/// Removing what was being prepared, if it succeeds, leaves nothing of it.
pub proof fn law_remove_preparing(w: Disk, paths: StatePaths<Seq<u8>>)
    requires
        w.sound(),
    ensures
        state::remove_preparing_program(paths).meets(w, unprepared(paths)),
{
    let c = path::components(paths.preparing);
    assert(c.take(c.len() as int) =~= c);
}

/// Removing roots does not bring back what was being prepared.
pub proof fn lemma_clean_unprepared(w: Disk, paths: StatePaths<Seq<u8>>, current: Option<Seq<u8>>)
    requires
        w.sound(),
        mounted::are_places(paths),
        w.at(paths.preparing) is None,
    ensures
        state::clean_program(paths, current).meets(w, unprepared(paths)),
{
    if state::kept_root(current, paths) is Ok {
        let keep = state::kept_root(current, paths)->Ok_0;
        assert forall|names: Seq<Seq<u8>>| #[trigger]
            host::all_plain(names) implies state::clean_names_program(paths, names, keep).meets(
            w,
            unprepared(paths),
        ) by {
            lemma_names_unprepared(w, paths, names, keep);
        }
    }
}

proof fn lemma_names_unprepared(
    w: Disk,
    paths: StatePaths<Seq<u8>>,
    names: Seq<Seq<u8>>,
    keep: Option<Seq<u8>>,
)
    requires
        w.sound(),
        mounted::are_places(paths),
        host::all_plain(names),
        w.at(paths.preparing) is None,
    ensures
        state::clean_names_program(paths, names, keep).meets(w, unprepared(paths)),
    decreases names.len(),
{
    if names.len() > 0 {
        let later = names.skip(1);
        assert forall|i: int| 0 <= i < later.len() implies path::is_plain(#[trigger] later[i]) by {
            assert(later[i] == names[i + 1]);
        }
        assert forall|v: Disk|
            #![trigger v.sound()]
            v.sound() && v.at(paths.preparing) is None implies state::clean_names_program(
            paths,
            later,
            keep,
        ).meets(v, unprepared(paths)) by {
            lemma_names_unprepared(v, paths, later, keep);
        }
    }
}

/// What is removed before the roots stays removed.
proof fn lemma_leftovers(w: Disk, paths: StatePaths<Seq<u8>>, current: Option<Seq<u8>>)
    requires
        w.sound(),
        mounted::are_places(paths),
    ensures
        state::remove_preparing_program(paths).and_then(
            |u: ()| state::clean_program(paths, current),
        ).meets(w, unprepared(paths)),
{
    law_remove_preparing(w, paths);
    assert forall|v: Disk, r: Result<(), Trouble>| #[trigger]
        unprepared::<()>(paths)(v, r) && r is Ok implies state::clean_program(paths, current).meets(
        v,
        unprepared(paths),
    ) by {
        lemma_clean_unprepared(v, paths, current);
    }
}

/// Recovering, if it succeeds, leaves nothing of what was being prepared.
pub proof fn law_recover_unprepared(w: Disk, paths: StatePaths<Seq<u8>>)
    requires
        w.sound(),
        mounted::are_places(paths),
    ensures
        state::recover_program(paths).meets(w, unprepared(paths)),
{
    let post = unprepared::<()>(paths);
    law_remove_preparing(w, paths);
    assert forall|v: Disk, r: Result<(), Trouble>| #[trigger]
        post(v, r) && r is Ok implies state::load_program(paths).and_then(
        |current: Option<(Seq<u8>, ActivationModel)>|
            state::clean_program(paths, state::path_of(current)),
    ).meets(v, post) by {
        quiet::lemma_load(paths);
        quiet::lemma_still(state::load_program(paths), v);
        assert forall|current: Option<Seq<u8>>| #[trigger]
            state::clean_program(paths, current).meets(v, post) by {
            lemma_clean_unprepared(v, paths, current);
        }
    }
    assert(state::tidy_program(paths).meets(w, post));
    assert forall|t: Transaction<Seq<u8>>| #[trigger]
        state::resume_program(paths, t).meets(w, post) by {
        lemma_resume_unprepared(w, paths, t);
    }
}

proof fn lemma_resume_unprepared(w: Disk, paths: StatePaths<Seq<u8>>, t: Transaction<Seq<u8>>)
    requires
        w.sound(),
        mounted::are_places(paths),
    ensures
        state::resume_program(paths, t).meets(w, unprepared(paths)),
{
    match t {
        Transaction::Mount { previous, next } => {
            if next is Some {
                lemma_finish_unprepared(w, paths, next->Some_0);
            } else if previous is Some {
                lemma_finish_unprepared(w, paths, previous->Some_0);
            }
        },
        Transaction::Unmount { activation } => {
            lemma_leave_unprepared(w, paths, activation);
        },
    }
}

proof fn lemma_finish_unprepared(w: Disk, paths: StatePaths<Seq<u8>>, p: Seq<u8>)
    requires
        w.sound(),
        mounted::are_places(paths),
    ensures
        state::finish_program(paths, p).meets(w, unprepared(paths)),
{
    let post = unprepared::<()>(paths);
    let q = state::remove_preparing_program(paths).and_then(
        |u: ()| state::clean_program(paths, Some(p)),
    );
    assert forall|v: Disk| #[trigger] v.sound() implies q.meets(v, post) by {
        lemma_leftovers(v, paths, Some(p));
    }
    let third = state::clear_transaction_program(paths).and_then(|u: ()| q);
    assert forall|v: Disk| #[trigger] v.sound() implies third.meets(v, post) by {
        mounted::lemma_intact(state::clear_transaction_program(paths), v);
    }
    let second = state::write_current_program(paths, p).and_then(|u: ()| third);
    assert forall|v: Disk| #[trigger] v.sound() implies second.meets(v, post) by {
        mounted::lemma_intact(state::write_current_program(paths, p), v);
    }
    assert forall|a: ActivationModel, v: Disk|
        #![trigger state::activate_program(a), v.sound()]
        v.sound() implies state::activate_program(a).and_then(|u: ()| second).meets(v, post) by {
        mounted::lemma_intact(state::activate_program(a), v);
    }
    mounted::lemma_intact(state::read_program(p), w);
    assert(state::finish_program(paths, p).meets(w, post));
}

proof fn lemma_leave_unprepared(w: Disk, paths: StatePaths<Seq<u8>>, p: Seq<u8>)
    requires
        w.sound(),
        mounted::are_places(paths),
    ensures
        state::leave_program(paths, p).meets(w, unprepared(paths)),
{
    let post = unprepared::<()>(paths);
    let q = state::remove_preparing_program(paths).and_then(
        |u: ()| state::clean_program(paths, None),
    );
    assert forall|v: Disk| #[trigger] v.sound() implies q.meets(v, post) by {
        lemma_leftovers(v, paths, None);
    }
    let third = state::clear_transaction_program(paths).and_then(|u: ()| q);
    assert forall|v: Disk| #[trigger] v.sound() implies third.meets(v, post) by {
        mounted::lemma_intact(state::clear_transaction_program(paths), v);
    }
    let second = state::remove_current_program(paths).and_then(|u: ()| third);
    assert forall|v: Disk| #[trigger] v.sound() implies second.meets(v, post) by {
        mounted::lemma_intact(state::remove_current_program(paths), v);
    }
    assert forall|a: ActivationModel, v: Disk|
        #![trigger state::deactivate_program(a), v.sound()]
        v.sound() implies state::deactivate_program(a).and_then(|u: ()| second).meets(v, post) by {
        mounted::lemma_intact(state::deactivate_program(a), v);
    }
    mounted::lemma_intact(state::read_program(p), w);
    assert(state::leave_program(paths, p).meets(w, post));
}

/// Preparing an activation, if it succeeds, leaves nothing but the record.
pub proof fn lemma_prepare_unprepared(w: Disk, paths: StatePaths<Seq<u8>>, root: Seq<u8>, f: Forest)
    requires
        w.sound(),
    ensures
        state::prepare_program(paths, root, f).meets(w, unprepared(paths)),
{
    let post = unprepared::<(Seq<u8>, ActivationModel)>(paths);
    assert forall|v: Disk, a: ActivationModel|
        #![trigger v.sound(), state::record_program(paths, a)]
        v.sound() implies state::record_program(paths, a).meets(v, post) by {
        mounted::lemma_intact(state::persist_program(a, paths), v);
        assert forall|u: Disk, p: Seq<u8>|
            #![trigger u.sound(), program::give::<(Seq<u8>, ActivationModel)>((p, a))]
            u.sound() implies state::remove_preparing_program(paths).and_then(
            |x: ()| program::give((p, a)),
        ).meets(u, post) by {
            law_remove_preparing(u, paths);
        }
    }
    let capture = backup::tree_capture_program(f, root, paths.preparing, 0, Seq::empty());
    assert forall|v: Disk| #[trigger] v.sound() implies capture.and_then(
        |captured: (Forest, usize)|
            state::record_program(
                paths,
                ActivationModel { root, projection: f, baseline: captured.0 },
            ),
    ).meets(v, post) by {
        mounted::lemma_intact(capture, v);
    }
    mounted::lemma_intact(state::remove_preparing_program(paths), w);
}

/// Whether nothing is left over: nothing of what was being prepared, and no roots but those of what
/// is written down as mounted.
pub open spec fn tidy(v: Disk, paths: StatePaths<Seq<u8>>) -> bool {
    &&& v.at(paths.preparing) is None
    &&& match v.at(paths.current) {
        Some(Object::File(line, _)) => only_roots(v, paths, Some(bytes::trimmed(line))),
        _ => only_roots(v, paths, None),
    }
}

/// Changing one of the files of the state does not bring back what was being prepared.
pub proof fn lemma_files_unprepared(w: Disk, paths: StatePaths<Seq<u8>>, p: Seq<u8>)
    requires
        w.sound(),
        mounted::are_places(paths),
        w.at(paths.preparing) is None,
    ensures
        state::write_current_program(paths, p).meets(w, unprepared(paths)),
        state::clear_transaction_program(paths).meets(w, unprepared(paths)),
        forall|t: Transaction<Seq<u8>>| #[trigger]
            state::write_transaction_program(paths, t).meets(w, unprepared(paths)),
{
    let (c, j, k) = (
        path::components(paths.current),
        path::components(paths.journal),
        path::components(paths.preparing),
    );
    mounted::lemma_state_names();
    mounted::lemma_places(paths);
    path::lemma_entry(paths.directory, bytes::text("transaction"@));
    path::lemma_parent(paths.directory, bytes::text("transaction"@));
    lemma_names_differ();
    assert(!disk::below(c, k) && !disk::below(j, k)) by {
        assert(k.take(k.len() as int) =~= k);
        assert(k.last() != c.last() && k.last() != j.last());
        assert(k.len() == c.len() && k.len() == j.len());
    }
    mounted::law_write(w, paths.directory, bytes::text("current"@), state::line_of(p));
    assert forall|form: Seq<u8>| #[trigger]
        atomic::write_program(paths.journal, form).meets(w, unprepared(paths)) by {
        mounted::law_write(w, paths.directory, bytes::text("transaction"@), form);
    }
}

proof fn lemma_names_differ()
    ensures
        bytes::text("preparing"@) != bytes::text("current"@),
        bytes::text("preparing"@) != bytes::text("transaction"@),
{
    reveal_strlit("current");
    reveal_strlit("transaction");
    reveal_strlit("preparing");
    vstd::utf8::is_ascii_chars_encode_utf8("current"@);
    vstd::utf8::is_ascii_chars_encode_utf8("transaction"@);
    vstd::utf8::is_ascii_chars_encode_utf8("preparing"@);
    assert(bytes::text("preparing"@).len() == 9);
    assert(bytes::text("current"@).len() == 7);
    assert(bytes::text("transaction"@).len() == 11);
}

} // verus!
