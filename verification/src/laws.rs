use vstd::prelude::*;

use crate::export::{
    dedup_by_id, import_outcome, import_step, import_upto, init_import_state, sel_contains,
    spec_export,
};
use crate::models::ExportEntryV;
use crate::listing::{
    build_items, first_board_in_items, item_has_board, normalize_active, spec_set_index,
    store_items,
};
use crate::migrate::spec_migrate;
use crate::models::{BoardV, ListItemV};
use crate::effects::unicode_trim;
use crate::ops::{boards_after_touch, docs_after_save, spec_create};
use crate::store::{
    distinct_keys, doc_or_default, find_doc, has_board, DocRowV, FolderRowV, IndexRowV,
    MemberRowV, StoreV,
};

verus! {

broadcast use vstd::prelude::Seq::group_seq_extra, vstd::seq_lib::group_seq_lib_default;

/// The first reachable board of a list is reachable through it.
pub proof fn lemma_first_board_reachable(items: Seq<ListItemV>)
    ensures
        match first_board_in_items(items) {
            Some(x) => item_has_board(items, x),
            None => true,
        },
    decreases items.len(),
{
    if items.len() > 0 {
        match items.first() {
            ListItemV::Board(b) => {
                assert(match items[0] {
                    ListItemV::Board(bb) => bb.id == b.id,
                    ListItemV::Folder { boards, .. } => false,
                });
            },
            ListItemV::Folder { boards, .. } => {
                if boards.len() > 0 {
                    assert(match items[0] {
                        ListItemV::Board(_) => false,
                        ListItemV::Folder { boards: fb, .. } => fb[0].id == boards.first().id,
                    });
                } else {
                    lemma_first_board_reachable(items.drop_first());
                    match first_board_in_items(items.drop_first()) {
                        Some(x) => {
                            let i = choose|i: int|
                                0 <= i < items.drop_first().len() && (match #[trigger] items.drop_first()[i] {
                                    ListItemV::Board(b) => b.id == x,
                                    ListItemV::Folder { boards: fb, .. } => exists|j: int|
                                        0 <= j < fb.len() && (#[trigger] fb[j]).id == x,
                                });
                            assert(items[i + 1] == items.drop_first()[i]);
                        },
                        None => {},
                    }
                }
            },
        }
    }
}

/// Resolving the active id is idempotent: what one read reports, the next
/// read keeps.
pub proof fn lemma_normalize_active_idempotent(items: Seq<ListItemV>, active: Option<Seq<char>>)
    ensures
        normalize_active(items, normalize_active(items, active)) == normalize_active(
            items,
            active,
        ),
{
    lemma_first_board_reachable(items);
}

/// A read never shows a folder without members.
pub proof fn lemma_view_folders_nonempty(
    index: Seq<IndexRowV>,
    boards: Seq<BoardV>,
    folders: Seq<FolderRowV>,
    members: Seq<MemberRowV>,
)
    ensures
        forall|i: int|
            0 <= i < build_items(index, boards, folders, members).len()
                ==> match #[trigger] build_items(index, boards, folders, members)[i] {
                ListItemV::Board(_) => true,
                ListItemV::Folder { boards: fb, .. } => fb.len() > 0,
            },
    decreases index.len(),
{
    if index.len() > 0 {
        lemma_view_folders_nonempty(index.drop_last(), boards, folders, members);
    }
}

/// Replacing the ordering with what it just returned changes nothing more:
/// the rewritten tables and the resolved active id come out the same.
pub proof fn lemma_set_boards_index_idempotent(s: StoreV, iv: Seq<ListItemV>)
    ensures
        spec_set_index(spec_set_index(s, iv), iv) == spec_set_index(s, iv),
{
    lemma_normalize_active_idempotent(iv, s.active);
    assert(spec_set_index(spec_set_index(s, iv), iv) =~= spec_set_index(s, iv));
}

/// One migration is as good as two: a second attempt, whatever legacy file
/// it sees, finds the flag set and leaves the store exactly as the first
/// attempt left it.
pub proof fn lemma_migration_runs_once(
    s: StoreV,
    file: Option<(Seq<ListItemV>, Option<Seq<char>>)>,
    dv: Seq<DocRowV>,
    file2: Option<(Seq<ListItemV>, Option<Seq<char>>)>,
    dv2: Seq<DocRowV>,
)
    ensures
        spec_migrate(spec_migrate(s, file, dv), file2, dv2) == spec_migrate(s, file, dv),
{
}

/// Reading the board list twice gives the same list and the same active
/// id: the normalization the first read writes back is already resolved.
pub proof fn lemma_get_boards_stable(s: StoreV)
    ensures
        ({
            let a = normalize_active(store_items(s), s.active);
            let s2 = StoreV { active: a, ..s };
            store_items(s2) == store_items(s) && normalize_active(store_items(s2), s2.active)
                == a
        }),
{
    lemma_normalize_active_idempotent(store_items(s), s.active);
}

/// A document lookup after an upsert: the saved board reads the new blob,
/// every other board reads what it read before.
pub proof fn lemma_doc_after_save(docs: Seq<DocRowV>, k: Seq<char>, data: Seq<char>, x: Seq<char>)
    ensures
        x == k ==> doc_or_default(docs_after_save(docs, k, data), x) == data,
        x != k ==> doc_or_default(docs_after_save(docs, k, data), x) == doc_or_default(docs, x),
    decreases docs.len(),
{
    if find_doc(docs, k) is Some {
        lemma_doc_after_save_map(docs, k, data, x);
    } else {
        lemma_find_doc_push(docs, DocRowV { board_id: k, data: data }, x);
    }
}

/// A document lookup through the in-place-rewrite branch of an upsert.
proof fn lemma_doc_after_save_map(docs: Seq<DocRowV>, k: Seq<char>, data: Seq<char>, x: Seq<char>)
    requires
        find_doc(docs, k) is Some,
    ensures
        x == k ==> find_doc(
            docs.map_values(
                |d: DocRowV|
                    if d.board_id == k {
                        DocRowV { data: data, ..d }
                    } else {
                        d
                    },
            ),
            x,
        ) == Some(DocRowV { board_id: k, data: data }),
        x != k ==> find_doc(
            docs.map_values(
                |d: DocRowV|
                    if d.board_id == k {
                        DocRowV { data: data, ..d }
                    } else {
                        d
                    },
            ),
            x,
        ) == find_doc(docs, x),
    decreases docs.len(),
{
    let f = |d: DocRowV|
        if d.board_id == k {
            DocRowV { data: data, ..d }
        } else {
            d
        };
    let mapped = docs.map_values(f);
    if docs.len() > 0 {
        assert(mapped.first() == f(docs.first()));
        assert(mapped.drop_first() =~= docs.drop_first().map_values(f));
        if docs.first().board_id != k {
            lemma_doc_after_save_map(docs.drop_first(), k, data, x);
        } else if x != k && docs.first().board_id != x {
            lemma_find_doc_map_other(docs.drop_first(), k, data, x);
        }
    }
}

/// Rewriting the row of one board leaves every other lookup alone.
proof fn lemma_find_doc_map_other(docs: Seq<DocRowV>, k: Seq<char>, data: Seq<char>, x: Seq<char>)
    requires
        x != k,
    ensures
        find_doc(
            docs.map_values(
                |d: DocRowV|
                    if d.board_id == k {
                        DocRowV { data: data, ..d }
                    } else {
                        d
                    },
            ),
            x,
        ) == find_doc(docs, x),
    decreases docs.len(),
{
    let f = |d: DocRowV|
        if d.board_id == k {
            DocRowV { data: data, ..d }
        } else {
            d
        };
    if docs.len() > 0 {
        assert(docs.map_values(f).first() == f(docs.first()));
        assert(docs.map_values(f).drop_first() =~= docs.drop_first().map_values(f));
        lemma_find_doc_map_other(docs.drop_first(), k, data, x);
    }
}

/// A row appended at the end never changes an earlier lookup, and resolves
/// a lookup of its own board when none resolved before.
pub proof fn lemma_find_doc_push(docs: Seq<DocRowV>, d: DocRowV, x: Seq<char>)
    ensures
        find_doc(docs, x) is Some ==> find_doc(docs.push(d), x) == find_doc(docs, x),
        find_doc(docs, x) is None && d.board_id == x ==> find_doc(docs.push(d), x) == Some(d),
        find_doc(docs, x) is None && d.board_id != x ==> find_doc(docs.push(d), x) is None,
    decreases docs.len(),
{
    if docs.len() == 0 {
        assert(docs.push(d).first() == d);
        assert(docs.push(d).drop_first() =~= Seq::<DocRowV>::empty());
    } else {
        assert(docs.push(d).first() == docs.first());
        assert(docs.push(d).drop_first() =~= docs.drop_first().push(d));
        lemma_find_doc_push(docs.drop_first(), d, x);
    }
}

/// What an import pass builds, step by step, when it is fed entries with
/// pairwise distinct original ids, clean nonblank names and non-null
/// documents, into a store without boards, under pairwise distinct fresh
/// ids: one board per entry, in order, under the entry's name, holding the
/// entry's document.
proof fn lemma_import_clean_prefix(
    t: StoreV,
    ev: Seq<ExportEntryV>,
    selv: Seq<usize>,
    idv: Seq<Seq<char>>,
    now: int,
    i: int,
)
    requires
        t.boards.len() == 0,
        0 <= i <= ev.len(),
        forall|j: int| 0 <= j < ev.len() ==> sel_contains(selv, j),
        distinct_keys(idv, |x: Seq<char>| x),
        idv.len() >= ev.len(),
        distinct_keys(ev, |e: ExportEntryV| e.id),
        forall|j: int|
            0 <= j < ev.len() ==> unicode_trim((#[trigger] ev[j]).name) == ev[j].name
                && ev[j].name.len() > 0 && ev[j].data is Some,
    ensures
        ({
            let st = import_upto(init_import_state(t), ev, i, selv, idv, now);
            &&& st.imported == i
            &&& st.skipped == 0
            &&& st.drawn == i
            &&& st.store.boards.len() == i
            &&& forall|k: int|
                0 <= k < st.seen.len() ==> exists|j: int|
                    0 <= j < i && (#[trigger] st.seen[k]) == ev[j].id
            &&& forall|j: int|
                0 <= j < i ==> (#[trigger] st.store.boards[j]).id == idv[j]
                    && st.store.boards[j].name == ev[j].name
            &&& forall|j: int|
                0 <= j < i ==> doc_or_default(st.store.docs, #[trigger] idv[j])
                    == ev[j].data.unwrap()
        }),
    decreases i,
{
    let init = init_import_state(t);
    if i > 0 {
        lemma_import_clean_prefix(t, ev, selv, idv, now, i - 1);
        let st = import_upto(init, ev, i - 1, selv, idv, now);
        let st2 = import_upto(init, ev, i, selv, idv, now);
        let e = ev[i - 1];
        assert(st2 == import_step(st, e, sel_contains(selv, i - 1), idv, now));
        assert(sel_contains(selv, i - 1));
        // The entry's original id was not seen before: ids are distinct.
        assert(!crate::export::id_in(st.seen, e.id)) by {
            if crate::export::id_in(st.seen, e.id) {
                let k = choose|k: int| 0 <= k < st.seen.len() && #[trigger] st.seen[k] == e.id;
                let j = choose|j: int| 0 <= j < i - 1 && (#[trigger] st.seen[k]) == ev[j].id;
                assert(ev[j].id == ev[i - 1].id);
            }
        }
        assert(crate::export::import_final_name(e, st) == e.name);
        // The fresh id clashes with no board created so far.
        let id = idv[i - 1];
        assert(!has_board(st.store.boards, id)) by {
            crate::ops::lemma_has_board_iff(st.store.boards, id);
            if has_board(st.store.boards, id) {
                let j = choose|j: int|
                    0 <= j < st.store.boards.len() && (#[trigger] st.store.boards[j]).id == id;
                assert(st.store.boards[j].id == idv[j]);
            }
        }
        let s1 = spec_create(st.store, id, e.name, now);
        let nb = s1.boards.last();
        assert(st2.store.boards =~= boards_after_touch(s1.boards, id, now));
        assert forall|j: int|
            0 <= j < i implies (#[trigger] st2.store.boards[j]).id == idv[j]
                && st2.store.boards[j].name == ev[j].name by {
            assert(st2.store.boards[j] == if s1.boards[j].id == id {
                BoardV { updated_at: now, ..s1.boards[j] }
            } else {
                s1.boards[j]
            });
            if j < i - 1 {
                assert(s1.boards[j] == st.store.boards[j]);
            } else {
                assert(s1.boards[j] == nb);
            }
        }
        assert forall|j: int|
            0 <= j < i implies doc_or_default(st2.store.docs, #[trigger] idv[j])
                == ev[j].data.unwrap() by {
            lemma_doc_after_save(s1.docs, id, e.data.unwrap(), idv[j]);
            if j < i - 1 {
                lemma_find_doc_push(
                    st.store.docs,
                    DocRowV { board_id: id, data: crate::spec_default_board_data() },
                    idv[j],
                );
            }
        }
        assert forall|k: int|
            0 <= k < st2.seen.len() implies exists|j: int|
                0 <= j < i && (#[trigger] st2.seen[k]) == ev[j].id by {
            if k < st.seen.len() {
                assert(st2.seen[k] == st.seen[k]);
                let j = choose|j: int| 0 <= j < i - 1 && (#[trigger] st.seen[k]) == ev[j].id;
                assert(st2.seen[k] == ev[j].id);
            } else {
                assert(st2.seen[k] == ev[i - 1].id);
            }
        }
    }
}

/// Round trip: importing everything an export produced into a store
/// without boards recreates, in export order, one board per entry carrying
/// the exported name and the exported document (under fresh ids). It asks
/// for names that trimming fixes and are nonblank, for documents that
/// exported as JSON (not null), and for pairwise distinct fresh ids.
pub proof fn lemma_export_import_round_trip(
    src: StoreV,
    t: StoreV,
    selv: Seq<usize>,
    idv: Seq<Seq<char>>,
    now: int,
)
    requires
        t.boards.len() == 0,
        forall|i: int| 0 <= i < spec_export(src).len() ==> sel_contains(selv, i),
        distinct_keys(idv, |x: Seq<char>| x),
        idv.len() >= spec_export(src).len(),
    ensures
        ({
            let ev = spec_export(src);
            let out = import_outcome(t, ev, selv, idv, now);
            (forall|i: int|
                0 <= i < ev.len() ==> unicode_trim((#[trigger] ev[i]).name) == ev[i].name
                    && ev[i].name.len() > 0 && ev[i].data is Some) ==> {
                &&& out.1 == ev.len()
                &&& out.2 == 0
                &&& out.0.boards.len() == ev.len()
                &&& forall|i: int|
                    0 <= i < ev.len() ==> (#[trigger] out.0.boards[i]).name == ev[i].name
                        && out.0.boards[i].id == idv[i]
                &&& forall|i: int|
                    0 <= i < ev.len() ==> doc_or_default(out.0.docs, #[trigger] idv[i])
                        == ev[i].data.unwrap()
            }
        }),
{
    let ev = spec_export(src);
    if forall|i: int|
        0 <= i < ev.len() ==> unicode_trim((#[trigger] ev[i]).name) == ev[i].name
            && ev[i].name.len() > 0 && ev[i].data is Some {
        let flat = crate::export::reachable_boards(store_items(src));
        crate::export::lemma_dedup_distinct(flat);
        assert(distinct_keys(ev, |e: ExportEntryV| e.id)) by {
            assert forall|i: int, j: int| 0 <= i < j < ev.len() implies (#[trigger] ev[i]).id != (
            #[trigger] ev[j]).id by {
                assert(ev[i].id == dedup_by_id(flat)[i].id);
                assert(ev[j].id == dedup_by_id(flat)[j].id);
            }
        }
        lemma_import_clean_prefix(t, ev, selv, idv, now, ev.len() as int);
    }
}

} // verus!
