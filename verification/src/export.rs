use vstd::prelude::*;

use crate::effects::json_reformat;
use crate::listing::store_items;
use crate::models::{
    Board, BoardListItem, BoardsExportEntry, BoardV, ExportEntryV, ListItemV,
};
use crate::models::BoardsImportResult;
use crate::effects::{unicode_lower, unicode_trim};
use crate::names::{chosen_copy_name, keys_of};
use crate::ops::{boards_after_touch, docs_after_save, spec_create};
use crate::store::{doc_or_default, has_board, DocRowV, Store, StoreV};

verus! {

broadcast use vstd::prelude::Seq::group_seq_extra, vstd::seq_lib::group_seq_lib_default;

/// Every board the displayed list reaches, in walk order — top-level
/// boards where they stand, folder members in folder order — duplicates
/// included.
pub open spec fn reachable_boards(items: Seq<ListItemV>) -> Seq<BoardV>
    decreases items.len(),
{
    if items.len() == 0 {
        Seq::empty()
    } else {
        reachable_boards(items.drop_last()) + (match items.last() {
            ListItemV::Board(b) => seq![b],
            ListItemV::Folder { boards, .. } => boards,
        })
    }
}

/// The boards with each id kept at its first occurrence only.
pub open spec fn dedup_by_id(boards: Seq<BoardV>) -> Seq<BoardV>
    decreases boards.len(),
{
    if boards.len() == 0 {
        Seq::empty()
    } else {
        let pre = dedup_by_id(boards.drop_last());
        if has_board(pre, boards.last().id) {
            pre
        } else {
            pre.push(boards.last())
        }
    }
}

/// The export entry of one board: its metadata, and its document parsed
/// and reprinted — null (here: `None`) where the blob is not valid JSON.
pub open spec fn export_entry_of(b: BoardV, docs: Seq<DocRowV>) -> ExportEntryV {
    ExportEntryV {
        id: b.id,
        name: b.name,
        created_at: b.created_at,
        updated_at: b.updated_at,
        collaboration_link: b.collaboration_link,
        thumbnail: b.thumbnail,
        data: json_reformat(doc_or_default(docs, b.id)),
    }
}

/// The export payload of a store: one entry per reachable board, first
/// occurrence per id, in walk order.
pub open spec fn spec_export(s: StoreV) -> Seq<ExportEntryV> {
    dedup_by_id(reachable_boards(store_items(s))).map_values(
        |b: BoardV| export_entry_of(b, s.docs),
    )
}

/// Deduplication keeps exactly the ids that were there.
pub proof fn lemma_dedup_same_ids(boards: Seq<BoardV>)
    ensures
        forall|x: Seq<char>|
            #[trigger] has_board(dedup_by_id(boards), x) == has_board(boards, x),
    decreases boards.len(),
{
    if boards.len() > 0 {
        let pre = boards.drop_last();
        lemma_dedup_same_ids(pre);
        assert forall|x: Seq<char>| #[trigger] has_board(dedup_by_id(boards), x) == has_board(
            boards,
            x,
        ) by {
            crate::ops::lemma_has_board_iff(dedup_by_id(boards), x);
            crate::ops::lemma_has_board_iff(boards, x);
            crate::ops::lemma_has_board_iff(dedup_by_id(pre), x);
            crate::ops::lemma_has_board_iff(pre, x);
            if has_board(dedup_by_id(boards), x) {
                let i = choose|i: int|
                    0 <= i < dedup_by_id(boards).len() && (#[trigger] dedup_by_id(boards)[i]).id
                        == x;
                if i < dedup_by_id(pre).len() {
                    assert(dedup_by_id(pre)[i].id == x);
                } else {
                    assert(boards[boards.len() - 1].id == x);
                }
            }
            if has_board(boards, x) {
                let i = choose|i: int| 0 <= i < boards.len() && (#[trigger] boards[i]).id == x;
                if i < boards.len() - 1 {
                    assert(pre[i].id == x);
                    let j = choose|j: int|
                        0 <= j < dedup_by_id(pre).len() && (#[trigger] dedup_by_id(pre)[j]).id
                            == x;
                    assert(dedup_by_id(boards)[j].id == x);
                } else {
                    if has_board(dedup_by_id(pre), boards.last().id) {
                        let j = choose|j: int|
                            0 <= j < dedup_by_id(pre).len() && (#[trigger] dedup_by_id(pre)[j]).id
                                == x;
                        assert(dedup_by_id(boards)[j].id == x);
                    } else {
                        assert(dedup_by_id(boards).last().id == x);
                    }
                }
            }
        }
    }
}

/// Deduplicated boards carry pairwise distinct ids.
pub proof fn lemma_dedup_distinct(boards: Seq<BoardV>)
    ensures
        crate::store::distinct_keys(dedup_by_id(boards), |b: BoardV| b.id),
    decreases boards.len(),
{
    if boards.len() > 0 {
        let pre = boards.drop_last();
        lemma_dedup_distinct(pre);
        lemma_dedup_same_ids(pre);
        let d = dedup_by_id(boards);
        assert forall|i: int, j: int| 0 <= i < j < d.len() implies (#[trigger] d[i]).id != (
        #[trigger] d[j]).id by {
            if j == dedup_by_id(pre).len() && d.len() > dedup_by_id(pre).len() {
                crate::ops::lemma_has_board_iff(dedup_by_id(pre), boards.last().id);
                assert(d[i] == dedup_by_id(pre)[i]);
            }
        }
    }
}

/// Whether an id sits in the list of already-seen ids.
fn id_listed(seen: &Vec<String>, id: &String) -> (r: bool)
    ensures
        r == crate::export::id_in(seen.deep_view(), id@),
{
    let n = seen.len();
    for i in 0..n
        invariant
            n == seen.len(),
            forall|j: int| 0 <= j < i ==> #[trigger] seen.deep_view()[j] != id@,
    {
        if seen[i] == *id {
            assert(seen.deep_view()[i as int] == id@);
            return true;
        }
    }
    false
}

/// Whether a text is among the given ones.
pub open spec fn id_in(ids: Seq<Seq<char>>, id: Seq<char>) -> bool {
    exists|i: int| 0 <= i < ids.len() && #[trigger] ids[i] == id
}

impl Store {
    /// One export entry, from a board row and the stored documents.
    fn export_entry(&self, b: &Board) -> (r: BoardsExportEntry)
        ensures
            r@ == export_entry_of(b@, self@.docs),
    {
        let data_str = match self.doc_pos(&b.id) {
            Some(j) => self.docs[j].data.clone(),
            None => crate::default_board_data(),
        };
        let data = crate::effects::reformat_json(&data_str);
        let c = b.clone();
        BoardsExportEntry {
            id: c.id,
            name: c.name,
            created_at: c.created_at,
            updated_at: c.updated_at,
            collaboration_link: c.collaboration_link,
            thumbnail: c.thumbnail,
            data,
        }
    }

    /// The export payload: every reachable board once, in walk order, its
    /// document parsed and reprinted (null where it is not valid JSON).
    pub fn export_entries(&self) -> (r: Vec<BoardsExportEntry>)
        ensures
            crate::models::entries_view(r@) == spec_export(self@),
    {
        let items = self.build_board_list();
        let ghost iv = crate::models::items_view(items@);
        // Flatten the walk into one board list, duplicates included.
        let mut flat: Vec<Board> = Vec::new();
        let n = items.len();
        proof {
            assert(iv.take(0) =~= Seq::<ListItemV>::empty());
        }
        for i in 0..n
            invariant
                n == items.len(),
                iv == crate::models::items_view(items@),
                crate::models::boards_view(flat@) =~= reachable_boards(iv.take(i as int)),
        {
            proof {
                assert(iv.take(i + 1).drop_last() =~= iv.take(i as int));
                assert(iv.take(i + 1).last() == iv[i as int]);
            }
            match &items[i] {
                BoardListItem::Board(b) => {
                    flat.push(b.clone());
                },
                BoardListItem::Folder(f) => {
                    let m = f.items.len();
                    let ghost fbv = crate::models::boards_view(f.items@);
                    proof {
                        assert(crate::models::boards_view(flat@) =~= reachable_boards(
                            iv.take(i as int),
                        ) + fbv.take(0));
                    }
                    for j in 0..m
                        invariant
                            m == f.items.len(),
                            iv == crate::models::items_view(items@),
                            fbv == crate::models::boards_view(f.items@),
                            0 <= i < items.len(),
                            items[i as int] is Folder,
                            f == items[i as int]->Folder_0,
                            crate::models::boards_view(flat@) =~= reachable_boards(
                                iv.take(i as int),
                            ) + fbv.take(j as int),
                    {
                        flat.push(f.items[j].clone());
                        proof {
                            assert(fbv.take(j + 1) =~= fbv.take(j as int).push(fbv[j as int]));
                        }
                    }
                    proof {
                        assert(fbv.take(m as int) =~= fbv);
                    }
                },
            }
        }
        proof {
            assert(iv.take(n as int) =~= iv);
        }
        let ghost fv = crate::models::boards_view(flat@);
        // Keep the first occurrence of each id and build its entry.
        let mut seen: Vec<String> = Vec::new();
        let mut out: Vec<BoardsExportEntry> = Vec::new();
        let fl = flat.len();
        proof {
            assert(fv.take(0) =~= Seq::<BoardV>::empty());
        }
        for i in 0..fl
            invariant
                fl == flat.len(),
                fv == crate::models::boards_view(flat@),
                seen.deep_view() =~= dedup_by_id(fv.take(i as int)).map_values(
                    |b: BoardV| b.id,
                ),
                crate::models::entries_view(out@) =~= dedup_by_id(fv.take(i as int)).map_values(
                    |b: BoardV| export_entry_of(b, self@.docs),
                ),
        {
            proof {
                assert(fv.take(i + 1).drop_last() =~= fv.take(i as int));
                assert(fv.take(i + 1).last() == fv[i as int]);
            }
            let dup = id_listed(&seen, &flat[i].id);
            proof {
                let d = dedup_by_id(fv.take(i as int));
                crate::ops::lemma_has_board_iff(d, fv[i as int].id);
                if has_board(d, fv[i as int].id) {
                    let k = choose|k: int| 0 <= k < d.len() && (#[trigger] d[k]).id
                        == fv[i as int].id;
                    assert(seen.deep_view()[k] == fv[i as int].id);
                }
                if id_in(seen.deep_view(), fv[i as int].id) {
                    let k = choose|k: int|
                        0 <= k < seen.deep_view().len() && #[trigger] seen.deep_view()[k]
                            == fv[i as int].id;
                    assert(d[k].id == fv[i as int].id);
                }
            }
            if !dup {
                seen.push(flat[i].id.clone());
                let e = self.export_entry(&flat[i]);
                out.push(e);
            }
        }
        proof {
            assert(fv.take(fl as int) =~= fv);
        }
        out
    }
}

/// What one import pass tracks as it walks the entries: the store, the
/// collision keys already taken, the board ids already seen (existing or
/// imported this run), the two counters, and how many fresh ids were
/// consumed.
#[verifier::ext_equal]
pub ghost struct ImportState {
    pub store: StoreV,
    pub used: Seq<Seq<char>>,
    pub seen: Seq<Seq<char>>,
    pub imported: nat,
    pub skipped: nat,
    pub drawn: nat,
}

/// The name an entry is imported under before collision handling: trimmed,
/// with a fixed placeholder for blank names.
pub open spec fn import_base_name(name: Seq<char>) -> Seq<char> {
    if unicode_trim(name).len() == 0 {
        "Imported board"@
    } else {
        unicode_trim(name)
    }
}

/// The name an entry lands under: the base name, or — when its original id
/// was already seen — the first free copy-candidate.
pub open spec fn import_final_name(e: ExportEntryV, st: ImportState) -> Seq<char> {
    let base = import_base_name(e.name);
    if unicode_trim(e.id).len() > 0 && id_in(st.seen, e.id) {
        chosen_copy_name(base, st.used)
    } else {
        base
    }
}

/// One entry's effect on the import state. An unselected entry changes
/// nothing. A selected one is created under the next fresh id — a clash of
/// that id only counts as skipped — its document is saved when the entry
/// carries one, and the name key and original id are recorded.
pub open spec fn import_step(
    st: ImportState,
    e: ExportEntryV,
    sel: bool,
    idv: Seq<Seq<char>>,
    now: int,
) -> ImportState {
    if !sel {
        st
    } else {
        let name = import_final_name(e, st);
        let id = if st.drawn < idv.len() {
            idv[st.drawn as int]
        } else {
            Seq::empty()
        };
        if has_board(st.store.boards, id) {
            ImportState { skipped: st.skipped + 1, drawn: st.drawn + 1, ..st }
        } else {
            let s1 = spec_create(st.store, id, name, now);
            let s2 = if e.data is Some {
                StoreV {
                    boards: boards_after_touch(s1.boards, id, now),
                    docs: docs_after_save(s1.docs, id, e.data.unwrap()),
                    ..s1
                }
            } else {
                s1
            };
            ImportState {
                store: s2,
                used: st.used.push(unicode_lower(name)),
                seen: if unicode_trim(e.id).len() > 0 {
                    st.seen.push(e.id)
                } else {
                    st.seen
                },
                imported: st.imported + 1,
                skipped: st.skipped,
                drawn: st.drawn + 1,
            }
        }
    }
}

/// Whether the ordinal position `i` was selected for import.
pub open spec fn sel_contains(selv: Seq<usize>, i: int) -> bool {
    exists|k: int| 0 <= k < selv.len() && #[trigger] selv[k] == i
}

/// How many of the first `n` positions are selected.
pub open spec fn num_selected(selv: Seq<usize>, n: int) -> nat
    decreases n,
{
    if n <= 0 {
        0
    } else {
        num_selected(selv, n - 1) + if sel_contains(selv, n - 1) {
            1nat
        } else {
            0
        }
    }
}

/// Selecting among more positions never selects fewer.
pub proof fn lemma_num_selected_mono(selv: Seq<usize>, a: int, b: int)
    requires
        a <= b,
    ensures
        num_selected(selv, a) <= num_selected(selv, b),
    decreases b,
{
    if a < b && b > 0 {
        lemma_num_selected_mono(selv, a, b - 1);
    }
}

/// The import state after the first `i` entries.
pub open spec fn import_upto(
    init: ImportState,
    ev: Seq<ExportEntryV>,
    i: int,
    selv: Seq<usize>,
    idv: Seq<Seq<char>>,
    now: int,
) -> ImportState
    decreases i,
{
    if i <= 0 {
        init
    } else {
        import_step(
            import_upto(init, ev, i - 1, selv, idv, now),
            ev[i - 1],
            sel_contains(selv, i - 1),
            idv,
            now,
        )
    }
}

/// The name keys the existing boards occupy: each board's name trimmed
/// and lowercased, blank ones left out.
pub open spec fn init_used(boards: Seq<BoardV>) -> Seq<Seq<char>> {
    boards.map_values(|b: BoardV| unicode_lower(unicode_trim(b.name))).filter(
        |k: Seq<char>| k.len() > 0,
    )
}

/// Where an import starts: the store as it stands, its name keys and
/// board ids, and zeroed counters.
pub open spec fn init_import_state(s: StoreV) -> ImportState {
    ImportState {
        store: s,
        used: init_used(s.boards),
        seen: s.boards.map_values(|b: BoardV| b.id),
        imported: 0,
        skipped: 0,
        drawn: 0,
    }
}

/// The whole outcome of an import: the store afterwards — with the active
/// board id exactly as it stood before the import, set or not — and the
/// two counters.
pub open spec fn import_outcome(
    s: StoreV,
    ev: Seq<ExportEntryV>,
    selv: Seq<usize>,
    idv: Seq<Seq<char>>,
    now: int,
) -> (StoreV, nat, nat) {
    let fin = import_upto(init_import_state(s), ev, ev.len() as int, selv, idv, now);
    (StoreV { active: s.active, ..fin.store }, fin.imported, fin.skipped)
}

/// An import pass keeps a step's counters within one of the entry count.
pub proof fn lemma_import_counters(
    init: ImportState,
    ev: Seq<ExportEntryV>,
    i: int,
    selv: Seq<usize>,
    idv: Seq<Seq<char>>,
    now: int,
)
    requires
        0 <= i,
        init.imported == 0,
        init.skipped == 0,
        init.drawn == 0,
    ensures
        import_upto(init, ev, i, selv, idv, now).imported + import_upto(
            init,
            ev,
            i,
            selv,
            idv,
            now,
        ).skipped <= i,
        import_upto(init, ev, i, selv, idv, now).drawn == num_selected(selv, i),
    decreases i,
{
    if i > 0 {
        lemma_import_counters(init, ev, i - 1, selv, idv, now);
    }
}

/// Whether the ordinal position is among the selected ones.
fn index_selected(selected: &Vec<usize>, i: usize) -> (r: bool)
    ensures
        r == sel_contains(selected@, i as int),
{
    let n = selected.len();
    for k in 0..n
        invariant
            n == selected.len(),
            forall|j: int| 0 <= j < k ==> #[trigger] selected@[j] != i,
    {
        if selected[k] == i {
            return true;
        }
    }
    false
}

impl Store {
    /// Imports the selected entries under the given fresh ids, all stamped
    /// with one time. Each selected entry becomes a new board — renamed
    /// collision-safely when its original id is already present — and its
    /// document is saved when it carries one; an entry whose fresh id
    /// clashes is only counted as skipped. The import never changes the
    /// active board: whatever id was active before — or none — stands
    /// again afterwards.
    pub fn import_boards_with(
        &mut self,
        entries: &Vec<BoardsExportEntry>,
        selected: &Vec<usize>,
        ids: &Vec<String>,
        now: i64,
    ) -> (r: BoardsImportResult)
        requires
            old(self).wf(),
            ids@.len() >= num_selected(selected@, entries@.len() as int),
        ensures
            final(self).wf(),
            import_outcome(
                old(self)@,
                crate::models::entries_view(entries@),
                selected@,
                ids.deep_view(),
                now as int,
            ) == ((final(self)@, r.imported as nat, r.skipped as nat)),
    {
        let ghost initst = init_import_state(self@);
        let ghost ev = crate::models::entries_view(entries@);
        let ghost selv = selected@;
        let ghost idv = ids.deep_view();
        let active_before = self.active_board();
        // The name keys the existing boards hold.
        let mut used: Vec<String> = Vec::new();
        let bn = self.boards.len();
        proof {
            assert(self@.boards.take(0).map_values(
                |b: BoardV| unicode_lower(unicode_trim(b.name)),
            ).filter(|k: Seq<char>| k.len() > 0) =~= Seq::<Seq<char>>::empty());
        }
        for bi in 0..bn
            invariant
                bn == self.boards.len(),
                keys_of(used@) =~= self@.boards.take(bi as int).map_values(
                    |b: BoardV| unicode_lower(unicode_trim(b.name)),
                ).filter(|k: Seq<char>| k.len() > 0),
        {
            let t = crate::effects::trim_text(&self.boards[bi].name);
            let k = crate::effects::lower_text(&t);
            proof {
                let mapped = self@.boards.take(bi as int).map_values(
                    |b: BoardV| unicode_lower(unicode_trim(b.name)),
                );
                assert(self@.boards.take(bi + 1) =~= self@.boards.take(bi as int).push(
                    self@.boards[bi as int],
                ));
                assert(self@.boards.take(bi + 1).map_values(
                    |b: BoardV| unicode_lower(unicode_trim(b.name)),
                ) =~= mapped.push(unicode_lower(unicode_trim(self@.boards[bi as int].name))));
            }
            if !k.as_str().is_empty() {
                used.push(k);
            }
        }
        proof {
            assert(self@.boards.take(bn as int) =~= self@.boards);
            assert(keys_of(used@) =~= init_used(self@.boards));
        }
        // The board ids already present.
        let mut seen: Vec<String> = Vec::new();
        for bi in 0..bn
            invariant
                bn == self.boards.len(),
                seen.deep_view() =~= self@.boards.take(bi as int).map_values(
                    |b: BoardV| b.id,
                ),
        {
            seen.push(self.boards[bi].id.clone());
            proof {
                assert(self@.boards.take(bi + 1) =~= self@.boards.take(bi as int).push(
                    self@.boards[bi as int],
                ));
            }
        }
        proof {
            assert(self@.boards.take(bn as int) =~= self@.boards);
        }
        let mut imported: u64 = 0;
        let mut skipped: u64 = 0;
        let mut cursor: usize = 0;
        let n = entries.len();
        for i in 0..n
            invariant
                n == entries.len(),
                ev == crate::models::entries_view(entries@),
                selv == selected@,
                idv == ids.deep_view(),
                idv.len() >= num_selected(selv, n as int),
                initst.imported == 0 && initst.skipped == 0 && initst.drawn == 0,
                self.wf(),
                ({
                    let st = import_upto(initst, ev, i as int, selv, idv, now as int);
                    &&& self@ == st.store
                    &&& keys_of(used@) =~= st.used
                    &&& seen.deep_view() =~= st.seen
                    &&& imported as nat == st.imported
                    &&& skipped as nat == st.skipped
                    &&& cursor as nat == st.drawn
                    &&& st.drawn == num_selected(selv, i as int)
                    &&& st.imported + st.skipped <= i
                }),
        {
            let ghost st = import_upto(initst, ev, i as int, selv, idv, now as int);
            proof {
                assert(import_upto(initst, ev, i + 1, selv, idv, now as int) == import_step(
                    st,
                    ev[i as int],
                    sel_contains(selv, i as int),
                    idv,
                    now as int,
                ));
            }
            if index_selected(selected, i) {
                let tname = crate::effects::trim_text(&entries[i].name);
                let blank = tname.as_str().is_empty();
                let base: String = if blank {
                    String::from_str("Imported board")
                } else {
                    tname
                };
                proof {
                    assert(base@ == import_base_name(ev[i as int].name));
                }
                let tid = crate::effects::trim_text(&entries[i].id);
                let has_id = !tid.as_str().is_empty();
                let dup = has_id && id_listed(&seen, &entries[i].id);
                let final_name: String = if dup {
                    let cand = crate::names::next_copy_name(&base, &used);
                    proof {
                        assert(cand@ == chosen_copy_name(base@, st.used));
                    }
                    cand
                } else {
                    base
                };
                proof {
                    assert(final_name@ == import_final_name(ev[i as int], st));
                }
                let fkey = crate::effects::lower_text(&final_name);
                proof {
                    assert(num_selected(selv, i + 1) == num_selected(selv, i as int) + 1);
                    lemma_num_selected_mono(selv, i + 1, n as int);
                    assert(cursor as nat + 1 <= idv.len());
                    assert(idv.len() == ids@.len());
                    assert(ids@.len() == ids.len());
                }
                let newid = ids[cursor].clone();
                cursor += 1;
                match self.create_board_at(final_name, newid, now) {
                    Err(_) => {
                        skipped += 1;
                    },
                    Ok(board) => {
                        match &entries[i].data {
                            Some(d) => {
                                proof {
                                    crate::ops::lemma_has_board_iff(self@.boards, board@.id);
                                    assert(self@.boards.last().id == board@.id);
                                }
                                let saved = self.save_board_data(&board.id, d.clone(), now);
                                proof {
                                    assert(saved is Ok);
                                }
                            },
                            None => {},
                        }
                        used.push(fkey);
                        if has_id {
                            seen.push(entries[i].id.clone());
                        }
                        imported += 1;
                        proof {
                            let st2 = import_upto(initst, ev, i + 1, selv, idv, now as int);
                            assert(keys_of(used@) =~= st2.used);
                            assert(seen.deep_view() =~= st2.seen);
                            assert(self@ =~= st2.store);
                        }
                    },
                }
            }
        }
        self.active = active_before;
        proof {
            let fin = import_upto(initst, ev, n as int, selv, idv, now as int);
            assert(self@ =~= (StoreV { active: initst.store.active, ..fin.store }));
        }
        BoardsImportResult { imported, skipped }
    }

    /// Imports the selected entries, drawing a fresh id for each and
    /// stamping them with the current time; everything else is as in the
    /// id-taking form, whatever ids came back.
    pub fn import_boards(&mut self, entries: &Vec<BoardsExportEntry>, selected: &Vec<usize>) -> (r:
        BoardsImportResult)
        requires
            old(self).wf(),
        ensures
            final(self).wf(),
            exists|idv: Seq<Seq<char>>, now: int|
                idv.len() == num_selected(selected@, entries@.len() as int) && (
                #[trigger] import_outcome(
                    old(self)@,
                    crate::models::entries_view(entries@),
                    selected@,
                    idv,
                    now,
                )) == (final(self)@, r.imported as nat, r.skipped as nat),
    {
        let n = entries.len();
        let mut count: usize = 0;
        for i in 0..n
            invariant
                n == entries.len(),
                count as nat == num_selected(selected@, i as int),
        {
            if index_selected(selected, i) {
                proof {
                    lemma_num_selected_le(selected@, i + 1);
                }
                count += 1;
            }
        }
        let mut ids: Vec<String> = Vec::new();
        for k in 0..count
            invariant
                ids@.len() == k,
        {
            ids.push(crate::effects::fresh_board_id());
        }
        let now = crate::effects::now_millis();
        proof {
            assert(ids.deep_view().len() == count as nat);
        }
        let r = self.import_boards_with(entries, selected, &ids, now);
        proof {
            assert(ids.deep_view().len() == num_selected(selected@, entries@.len() as int));
            assert(import_outcome(
                old(self)@,
                crate::models::entries_view(entries@),
                selected@,
                ids.deep_view(),
                now as int,
            ) == (self@, r.imported as nat, r.skipped as nat));
        }
        r
    }
}

/// No more positions can be selected than looked at.
pub proof fn lemma_num_selected_le(selv: Seq<usize>, n: int)
    requires
        0 <= n,
    ensures
        num_selected(selv, n) <= n,
    decreases n,
{
    if n > 0 {
        lemma_num_selected_le(selv, n - 1);
    }
}

} // verus!
