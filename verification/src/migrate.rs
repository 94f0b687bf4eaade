use vstd::prelude::*;

use crate::listing::{
    first_board_in_items, first_reachable_board, folder_insertable, item_has_board,
    items_insertable, items_reach_board, member_rows_of, normalize_active, rebuild_folders,
    rebuild_index, rebuild_members,
};
use crate::models::{Board, BoardListItem, BoardsIndex, BoardV, ListItemV, StoreError};
use crate::store::{
    doc_or_default, find_doc, has_board, store_wf, DocRow, DocRowV, FolderRowV, IndexRow,
    IndexRowV, MemberRowV, Store, StoreV,
};

verus! {

broadcast use vstd::prelude::Seq::group_seq_extra, vstd::seq_lib::group_seq_lib_default;

/// A legacy board list can be replayed into the store: no board twice in
/// one folder, and no folder id on two folders that both have members.
/// Unlike a live re-index, the boards themselves need not exist yet — the
/// replay inserts them.
pub open spec fn legacy_insertable(iv: Seq<ListItemV>) -> bool {
    &&& forall|i: int|
        0 <= i < iv.len() ==> match #[trigger] iv[i] {
            ListItemV::Board(_) => true,
            ListItemV::Folder { boards: fb, .. } => crate::store::distinct_keys(
                fb,
                |b: BoardV| b.id,
            ),
        }
    &&& forall|i: int, j: int|
        0 <= i < j < iv.len() ==> !(match (#[trigger] iv[i], #[trigger] iv[j]) {
            (
                ListItemV::Folder { id: a, boards: fa, .. },
                ListItemV::Folder { id: b, boards: fb, .. },
            ) => a == b && fa.len() > 0 && fb.len() > 0,
            _ => false,
        })
}

/// Board and document rows accumulated by a replay.
#[verifier::ext_equal]
pub ghost struct ReplayRows {
    pub boards: Seq<BoardV>,
    pub docs: Seq<DocRowV>,
}

/// Inserts one legacy board unless a row with its id was already inserted;
/// its document comes from the legacy per-board files, or is the default.
pub open spec fn insert_if_needed(rows: ReplayRows, b: BoardV, dv: Seq<DocRowV>) -> ReplayRows {
    if has_board(rows.boards, b.id) {
        rows
    } else {
        ReplayRows {
            boards: rows.boards.push(b),
            docs: rows.docs.push(DocRowV { board_id: b.id, data: doc_or_default(dv, b.id) }),
        }
    }
}

/// Inserts every board of one folder's member list, in order.
pub open spec fn insert_all(rows: ReplayRows, fb: Seq<BoardV>, dv: Seq<DocRowV>) -> ReplayRows
    decreases fb.len(),
{
    if fb.len() == 0 {
        rows
    } else {
        insert_if_needed(insert_all(rows, fb.drop_last(), dv), fb.last(), dv)
    }
}

/// The board and document rows a whole legacy list inserts, each board
/// once, in first-appearance order.
pub open spec fn replay_rows(iv: Seq<ListItemV>, dv: Seq<DocRowV>) -> ReplayRows
    decreases iv.len(),
{
    if iv.len() == 0 {
        ReplayRows { boards: Seq::empty(), docs: Seq::empty() }
    } else {
        let pre = replay_rows(iv.drop_last(), dv);
        match iv.last() {
            ListItemV::Board(b) => insert_if_needed(pre, b, dv),
            ListItemV::Folder { boards: fb, .. } => insert_all(pre, fb, dv),
        }
    }
}

/// No table of the store holds a row yet (settings aside).
pub open spec fn fresh_tables(s: StoreV) -> bool {
    s.folders.len() == 0 && s.index.len() == 0 && s.members.len() == 0 && s.docs.len() == 0
}

/// Whether a migration attempt goes through. A replay needs a fresh store
/// — rows already present would clash with the inserted ones — and a list
/// it can write without breaking a constraint.
pub open spec fn migrate_accepts(
    s: StoreV,
    file: Option<(Seq<ListItemV>, Option<Seq<char>>)>,
) -> bool {
    s.migrated || file is None || s.boards.len() > 0 || file.unwrap().0.len() == 0 || (
    fresh_tables(s) && legacy_insertable(file.unwrap().0))
}

/// The store after a migration attempt. Once the flag stands, nothing
/// moves; without a legacy file, or with data already present, only the
/// flag is set; otherwise the legacy list is replayed into the empty store
/// and the active id resolved against the list.
pub open spec fn spec_migrate(
    s: StoreV,
    file: Option<(Seq<ListItemV>, Option<Seq<char>>)>,
    dv: Seq<DocRowV>,
) -> StoreV {
    if s.migrated {
        s
    } else if file is None || s.boards.len() > 0 {
        StoreV { migrated: true, ..s }
    } else if file.unwrap().0.len() == 0 {
        // An empty legacy list inserts nothing; only the active id is
        // resolved (against nothing) and the flag set.
        StoreV { active: None, migrated: true, ..s }
    } else {
        let (iv, act) = file.unwrap();
        let rows = replay_rows(iv, dv);
        StoreV {
            boards: rows.boards,
            folders: rebuild_folders(iv),
            index: rebuild_index(iv),
            members: rebuild_members(iv),
            docs: rows.docs,
            active: normalize_active(iv, act),
            migrated: true,
        }
    }
}

/// Replayed board and document rows are keyed once each, documents belong
/// to inserted boards, and every board inserted earlier stays found.
pub open spec fn rows_ok(rows: ReplayRows) -> bool {
    &&& crate::store::distinct_keys(rows.boards, |b: BoardV| b.id)
    &&& crate::store::distinct_keys(rows.docs, |d: DocRowV| d.board_id)
    &&& forall|i: int|
        0 <= i < rows.docs.len() ==> has_board(rows.boards, (#[trigger] rows.docs[i]).board_id)
}

/// One conditional insert keeps the rows well-keyed and never loses a board.
proof fn lemma_insert_if_needed_ok(rows: ReplayRows, b: BoardV, dv: Seq<DocRowV>)
    requires
        rows_ok(rows),
    ensures
        rows_ok(insert_if_needed(rows, b, dv)),
        has_board(insert_if_needed(rows, b, dv).boards, b.id),
        forall|x: Seq<char>|
            #[trigger] has_board(rows.boards, x) ==> has_board(
                insert_if_needed(rows, b, dv).boards,
                x,
            ),
{
    let r2 = insert_if_needed(rows, b, dv);
    crate::store::lemma_find_board_index(rows.boards, b.id);
    if !has_board(rows.boards, b.id) {
        crate::ops::lemma_has_board_iff(r2.boards, b.id);
        assert(r2.boards[rows.boards.len() as int].id == b.id);
        assert forall|x: Seq<char>| #[trigger] has_board(rows.boards, x) implies has_board(
            r2.boards,
            x,
        ) by {
            crate::ops::lemma_has_board_iff(rows.boards, x);
            crate::ops::lemma_has_board_iff(r2.boards, x);
            let i = choose|i: int|
                0 <= i < rows.boards.len() && (#[trigger] rows.boards[i]).id == x;
            assert(r2.boards[i].id == x);
        }
        assert forall|i: int, j: int| 0 <= i < j < r2.boards.len() implies (
        #[trigger] r2.boards[i]).id != (#[trigger] r2.boards[j]).id by {
            if j == rows.boards.len() {
                assert(r2.boards[i] == rows.boards[i]);
            }
        }
        assert forall|i: int, j: int| 0 <= i < j < r2.docs.len() implies (
        #[trigger] r2.docs[i]).board_id != (#[trigger] r2.docs[j]).board_id by {
            if j == rows.docs.len() {
                assert(r2.docs[i] == rows.docs[i]);
                crate::ops::lemma_has_board_iff(rows.boards, rows.docs[i].board_id);
            }
        }
        assert forall|i: int|
            0 <= i < r2.docs.len() implies has_board(
            r2.boards,
            (#[trigger] r2.docs[i]).board_id,
        ) by {
            if i < rows.docs.len() {
                assert(r2.docs[i] == rows.docs[i]);
                assert(has_board(rows.boards, rows.docs[i].board_id));
            } else {
                assert(r2.docs[i].board_id == b.id);
            }
            crate::ops::lemma_has_board_iff(rows.boards, r2.docs[i].board_id);
            crate::ops::lemma_has_board_iff(r2.boards, r2.docs[i].board_id);
            if has_board(rows.boards, r2.docs[i].board_id) {
                let k = choose|k: int|
                    0 <= k < rows.boards.len() && (#[trigger] rows.boards[k]).id
                        == r2.docs[i].board_id;
                assert(r2.boards[k].id == r2.docs[i].board_id);
            }
        }
    }
}

/// Inserting a folder's members keeps the rows well-keyed, makes every
/// member found, and never loses a board.
proof fn lemma_insert_all_ok(rows: ReplayRows, fb: Seq<BoardV>, dv: Seq<DocRowV>)
    requires
        rows_ok(rows),
    ensures
        rows_ok(insert_all(rows, fb, dv)),
        forall|j: int|
            0 <= j < fb.len() ==> has_board(insert_all(rows, fb, dv).boards, (#[trigger] fb[j]).id),
        forall|x: Seq<char>|
            #[trigger] has_board(rows.boards, x) ==> has_board(insert_all(rows, fb, dv).boards, x),
    decreases fb.len(),
{
    if fb.len() > 0 {
        let pre = insert_all(rows, fb.drop_last(), dv);
        lemma_insert_all_ok(rows, fb.drop_last(), dv);
        lemma_insert_if_needed_ok(pre, fb.last(), dv);
        assert forall|j: int|
            0 <= j < fb.len() implies has_board(
            insert_all(rows, fb, dv).boards,
            (#[trigger] fb[j]).id,
        ) by {
            if j < fb.len() - 1 {
                assert(fb.drop_last()[j] == fb[j]);
                assert(has_board(pre.boards, fb[j].id));
            }
        }
    }
}

/// A whole replay keeps the rows well-keyed, and makes every board that a
/// list item mentions — top-level or as a member — found.
proof fn lemma_replay_rows_ok(iv: Seq<ListItemV>, dv: Seq<DocRowV>)
    ensures
        rows_ok(replay_rows(iv, dv)),
        forall|i: int|
            0 <= i < iv.len() ==> match #[trigger] iv[i] {
                ListItemV::Board(b) => has_board(replay_rows(iv, dv).boards, b.id),
                ListItemV::Folder { boards: fb, .. } => forall|j: int|
                    0 <= j < fb.len() ==> has_board(
                        replay_rows(iv, dv).boards,
                        (#[trigger] fb[j]).id,
                    ),
            },
    decreases iv.len(),
{
    let rows = replay_rows(iv, dv);
    if iv.len() > 0 {
        let pv = iv.drop_last();
        let pre = replay_rows(pv, dv);
        lemma_replay_rows_ok(pv, dv);
        match iv.last() {
            ListItemV::Board(b) => {
                lemma_insert_if_needed_ok(pre, b, dv);
            },
            ListItemV::Folder { boards: fb, .. } => {
                lemma_insert_all_ok(pre, fb, dv);
            },
        }
        assert forall|i: int|
            0 <= i < iv.len() implies match #[trigger] iv[i] {
            ListItemV::Board(b) => has_board(rows.boards, b.id),
            ListItemV::Folder { boards: fb, .. } => forall|j: int|
                0 <= j < fb.len() ==> has_board(rows.boards, (#[trigger] fb[j]).id),
        } by {
            if i < iv.len() - 1 {
                assert(pv[i] == iv[i]);
                match iv[i] {
                    ListItemV::Board(b) => {
                        assert(has_board(pre.boards, b.id));
                    },
                    ListItemV::Folder { boards: fb, .. } => {
                        assert forall|j: int|
                            0 <= j < fb.len() implies has_board(
                            rows.boards,
                            (#[trigger] fb[j]).id,
                        ) by {
                            assert(has_board(pre.boards, fb[j].id));
                        }
                    },
                }
            }
        }
    }
}

/// A replayed legacy store is well-formed.
proof fn lemma_migrate_wf(iv: Seq<ListItemV>, act: Option<Seq<char>>, dv: Seq<DocRowV>, s: StoreV)
    requires
        legacy_insertable(iv),
        !s.migrated,
        s.boards.len() == 0,
        iv.len() > 0,
    ensures
        store_wf(spec_migrate(s, Some((iv, act)), dv)),
{
    let s2 = spec_migrate(s, Some((iv, act)), dv);
    let rows = replay_rows(iv, dv);
    lemma_replay_rows_ok(iv, dv);
    crate::listing::lemma_rebuild_folders_rows(iv);
    crate::listing::lemma_rebuild_members_src(iv);
    // The replayed boards make the list insertable in the live sense, so
    // the membership-distinctness argument of a live re-index applies.
    assert(items_insertable(iv, rows.boards)) by {
        assert forall|i: int|
            0 <= i < iv.len() implies match #[trigger] iv[i] {
            ListItemV::Board(_) => true,
            ListItemV::Folder { boards: fb, .. } => folder_insertable(fb, rows.boards),
        } by {
            match iv[i] {
                ListItemV::Folder { boards: fb, .. } => {
                    assert(crate::store::distinct_keys(fb, |b: BoardV| b.id));
                },
                ListItemV::Board(_) => {},
            }
        }
    }
    crate::listing::lemma_rebuild_members_distinct(iv, rows.boards);
    assert forall|k: int|
        0 <= k < s2.members.len() implies has_board(s2.boards, (#[trigger] s2.members[k]).board_id)
            && crate::store::has_folder(s2.folders, s2.members[k].folder_id) by {
        let i = choose|i: int|
            0 <= i < iv.len() && (match #[trigger] iv[i] {
                ListItemV::Folder { id, boards: fb, .. } => {
                    &&& (#[trigger] rebuild_members(iv)[k]).folder_id == id
                    &&& fb.len() > 0
                    &&& exists|j: int|
                        0 <= j < fb.len() && (#[trigger] fb[j]).id == rebuild_members(
                            iv,
                        )[k].board_id
                },
                ListItemV::Board(_) => false,
            });
    }
}

/// The document a legacy board starts with: its companion file's content
/// where one was found, else the default payload.
fn legacy_doc_for(legacy_docs: &Vec<DocRow>, board_id: &String) -> (r: String)
    ensures
        r@ == doc_or_default(legacy_docs@.map_values(|d: DocRow| d@), board_id@),
{
    let ghost dv = legacy_docs@.map_values(|d: DocRow| d@);
    let n = legacy_docs.len();
    proof {
        assert(dv.skip(0) =~= dv);
    }
    for i in 0..n
        invariant
            n == legacy_docs.len(),
            dv == legacy_docs@.map_values(|d: DocRow| d@),
            find_doc(dv, board_id@) == find_doc(dv.skip(i as int), board_id@),
    {
        if legacy_docs[i].board_id == *board_id {
            assert(dv.skip(i as int).first() == dv[i as int]);
            return legacy_docs[i].data.clone();
        }
        proof {
            assert(dv.skip(i as int).drop_first() =~= dv.skip(i + 1));
        }
    }
    proof {
        assert(dv.skip(n as int) =~= Seq::<DocRowV>::empty());
    }
    crate::default_board_data()
}

/// Whether a legacy list can be replayed.
fn legacy_items_writable(items: &Vec<BoardListItem>) -> (r: bool)
    ensures
        r == legacy_insertable(crate::models::items_view(items@)),
{
    let ghost iv = crate::models::items_view(items@);
    let n = items.len();
    for i in 0..n
        invariant
            n == items.len(),
            iv == crate::models::items_view(items@),
            forall|k: int|
                0 <= k < i ==> match #[trigger] iv[k] {
                    ListItemV::Board(_) => true,
                    ListItemV::Folder { boards: fb, .. } => crate::store::distinct_keys(
                        fb,
                        |b: BoardV| b.id,
                    ),
                },
            forall|k: int, l: int|
                0 <= k < l < i ==> !(match (#[trigger] iv[k], #[trigger] iv[l]) {
                    (
                        ListItemV::Folder { id: a, boards: fa, .. },
                        ListItemV::Folder { id: b, boards: fb, .. },
                    ) => a == b && fa.len() > 0 && fb.len() > 0,
                    _ => false,
                }),
    {
        if let BoardListItem::Folder(f) = &items[i] {
            let ghost fbv = crate::models::boards_view(f.items@);
            let m = f.items.len();
            for j in 0..m
                invariant
                    m == f.items.len(),
                    iv == crate::models::items_view(items@),
                    fbv == crate::models::boards_view(f.items@),
                    0 <= i < items.len(),
                    items[i as int] is Folder,
                    f == items[i as int]->Folder_0,
                    forall|a: int, b: int|
                        0 <= a < b < j ==> (#[trigger] fbv[a]).id != (#[trigger] fbv[b]).id,
            {
                let mut a: usize = 0;
                while a < j
                    invariant
                        a <= j < m,
                        m == f.items.len(),
                        iv == crate::models::items_view(items@),
                        fbv == crate::models::boards_view(f.items@),
                        0 <= i < items.len(),
                        items[i as int] is Folder,
                        f == items[i as int]->Folder_0,
                        forall|b: int| 0 <= b < a ==> (#[trigger] fbv[b]).id != fbv[j as int].id,
                    decreases j - a,
                {
                    if f.items[a].id == f.items[j].id {
                        assert(fbv[a as int].id == fbv[j as int].id);
                        assert(match iv[i as int] {
                            ListItemV::Board(_) => true,
                            ListItemV::Folder { boards: fb, .. } => !crate::store::distinct_keys(
                                fb,
                                |b: BoardV| b.id,
                            ),
                        });
                        return false;
                    }
                    a += 1;
                }
            }
            if f.items.len() > 0 {
                let mut k: usize = 0;
                while k < i
                    invariant
                        k <= i < n,
                        n == items.len(),
                        iv == crate::models::items_view(items@),
                        0 <= i < items.len(),
                        items[i as int] is Folder,
                        f == items[i as int]->Folder_0,
                        f.items.len() > 0,
                        forall|l: int|
                            0 <= l < k ==> !(match (#[trigger] iv[l], iv[i as int]) {
                                (
                                    ListItemV::Folder { id: a, boards: fa, .. },
                                    ListItemV::Folder { id: b, boards: fb, .. },
                                ) => a == b && fa.len() > 0 && fb.len() > 0,
                                _ => false,
                            }),
                    decreases i - k,
                {
                    if let BoardListItem::Folder(g) = &items[k] {
                        if g.items.len() > 0 && g.id == f.id {
                            assert(match (iv[k as int], iv[i as int]) {
                                (
                                    ListItemV::Folder { id: a, boards: fa, .. },
                                    ListItemV::Folder { id: b, boards: fb, .. },
                                ) => a == b && fa.len() > 0 && fb.len() > 0,
                                _ => false,
                            });
                            return false;
                        }
                    }
                    k += 1;
                }
            }
            assert forall|l: int|
                0 <= l < i implies !(match (#[trigger] iv[l], iv[i as int]) {
                (
                    ListItemV::Folder { id: a, boards: fa, .. },
                    ListItemV::Folder { id: b, boards: fb, .. },
                ) => a == b && fa.len() > 0 && fb.len() > 0,
                _ => false,
            }) by {}
        } else {
            assert(iv[i as int] is Board);
        }
    }
    true
}

impl Store {
    /// Inserts one legacy board unless its id was inserted before, together
    /// with its document from the companion files (or the default).
    fn insert_board_if_needed(&mut self, b: &Board, legacy_docs: &Vec<DocRow>)
        ensures
            final(self)@ == (StoreV {
                boards: insert_if_needed(
                    ReplayRows { boards: old(self)@.boards, docs: old(self)@.docs },
                    b@,
                    legacy_docs@.map_values(|d: DocRow| d@),
                ).boards,
                docs: insert_if_needed(
                    ReplayRows { boards: old(self)@.boards, docs: old(self)@.docs },
                    b@,
                    legacy_docs@.map_values(|d: DocRow| d@),
                ).docs,
                ..old(self)@
            }),
    {
        let ghost prev = self@;
        if !self.has_board(&b.id) {
            let data = legacy_doc_for(legacy_docs, &b.id);
            self.boards.push(b.clone());
            self.docs.push(DocRow { board_id: b.id.clone(), data });
        }
        proof {
            let rows = insert_if_needed(
                ReplayRows { boards: prev.boards, docs: prev.docs },
                b@,
                legacy_docs@.map_values(|d: DocRow| d@),
            );
            assert(self@ =~= StoreV { boards: rows.boards, docs: rows.docs, ..prev });
        }
    }

    /// The one-time legacy import. Once the flag stands this does nothing;
    /// without a legacy file (`None`), or when the store already holds
    /// boards, it only sets the flag; an empty legacy list inserts nothing
    /// and only resolves the active id (to none) and sets the flag;
    /// otherwise it replays the parsed legacy list — boards, documents
    /// from the companion files, folders, ordering and active id — into
    /// the fresh store and sets the flag. A list that cannot be replayed,
    /// or a store that holds rows the inserted ones would clash with,
    /// fails with `StorageFailure` and leaves the store untouched, the
    /// flag unset.
    pub fn migrate_legacy(&mut self, legacy: Option<&BoardsIndex>, legacy_docs: &Vec<DocRow>) -> (r:
        Result<(), StoreError>)
        requires
            old(self).wf(),
        ensures
            final(self).wf(),
            match r {
                Ok(()) => {
                    &&& migrate_accepts(old(self)@, legacy_file_view(legacy))
                    &&& final(self)@ == spec_migrate(
                        old(self)@,
                        legacy_file_view(legacy),
                        legacy_docs@.map_values(|d: DocRow| d@),
                    )
                },
                Err(e) => {
                    &&& e == StoreError::StorageFailure
                    &&& !migrate_accepts(old(self)@, legacy_file_view(legacy))
                    &&& final(self)@ == old(self)@
                },
            },
    {
        let ghost prev = self@;
        let ghost dv = legacy_docs@.map_values(|d: DocRow| d@);
        if self.migrated {
            return Ok(());
        }
        let ix = match legacy {
            None => {
                self.migrated = true;
                assert(self@ =~= (StoreV { migrated: true, ..prev }));
                return Ok(());
            },
            Some(ix) => ix,
        };
        if self.boards.len() > 0 {
            self.migrated = true;
            assert(self@ =~= (StoreV { migrated: true, ..prev }));
            return Ok(());
        }
        let ghost iv = crate::models::items_view(ix.items@);
        if ix.items.len() == 0 {
            self.active = None;
            self.migrated = true;
            assert(self@ =~= (StoreV { active: None, migrated: true, ..prev }));
            return Ok(());
        }
        if self.folders.len() > 0 || self.index.len() > 0 || self.members.len() > 0
            || self.docs.len() > 0 {
            return Err(StoreError::StorageFailure);
        }
        if !legacy_items_writable(&ix.items) {
            return Err(StoreError::StorageFailure);
        }
        let n = ix.items.len();
        proof {
            assert(iv.take(0) =~= Seq::<ListItemV>::empty());
            assert(prev.boards =~= Seq::<BoardV>::empty());
            assert(self@.boards =~= replay_rows(iv.take(0), dv).boards);
            assert(self@.docs =~= replay_rows(iv.take(0), dv).docs);
            assert(self@.folders =~= rebuild_folders(iv.take(0)));
            assert(self@.index =~= rebuild_index(iv.take(0)));
            assert(self@.members =~= rebuild_members(iv.take(0)));
        }
        for i in 0..n
            invariant
                n == ix.items.len(),
                iv == crate::models::items_view(ix.items@),
                dv == legacy_docs@.map_values(|d: DocRow| d@),
                self@.boards =~= replay_rows(iv.take(i as int), dv).boards,
                self@.docs =~= replay_rows(iv.take(i as int), dv).docs,
                self@.folders =~= rebuild_folders(iv.take(i as int)),
                self@.index =~= rebuild_index(iv.take(i as int)),
                self@.members =~= rebuild_members(iv.take(i as int)),
                self@.active == prev.active,
                self@.migrated == prev.migrated,
        {
            proof {
                assert(iv.take(i + 1).drop_last() =~= iv.take(i as int));
                assert(iv.take(i + 1).last() == iv[i as int]);
            }
            match &ix.items[i] {
                BoardListItem::Board(b) => {
                    self.insert_board_if_needed(b, legacy_docs);
                    self.index.push(IndexRow::Board(b.id.clone()));
                },
                BoardListItem::Folder(f) => {
                    let ghost fbv = crate::models::boards_view(f.items@);
                    let kept = crate::listing::folders_drop_id(&self.folders, &f.id);
                    self.folders = kept;
                    self.folders.push(
                        crate::store::FolderRow { id: f.id.clone(), name: f.name.clone() },
                    );
                    self.index.push(IndexRow::Folder(f.id.clone()));
                    let m = f.items.len();
                    proof {
                        assert(fbv.take(0) =~= Seq::<BoardV>::empty());
                        assert(member_rows_of(f.id@, fbv.take(0)) =~= Seq::<MemberRowV>::empty());
                        assert(self@.members =~= rebuild_members(iv.take(i as int))
                            + member_rows_of(f.id@, fbv.take(0)));
                    }
                    for j in 0..m
                        invariant
                            m == f.items.len(),
                            iv == crate::models::items_view(ix.items@),
                            dv == legacy_docs@.map_values(|d: DocRow| d@),
                            fbv == crate::models::boards_view(f.items@),
                            0 <= i < ix.items.len(),
                            ix.items[i as int] is Folder,
                            f == ix.items[i as int]->Folder_0,
                            self@.boards =~= insert_all(
                                replay_rows(iv.take(i as int), dv),
                                fbv.take(j as int),
                                dv,
                            ).boards,
                            self@.docs =~= insert_all(
                                replay_rows(iv.take(i as int), dv),
                                fbv.take(j as int),
                                dv,
                            ).docs,
                            self@.members =~= rebuild_members(iv.take(i as int)) + member_rows_of(
                                f.id@,
                                fbv.take(j as int),
                            ),
                            self@.folders == rebuild_folders(iv.take(i as int)).filter(
                                |x: FolderRowV| x.id != f.id@,
                            ).push(FolderRowV { id: f.id@, name: f.name@ }),
                            self@.index == rebuild_index(iv.take(i as int)).push(
                                IndexRowV::Folder(f.id@),
                            ),
                            self@.active == prev.active,
                            self@.migrated == prev.migrated,
                    {
                        proof {
                            assert(fbv.take(j + 1).drop_last() =~= fbv.take(j as int));
                            assert(fbv.take(j + 1).last() == fbv[j as int]);
                        }
                        self.insert_board_if_needed(&f.items[j], legacy_docs);
                        self.members.push(
                            crate::store::MemberRow {
                                folder_id: f.id.clone(),
                                board_id: f.items[j].id.clone(),
                            },
                        );
                        proof {
                            assert(member_rows_of(f.id@, fbv.take(j + 1)) =~= member_rows_of(
                                f.id@,
                                fbv.take(j as int),
                            ).push(MemberRowV { folder_id: f.id@, board_id: fbv[j as int].id }));
                        }
                    }
                    proof {
                        assert(fbv.take(m as int) =~= fbv);
                        assert(rebuild_members(iv.take(i + 1)) =~= rebuild_members(iv.take(i as int))
                            + member_rows_of(f.id@, fbv));
                    }
                },
            }
        }
        proof {
            assert(iv.take(n as int) =~= iv);
        }
        let next = match &ix.active_board_id {
            Some(id) => {
                if items_reach_board(&ix.items, id) {
                    Some(id.clone())
                } else {
                    first_reachable_board(&ix.items)
                }
            },
            None => first_reachable_board(&ix.items),
        };
        self.active = next;
        self.migrated = true;
        proof {
            assert(self@ =~= spec_migrate(prev, legacy_file_view(legacy), dv));
            lemma_migrate_wf(iv, ix.active_board_id.deep_view(), dv, prev);
        }
        Ok(())
    }
}

/// The parsed legacy file as a mathematical value: its board list and its
/// stored active id, or `None` where no legacy file exists.
pub open spec fn legacy_file_view(legacy: Option<&BoardsIndex>) -> Option<
    (Seq<ListItemV>, Option<Seq<char>>),
> {
    match legacy {
        None => None,
        Some(ix) => Some(
            (crate::models::items_view(ix.items@), ix.active_board_id.deep_view()),
        ),
    }
}

} // verus!
