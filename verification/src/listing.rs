use vstd::prelude::*;

use crate::models::{Board, BoardFolder, BoardListItem, BoardsIndex, BoardV, ListItemV, StoreError};
use crate::store::{
    find_board, find_folder, FolderRowV, IndexRow, IndexRowV, MemberRowV, Store, StoreV,
};

verus! {

broadcast use vstd::prelude::Seq::group_seq_extra, vstd::seq_lib::group_seq_lib_default;

/// The board rows of one folder, resolved against the board table, in
/// membership order; unresolvable members are skipped.
pub open spec fn folder_boards(
    members: Seq<MemberRowV>,
    boards: Seq<BoardV>,
    folder_id: Seq<char>,
) -> Seq<BoardV>
    decreases members.len(),
{
    if members.len() == 0 {
        Seq::empty()
    } else {
        let pre = folder_boards(members.drop_last(), boards, folder_id);
        if members.last().folder_id == folder_id {
            match find_board(boards, members.last().board_id) {
                Some(b) => pre.push(b),
                None => pre,
            }
        } else {
            pre
        }
    }
}

/// The displayed board list, read off the raw rows in index order: board
/// positions resolve against the board table, folder positions against the
/// folder table with their members; dangling positions and folders without
/// resolvable members are skipped.
pub open spec fn build_items(
    index: Seq<IndexRowV>,
    boards: Seq<BoardV>,
    folders: Seq<FolderRowV>,
    members: Seq<MemberRowV>,
) -> Seq<ListItemV>
    decreases index.len(),
{
    if index.len() == 0 {
        Seq::empty()
    } else {
        let pre = build_items(index.drop_last(), boards, folders, members);
        match index.last() {
            IndexRowV::Board(id) => match find_board(boards, id) {
                Some(b) => pre.push(ListItemV::Board(b)),
                None => pre,
            },
            IndexRowV::Folder(fid) => match find_folder(folders, fid) {
                Some(f) => {
                    let fb = folder_boards(members, boards, fid);
                    if fb.len() > 0 {
                        pre.push(ListItemV::Folder { id: fid, name: f.name, boards: fb })
                    } else {
                        pre
                    }
                },
                None => pre,
            },
        }
    }
}

/// The displayed board list of a store state.
pub open spec fn store_items(s: StoreV) -> Seq<ListItemV> {
    build_items(s.index, s.boards, s.folders, s.members)
}

/// Whether the board list reaches a board with this id, top-level or inside
/// a folder.
pub open spec fn item_has_board(items: Seq<ListItemV>, id: Seq<char>) -> bool {
    exists|i: int|
        0 <= i < items.len() && match #[trigger] items[i] {
            ListItemV::Board(b) => b.id == id,
            ListItemV::Folder { boards, .. } => exists|j: int|
                0 <= j < boards.len() && (#[trigger] boards[j]).id == id,
        }
}

/// The first reachable board of the list: top-level boards count where they
/// stand, a folder counts through its first member.
pub open spec fn first_board_in_items(items: Seq<ListItemV>) -> Option<Seq<char>>
    decreases items.len(),
{
    if items.len() == 0 {
        None
    } else {
        match items.first() {
            ListItemV::Board(b) => Some(b.id),
            ListItemV::Folder { boards, .. } => if boards.len() > 0 {
                Some(boards.first().id)
            } else {
                first_board_in_items(items.drop_first())
            },
        }
    }
}

/// The active id a read reports: the stored one where the list reaches it,
/// else the first reachable board, else none.
pub open spec fn normalize_active(items: Seq<ListItemV>, active: Option<Seq<char>>) -> Option<
    Seq<char>,
> {
    match active {
        Some(id) => if item_has_board(items, id) {
            Some(id)
        } else {
            first_board_in_items(items)
        },
        None => first_board_in_items(items),
    }
}

/// Whether the board list reaches a board with this id.
pub fn items_reach_board(items: &Vec<BoardListItem>, id: &String) -> (r: bool)
    ensures
        r == item_has_board(crate::models::items_view(items@), id@),
{
    let ghost iv = crate::models::items_view(items@);
    let n = items.len();
    for i in 0..n
        invariant
            n == items.len(),
            iv == crate::models::items_view(items@),
            forall|k: int|
                0 <= k < i ==> !(match #[trigger] iv[k] {
                    ListItemV::Board(b) => b.id == id@,
                    ListItemV::Folder { boards, .. } => exists|j: int|
                        0 <= j < boards.len() && (#[trigger] boards[j]).id == id@,
                }),
    {
        match &items[i] {
            BoardListItem::Board(b) => {
                if b.id == *id {
                    assert(match iv[i as int] {
                        ListItemV::Board(b) => b.id == id@,
                        ListItemV::Folder { boards, .. } => false,
                    });
                    return true;
                }
            },
            BoardListItem::Folder(f) => {
                let m = f.items.len();
                for j in 0..m
                    invariant
                        m == f.items.len(),
                        iv == crate::models::items_view(items@),
                        0 <= i < items.len(),
                        items[i as int] is Folder,
                        f == items[i as int]->Folder_0,
                        forall|k: int|
                            0 <= k < j ==> (#[trigger] crate::models::boards_view(
                                f.items@,
                            )[k]).id != id@,
                {
                    if f.items[j].id == *id {
                        assert(crate::models::boards_view(f.items@)[j as int].id == id@);
                        assert(match iv[i as int] {
                            ListItemV::Board(b) => false,
                            ListItemV::Folder { boards, .. } => exists|jj: int|
                                0 <= jj < boards.len() && (#[trigger] boards[jj]).id == id@,
                        });
                        return true;
                    }
                }
            },
        }
    }
    false
}

/// The id of the first reachable board of the list, if any.
pub fn first_reachable_board(items: &Vec<BoardListItem>) -> (r: Option<String>)
    ensures
        r.deep_view() == first_board_in_items(crate::models::items_view(items@)),
{
    let ghost iv = crate::models::items_view(items@);
    let n = items.len();
    proof {
        assert(iv.skip(0) =~= iv);
    }
    for i in 0..n
        invariant
            n == items.len(),
            iv == crate::models::items_view(items@),
            first_board_in_items(iv) == first_board_in_items(iv.skip(i as int)),
    {
        proof {
            assert(iv.skip(i as int).first() == iv[i as int]);
        }
        match &items[i] {
            BoardListItem::Board(b) => {
                return Some(b.id.clone());
            },
            BoardListItem::Folder(f) => {
                if f.items.len() > 0 {
                    assert(crate::models::boards_view(f.items@).first() == f.items@[0]@);
                    return Some(f.items[0].id.clone());
                }
            },
        }
        proof {
            assert(iv.skip(i as int).drop_first() =~= iv.skip(i + 1));
        }
    }
    proof {
        assert(iv.skip(n as int) =~= Seq::<ListItemV>::empty());
    }
    None
}

impl Store {
    /// The board rows of one folder, in membership order.
    fn collect_folder_boards(&self, folder_id: &String) -> (r: Vec<Board>)
        ensures
            crate::models::boards_view(r@) =~= folder_boards(
                self@.members,
                self@.boards,
                folder_id@,
            ),
    {
        let mut r: Vec<Board> = Vec::new();
        let n = self.members.len();
        proof {
            assert(self@.members.take(0) =~= Seq::<MemberRowV>::empty());
        }
        for i in 0..n
            invariant
                n == self.members.len(),
                crate::models::boards_view(r@) =~= folder_boards(
                    self@.members.take(i as int),
                    self@.boards,
                    folder_id@,
                ),
        {
            proof {
                assert(self@.members.take(i + 1).drop_last() =~= self@.members.take(i as int));
                assert(self@.members.take(i + 1).last() == self@.members[i as int]);
            }
            if self.members[i].folder_id == *folder_id {
                if let Some(k) = self.board_pos(&self.members[i].board_id) {
                    r.push(self.boards[k].clone());
                }
            }
        }
        proof {
            assert(self@.members.take(n as int) =~= self@.members);
        }
        r
    }

    /// The displayed board list: the index resolved row by row, dangling
    /// references and folders without resolvable members skipped.
    pub fn build_board_list(&self) -> (r: Vec<BoardListItem>)
        ensures
            crate::models::items_view(r@) =~= store_items(self@),
    {
        let mut r: Vec<BoardListItem> = Vec::new();
        let n = self.index.len();
        proof {
            assert(self@.index.take(0) =~= Seq::<IndexRowV>::empty());
        }
        for i in 0..n
            invariant
                n == self.index.len(),
                crate::models::items_view(r@) =~= build_items(
                    self@.index.take(i as int),
                    self@.boards,
                    self@.folders,
                    self@.members,
                ),
        {
            proof {
                assert(self@.index.take(i + 1).drop_last() =~= self@.index.take(i as int));
                assert(self@.index.take(i + 1).last() == self@.index[i as int]);
            }
            match &self.index[i] {
                IndexRow::Board(id) => {
                    if let Some(k) = self.board_pos(id) {
                        r.push(BoardListItem::Board(self.boards[k].clone()));
                    }
                },
                IndexRow::Folder(fid) => {
                    if let Some(k) = self.folder_pos(fid) {
                        let fb = self.collect_folder_boards(fid);
                        if fb.len() > 0 {
                            r.push(
                                BoardListItem::Folder(
                                    BoardFolder {
                                        id: fid.clone(),
                                        name: self.folders[k].name.clone(),
                                        items: fb,
                                    },
                                ),
                            );
                        }
                    }
                },
            }
        }
        proof {
            assert(self@.index.take(n as int) =~= self@.index);
        }
        r
    }

    /// The full ordered view with the active board resolved: the stored
    /// active id where the list reaches it, else the first reachable board,
    /// else none — and the resolution is written back to the store.
    pub fn get_boards(&mut self) -> (r: BoardsIndex)
        requires
            old(self).wf(),
        ensures
            final(self).wf(),
            crate::models::items_view(r.items@) == store_items(old(self)@),
            r.active_board_id.deep_view() == normalize_active(
                store_items(old(self)@),
                old(self)@.active,
            ),
            final(self)@ == (StoreV { active: r.active_board_id.deep_view(), ..old(self)@ }),
    {
        let ghost prev = self@;
        let items = self.build_board_list();
        let stored = self.active_board();
        let next = match stored {
            Some(id) => {
                if items_reach_board(&items, &id) {
                    Some(id)
                } else {
                    first_reachable_board(&items)
                }
            },
            None => first_reachable_board(&items),
        };
        let next_copy = match &next {
            Some(s) => Some(s.clone()),
            None => None,
        };
        self.active = next;
        proof {
            assert(self@ =~= StoreV { active: next_copy.deep_view(), ..prev });
        }
        BoardsIndex { items, active_board_id: next_copy }
    }
}

/// One folder's member list can be written as rows: no board twice in the
/// folder, and every member exists in the board table.
pub open spec fn folder_insertable(fb: Seq<BoardV>, boards: Seq<BoardV>) -> bool {
    &&& crate::store::distinct_keys(fb, |b: BoardV| b.id)
    &&& forall|j: int| 0 <= j < fb.len() ==> crate::store::has_board(boards, (#[trigger] fb[j]).id)
}

/// A board list can be written as rows without breaking a constraint of
/// the store: every folder's members are insertable, and no folder id
/// appears on two folders that both have members.
pub open spec fn items_insertable(iv: Seq<ListItemV>, boards: Seq<BoardV>) -> bool {
    &&& forall|i: int|
        0 <= i < iv.len() ==> match #[trigger] iv[i] {
            ListItemV::Board(_) => true,
            ListItemV::Folder { boards: fb, .. } => folder_insertable(fb, boards),
        }
    &&& forall|i: int, j: int|
        0 <= i < j < iv.len() ==> !(match (#[trigger] iv[i], #[trigger] iv[j]) {
            (
                ListItemV::Folder { id: a, boards: fa, .. },
                ListItemV::Folder { id: b, boards: fb, .. },
            ) => a == b && fa.len() > 0 && fb.len() > 0,
            _ => false,
        })
}

/// The folder table a board list writes: one row per folder item, a later
/// item with the same id replacing the earlier row.
pub open spec fn rebuild_folders(iv: Seq<ListItemV>) -> Seq<FolderRowV>
    decreases iv.len(),
{
    if iv.len() == 0 {
        Seq::empty()
    } else {
        let pre = rebuild_folders(iv.drop_last());
        match iv.last() {
            ListItemV::Board(_) => pre,
            ListItemV::Folder { id, name, .. } => pre.filter(
                |f: FolderRowV| f.id != id,
            ).push(FolderRowV { id: id, name: name }),
        }
    }
}

/// The index rows a board list writes, in item order.
pub open spec fn rebuild_index(iv: Seq<ListItemV>) -> Seq<IndexRowV> {
    iv.map_values(
        |it: ListItemV|
            match it {
                ListItemV::Board(b) => IndexRowV::Board(b.id),
                ListItemV::Folder { id, .. } => IndexRowV::Folder(id),
            },
    )
}

/// The membership rows of one folder item.
pub open spec fn member_rows_of(id: Seq<char>, fb: Seq<BoardV>) -> Seq<MemberRowV> {
    fb.map_values(|b: BoardV| MemberRowV { folder_id: id, board_id: b.id })
}

/// The membership rows a board list writes, folder by folder.
pub open spec fn rebuild_members(iv: Seq<ListItemV>) -> Seq<MemberRowV>
    decreases iv.len(),
{
    if iv.len() == 0 {
        Seq::empty()
    } else {
        let pre = rebuild_members(iv.drop_last());
        match iv.last() {
            ListItemV::Board(_) => pre,
            ListItemV::Folder { id, boards: fb, .. } => pre + member_rows_of(id, fb),
        }
    }
}

/// The store after replacing the whole ordering: folder, index and
/// membership tables are rewritten from the list, and the active id is
/// resolved against the list itself.
pub open spec fn spec_set_index(s: StoreV, iv: Seq<ListItemV>) -> StoreV {
    StoreV {
        folders: rebuild_folders(iv),
        index: rebuild_index(iv),
        members: rebuild_members(iv),
        active: normalize_active(iv, s.active),
        ..s
    }
}

/// The rebuilt folder table has one row per id, and an id appears in it
/// exactly when some folder item carries it.
pub proof fn lemma_rebuild_folders_rows(iv: Seq<ListItemV>)
    ensures
        crate::store::distinct_keys(rebuild_folders(iv), |f: FolderRowV| f.id),
        forall|x: Seq<char>|
            #[trigger] crate::store::has_folder(rebuild_folders(iv), x) <==> exists|i: int|
                0 <= i < iv.len() && (match #[trigger] iv[i] {
                    ListItemV::Folder { id, .. } => id == x,
                    ListItemV::Board(_) => false,
                }),
    decreases iv.len(),
{
    broadcast use vstd::seq_lib::group_filter_ensures;

    let rows = rebuild_folders(iv);
    if iv.len() == 0 {
        assert forall|x: Seq<char>| #[trigger] crate::store::has_folder(rows, x) implies false by {
            crate::ops::lemma_has_folder_iff(rows, x);
        }
    } else {
        let pv = iv.drop_last();
        let pre = rebuild_folders(pv);
        lemma_rebuild_folders_rows(pv);
        match iv.last() {
            ListItemV::Board(_) => {
                assert forall|x: Seq<char>| #[trigger] crate::store::has_folder(rows, x) implies
                    exists|i: int|
                        0 <= i < iv.len() && (match #[trigger] iv[i] {
                            ListItemV::Folder { id, .. } => id == x,
                            ListItemV::Board(_) => false,
                        }) by {
                    let i = choose|i: int|
                        0 <= i < pv.len() && (match #[trigger] pv[i] {
                            ListItemV::Folder { id, .. } => id == x,
                            ListItemV::Board(_) => false,
                        });
                    assert(iv[i] == pv[i]);
                }
                assert forall|x: Seq<char>|
                    (exists|i: int|
                        0 <= i < iv.len() && (match #[trigger] iv[i] {
                            ListItemV::Folder { id, .. } => id == x,
                            ListItemV::Board(_) => false,
                        })) implies #[trigger] crate::store::has_folder(rows, x) by {
                    let i = choose|i: int|
                        0 <= i < iv.len() && (match #[trigger] iv[i] {
                            ListItemV::Folder { id, .. } => id == x,
                            ListItemV::Board(_) => false,
                        });
                    assert(pv[i] == iv[i]);
                }
            },
            ListItemV::Folder { id: lid, name: lname, boards: _ } => {
                let kept = pre.filter(|f: FolderRowV| f.id != lid);
                crate::store::lemma_filter_distinct_keys(
                    pre,
                    |f: FolderRowV| f.id,
                    |f: FolderRowV| f.id != lid,
                );
                assert forall|a: int, b: int| 0 <= a < b < rows.len() implies (
                #[trigger] rows[a]).id != (#[trigger] rows[b]).id by {
                    if b == rows.len() - 1 {
                        assert(rows[a] == kept[a]);
                        assert(rows[b].id == lid);
                    } else {
                        assert(rows[a] == kept[a] && rows[b] == kept[b]);
                    }
                }
                assert forall|x: Seq<char>| #[trigger] crate::store::has_folder(rows, x) implies
                    exists|i: int|
                        0 <= i < iv.len() && (match #[trigger] iv[i] {
                            ListItemV::Folder { id, .. } => id == x,
                            ListItemV::Board(_) => false,
                        }) by {
                    crate::ops::lemma_has_folder_iff(rows, x);
                    let k = choose|k: int| 0 <= k < rows.len() && (#[trigger] rows[k]).id == x;
                    if k == rows.len() - 1 {
                        assert(match iv[iv.len() - 1] {
                            ListItemV::Folder { id, .. } => id == x,
                            ListItemV::Board(_) => false,
                        });
                    } else {
                        assert(rows[k] == kept[k]);
                        assert(kept.contains(kept[k]));
                        assert(pre.contains(kept[k]));
                        crate::ops::lemma_has_folder_iff(pre, x);
                        let j = choose|j: int| 0 <= j < pre.len() && pre[j] == kept[k];
                        assert(crate::store::has_folder(pre, x));
                        let i = choose|i: int|
                            0 <= i < pv.len() && (match #[trigger] pv[i] {
                                ListItemV::Folder { id, .. } => id == x,
                                ListItemV::Board(_) => false,
                            });
                        assert(iv[i] == pv[i]);
                    }
                }
                assert forall|x: Seq<char>|
                    (exists|i: int|
                        0 <= i < iv.len() && (match #[trigger] iv[i] {
                            ListItemV::Folder { id, .. } => id == x,
                            ListItemV::Board(_) => false,
                        })) implies #[trigger] crate::store::has_folder(rows, x) by {
                    crate::ops::lemma_has_folder_iff(rows, x);
                    let i = choose|i: int|
                        0 <= i < iv.len() && (match #[trigger] iv[i] {
                            ListItemV::Folder { id, .. } => id == x,
                            ListItemV::Board(_) => false,
                        });
                    if x == lid {
                        assert(rows[rows.len() - 1].id == x);
                    } else {
                        assert(pv[i] == iv[i]);
                        assert(crate::store::has_folder(pre, x));
                        crate::ops::lemma_has_folder_iff(pre, x);
                        let j = choose|j: int| 0 <= j < pre.len() && (#[trigger] pre[j]).id == x;
                        assert(pre.contains(pre[j]));
                        assert(kept.contains(pre[j]));
                        let k = choose|k: int| 0 <= k < kept.len() && kept[k] == pre[j];
                        assert(rows[k].id == x);
                    }
                }
            },
        }
    }
}

/// Every rebuilt membership row comes from a folder item that has members.
pub proof fn lemma_rebuild_members_src(iv: Seq<ListItemV>)
    ensures
        forall|k: int|
            0 <= k < rebuild_members(iv).len() ==> exists|i: int|
                0 <= i < iv.len() && (match #[trigger] iv[i] {
                    ListItemV::Folder { id, boards: fb, .. } => {
                        &&& (#[trigger] rebuild_members(iv)[k]).folder_id == id
                        &&& fb.len() > 0
                        &&& exists|j: int|
                            0 <= j < fb.len() && (#[trigger] fb[j]).id == rebuild_members(
                                iv,
                            )[k].board_id
                    },
                    ListItemV::Board(_) => false,
                }),
    decreases iv.len(),
{
    let rows = rebuild_members(iv);
    if iv.len() > 0 {
        let pv = iv.drop_last();
        let pre = rebuild_members(pv);
        lemma_rebuild_members_src(pv);
        assert forall|k: int| 0 <= k < rows.len() implies exists|i: int|
            0 <= i < iv.len() && (match #[trigger] iv[i] {
                ListItemV::Folder { id, boards: fb, .. } => {
                    &&& (#[trigger] rows[k]).folder_id == id
                    &&& fb.len() > 0
                    &&& exists|j: int| 0 <= j < fb.len() && (#[trigger] fb[j]).id == rows[k].board_id
                },
                ListItemV::Board(_) => false,
            }) by {
            if k < pre.len() {
                assert(rows[k] == pre[k]);
                let i = choose|i: int|
                    0 <= i < pv.len() && (match #[trigger] pv[i] {
                        ListItemV::Folder { id, boards: fb, .. } => {
                            &&& (#[trigger] pre[k]).folder_id == id
                            &&& fb.len() > 0
                            &&& exists|j: int|
                                0 <= j < fb.len() && (#[trigger] fb[j]).id == pre[k].board_id
                        },
                        ListItemV::Board(_) => false,
                    });
                assert(iv[i] == pv[i]);
            } else {
                match iv.last() {
                    ListItemV::Folder { id, boards: fb, .. } => {
                        let j = k - pre.len();
                        assert(rows[k] == member_rows_of(id, fb)[j]);
                        assert(fb[j].id == rows[k].board_id);
                        assert(match iv[iv.len() - 1] {
                            ListItemV::Folder { id: id2, boards: fb2, .. } => {
                                &&& rows[k].folder_id == id2
                                &&& fb2.len() > 0
                                &&& exists|jj: int|
                                    0 <= jj < fb2.len() && (#[trigger] fb2[jj]).id
                                        == rows[k].board_id
                            },
                            ListItemV::Board(_) => false,
                        });
                    },
                    ListItemV::Board(_) => {
                        assert(false);
                    },
                }
            }
        }
    }
}

/// Replacing the ordering from an insertable list preserves
/// well-formedness.
proof fn lemma_set_index_wf(s: StoreV, iv: Seq<ListItemV>)
    requires
        crate::store::store_wf(s),
        items_insertable(iv, s.boards),
    ensures
        crate::store::store_wf(spec_set_index(s, iv)),
    decreases iv.len(),
{
    let s2 = spec_set_index(s, iv);
    lemma_rebuild_folders_rows(iv);
    lemma_rebuild_members_src(iv);
    lemma_rebuild_members_distinct(iv, s.boards);
    assert forall|k: int|
        0 <= k < s2.members.len() implies crate::store::has_board(
        s.boards,
        (#[trigger] s2.members[k]).board_id,
    ) && crate::store::has_folder(s2.folders, s2.members[k].folder_id) by {
        let i = choose|i: int|
            0 <= i < iv.len() && (match #[trigger] iv[i] {
                ListItemV::Folder { id, boards: fb, .. } => {
                    &&& (#[trigger] rebuild_members(iv)[k]).folder_id == id
                    &&& fb.len() > 0
                    &&& exists|j: int|
                        0 <= j < fb.len() && (#[trigger] fb[j]).id == rebuild_members(
                            iv,
                        )[k].board_id
                },
                ListItemV::Board(_) => false,
            });
    }
}

/// The rebuilt membership rows of an insertable list are pairwise
/// distinct as (folder, board) pairs.
pub proof fn lemma_rebuild_members_distinct(iv: Seq<ListItemV>, boards: Seq<BoardV>)
    requires
        items_insertable(iv, boards),
    ensures
        crate::store::distinct_keys(
            rebuild_members(iv),
            |m: MemberRowV| (m.folder_id, m.board_id),
        ),
    decreases iv.len(),
{
    let rows = rebuild_members(iv);
    if iv.len() > 0 {
        let pv = iv.drop_last();
        let pre = rebuild_members(pv);
        assert(items_insertable(pv, boards)) by {
            assert forall|i: int|
                0 <= i < pv.len() implies match #[trigger] pv[i] {
                ListItemV::Board(_) => true,
                ListItemV::Folder { boards: fb, .. } => folder_insertable(fb, boards),
            } by {
                assert(iv[i] == pv[i]);
            }
            assert forall|i: int, j: int|
                0 <= i < j < pv.len() implies !(match (#[trigger] pv[i], #[trigger] pv[j]) {
                (
                    ListItemV::Folder { id: a, boards: fa, .. },
                    ListItemV::Folder { id: b, boards: fb, .. },
                ) => a == b && fa.len() > 0 && fb.len() > 0,
                _ => false,
            }) by {
                assert(iv[i] == pv[i] && iv[j] == pv[j]);
            }
        }
        lemma_rebuild_members_distinct(pv, boards);
        lemma_rebuild_members_src(pv);
        assert forall|k1: int, k2: int| 0 <= k1 < k2 < rows.len() implies ((
        #[trigger] rows[k1]).folder_id, rows[k1].board_id) != ((#[trigger] rows[k2]).folder_id,
        rows[k2].board_id) by {
            match iv.last() {
                ListItemV::Board(_) => {
                    assert(rows[k1] == pre[k1] && rows[k2] == pre[k2]);
                },
                ListItemV::Folder { id: lid, boards: lfb, .. } => {
                    if k2 < pre.len() {
                        assert(rows[k1] == pre[k1] && rows[k2] == pre[k2]);
                    } else if k1 >= pre.len() {
                        // Both rows come from the last folder item, whose
                        // member ids are pairwise distinct.
                        let j1 = k1 - pre.len();
                        let j2 = k2 - pre.len();
                        assert(rows[k1] == member_rows_of(lid, lfb)[j1]);
                        assert(rows[k2] == member_rows_of(lid, lfb)[j2]);
                        assert(match iv[iv.len() - 1] {
                            ListItemV::Board(_) => true,
                            ListItemV::Folder { boards: fb, .. } => folder_insertable(fb, boards),
                        });
                        assert(lfb[j1].id != lfb[j2].id);
                    } else {
                        // One row from an earlier folder item, one from the
                        // last: their folder ids must differ, else two
                        // nonempty folders would share an id.
                        assert(rows[k1] == pre[k1]);
                        let j2 = k2 - pre.len();
                        assert(rows[k2] == member_rows_of(lid, lfb)[j2]);
                        assert(rows[k2].folder_id == lid);
                        let i = choose|i: int|
                            0 <= i < pv.len() && (match #[trigger] pv[i] {
                                ListItemV::Folder { id, boards: fb, .. } => {
                                    &&& (#[trigger] pre[k1]).folder_id == id
                                    &&& fb.len() > 0
                                    &&& exists|j: int|
                                        0 <= j < fb.len() && (#[trigger] fb[j]).id
                                            == pre[k1].board_id
                                },
                                ListItemV::Board(_) => false,
                            });
                        assert(iv[i] == pv[i]);
                        assert(lfb.len() > 0);
                        assert(!(match (iv[i], iv[iv.len() - 1]) {
                            (
                                ListItemV::Folder { id: a, boards: fa, .. },
                                ListItemV::Folder { id: b, boards: fb, .. },
                            ) => a == b && fa.len() > 0 && fb.len() > 0,
                            _ => false,
                        }));
                        assert(rows[k1].folder_id != lid);
                    }
                },
            }
        }
    }
}

/// The folder rows that do not carry the given id.
pub(crate) fn folders_drop_id(v: &Vec<crate::store::FolderRow>, id: &String) -> (r: Vec<
    crate::store::FolderRow,
>)
    ensures
        r@.map_values(|f: crate::store::FolderRow| f@) =~= v@.map_values(
            |f: crate::store::FolderRow| f@,
        ).filter(|f: FolderRowV| f.id != id@),
{
    let ghost w = v@.map_values(|f: crate::store::FolderRow| f@);
    let ghost p = |f: FolderRowV| f.id != id@;
    let mut r: Vec<crate::store::FolderRow> = Vec::new();
    let n = v.len();
    proof {
        assert(w.take(0).filter(p) =~= Seq::<FolderRowV>::empty());
    }
    for i in 0..n
        invariant
            n == v.len(),
            w == v@.map_values(|f: crate::store::FolderRow| f@),
            p == (|f: FolderRowV| f.id != id@),
            r@.map_values(|f: crate::store::FolderRow| f@) =~= w.take(i as int).filter(p),
    {
        proof {
            assert(w.take(i + 1) =~= w.take(i as int).push(w[i as int]));
        }
        if !(v[i].id == *id) {
            r.push(crate::store::FolderRow { id: v[i].id.clone(), name: v[i].name.clone() });
        }
    }
    proof {
        assert(w.take(n as int) =~= w);
    }
    r
}

impl Store {
    /// Whether the board list can be written as rows: every folder's
    /// members are distinct and exist, and no folder id appears on two
    /// folders that both have members.
    fn items_writable(&self, items: &Vec<BoardListItem>) -> (r: bool)
        ensures
            r == items_insertable(crate::models::items_view(items@), self@.boards),
    {
        let ghost iv = crate::models::items_view(items@);
        let n = items.len();
        for i in 0..n
            invariant
                n == items.len(),
                iv == crate::models::items_view(items@),
                forall|k: int|
                    0 <= k < i ==> match #[trigger] iv[k] {
                        ListItemV::Board(_) => true,
                        ListItemV::Folder { boards: fb, .. } => folder_insertable(fb, self@.boards),
                    },
                forall|k: int, l: int|
                    0 <= k < l < i ==> !(match (#[trigger] iv[k], #[trigger] iv[l]) {
                        (
                            ListItemV::Folder { id: a, boards: fa, .. },
                            ListItemV::Folder { id: b, boards: fb, .. },
                        ) => a == b && fa.len() > 0 && fb.len() > 0,
                        _ => false,
                    }),
        {
            if let BoardListItem::Folder(f) = &items[i] {
                let ghost fbv = crate::models::boards_view(f.items@);
                let m = f.items.len();
                for j in 0..m
                    invariant
                        m == f.items.len(),
                        iv == crate::models::items_view(items@),
                        fbv == crate::models::boards_view(f.items@),
                        0 <= i < items.len(),
                        items[i as int] is Folder,
                        f == items[i as int]->Folder_0,
                        forall|a: int, b: int|
                            0 <= a < b < j ==> (#[trigger] fbv[a]).id != (#[trigger] fbv[b]).id,
                        forall|a: int|
                            0 <= a < j ==> crate::store::has_board(
                                self@.boards,
                                (#[trigger] fbv[a]).id,
                            ),
                {
                    if !self.has_board(&f.items[j].id) {
                        assert(!folder_insertable(fbv, self@.boards)) by {
                            assert(fbv[j as int].id == f.items@[j as int]@.id);
                        }
                        assert(match iv[i as int] {
                            ListItemV::Board(_) => true,
                            ListItemV::Folder { boards: fb, .. } => !folder_insertable(
                                fb,
                                self@.boards,
                            ),
                        });
                        return false;
                    }
                    let mut a: usize = 0;
                    while a < j
                        invariant
                            a <= j < m,
                            m == f.items.len(),
                            iv == crate::models::items_view(items@),
                            fbv == crate::models::boards_view(f.items@),
                            0 <= i < items.len(),
                            items[i as int] is Folder,
                            f == items[i as int]->Folder_0,
                            forall|b: int| 0 <= b < a ==> (#[trigger] fbv[b]).id != fbv[j as int].id,
                        decreases j - a,
                    {
                        if f.items[a].id == f.items[j].id {
                            assert(fbv[a as int].id == fbv[j as int].id);
                            assert(!crate::store::distinct_keys(fbv, |b: BoardV| b.id));
                            assert(match iv[i as int] {
                                ListItemV::Board(_) => true,
                                ListItemV::Folder { boards: fb, .. } => !folder_insertable(
                                    fb,
                                    self@.boards,
                                ),
                            });
                            return false;
                        }
                        a += 1;
                    }
                    assert(crate::store::has_board(self@.boards, fbv[j as int].id));
                }
                assert(folder_insertable(fbv, self@.boards));
                if f.items.len() > 0 {
                    let mut k: usize = 0;
                    while k < i
                        invariant
                            k <= i < n,
                            n == items.len(),
                            iv == crate::models::items_view(items@),
                            0 <= i < items.len(),
                            items[i as int] is Folder,
                            f == items[i as int]->Folder_0,
                            f.items.len() > 0,
                            forall|l: int|
                                0 <= l < k ==> !(match (#[trigger] iv[l], iv[i as int]) {
                                    (
                                        ListItemV::Folder { id: a, boards: fa, .. },
                                        ListItemV::Folder { id: b, boards: fb, .. },
                                    ) => a == b && fa.len() > 0 && fb.len() > 0,
                                    _ => false,
                                }),
                        decreases i - k,
                    {
                        if let BoardListItem::Folder(g) = &items[k] {
                            if g.items.len() > 0 && g.id == f.id {
                                assert(match (iv[k as int], iv[i as int]) {
                                    (
                                        ListItemV::Folder { id: a, boards: fa, .. },
                                        ListItemV::Folder { id: b, boards: fb, .. },
                                    ) => a == b && fa.len() > 0 && fb.len() > 0,
                                    _ => false,
                                });
                                return false;
                            }
                        }
                        k += 1;
                    }
                }
                assert(match iv[i as int] {
                    ListItemV::Board(_) => true,
                    ListItemV::Folder { boards: fb, .. } => folder_insertable(fb, self@.boards),
                });
                assert forall|l: int|
                    0 <= l < i implies !(match (#[trigger] iv[l], iv[i as int]) {
                    (
                        ListItemV::Folder { id: a, boards: fa, .. },
                        ListItemV::Folder { id: b, boards: fb, .. },
                    ) => a == b && fa.len() > 0 && fb.len() > 0,
                    _ => false,
                }) by {}
            } else {
                assert(iv[i as int] is Board);
            }
        }
        true
    }

    /// Replaces the whole ordering at once: the folder, index and
    /// membership tables are rewritten from the list, the active id is
    /// resolved against the list, and the list is returned with that
    /// resolution. Fails with `StorageFailure`, changing nothing, when the
    /// list cannot be written as rows.
    pub fn set_boards_index(&mut self, items: Vec<BoardListItem>) -> (r: Result<
        BoardsIndex,
        StoreError,
    >)
        requires
            old(self).wf(),
        ensures
            final(self).wf(),
            match r {
                Ok(ix) => {
                    &&& items_insertable(crate::models::items_view(items@), old(self)@.boards)
                    &&& crate::models::items_view(ix.items@) == crate::models::items_view(items@)
                    &&& ix.active_board_id.deep_view() == normalize_active(
                        crate::models::items_view(items@),
                        old(self)@.active,
                    )
                    &&& final(self)@ == spec_set_index(
                        old(self)@,
                        crate::models::items_view(items@),
                    )
                },
                Err(e) => {
                    &&& e == StoreError::StorageFailure
                    &&& !items_insertable(crate::models::items_view(items@), old(self)@.boards)
                    &&& final(self)@ == old(self)@
                },
            },
    {
        let ghost prev = self@;
        let ghost iv = crate::models::items_view(items@);
        if !self.items_writable(&items) {
            return Err(StoreError::StorageFailure);
        }
        let mut nf: Vec<crate::store::FolderRow> = Vec::new();
        let mut ni: Vec<IndexRow> = Vec::new();
        let mut nm: Vec<crate::store::MemberRow> = Vec::new();
        let n = items.len();
        proof {
            assert(iv.take(0) =~= Seq::<ListItemV>::empty());
        }
        for i in 0..n
            invariant
                n == items.len(),
                iv == crate::models::items_view(items@),
                nf@.map_values(|f: crate::store::FolderRow| f@) =~= rebuild_folders(
                    iv.take(i as int),
                ),
                ni@.map_values(|x: IndexRow| x@) =~= rebuild_index(iv.take(i as int)),
                nm@.map_values(|m: crate::store::MemberRow| m@) =~= rebuild_members(
                    iv.take(i as int),
                ),
        {
            proof {
                assert(iv.take(i + 1).drop_last() =~= iv.take(i as int));
                assert(iv.take(i + 1).last() == iv[i as int]);
            }
            match &items[i] {
                BoardListItem::Board(b) => {
                    ni.push(IndexRow::Board(b.id.clone()));
                },
                BoardListItem::Folder(f) => {
                    let ghost fbv = crate::models::boards_view(f.items@);
                    let kept = folders_drop_id(&nf, &f.id);
                    nf = kept;
                    nf.push(crate::store::FolderRow { id: f.id.clone(), name: f.name.clone() });
                    ni.push(IndexRow::Folder(f.id.clone()));
                    let m = f.items.len();
                    proof {
                        assert(member_rows_of(f.id@, fbv.take(0)) =~= Seq::<MemberRowV>::empty());
                        assert(nm@.map_values(|m: crate::store::MemberRow| m@) =~= rebuild_members(
                            iv.take(i as int),
                        ) + member_rows_of(f.id@, fbv.take(0)));
                    }
                    for j in 0..m
                        invariant
                            m == f.items.len(),
                            iv == crate::models::items_view(items@),
                            fbv == crate::models::boards_view(f.items@),
                            0 <= i < items.len(),
                            items[i as int] is Folder,
                            f == items[i as int]->Folder_0,
                            nm@.map_values(|m: crate::store::MemberRow| m@) =~= rebuild_members(
                                iv.take(i as int),
                            ) + member_rows_of(f.id@, fbv.take(j as int)),
                    {
                        nm.push(
                            crate::store::MemberRow {
                                folder_id: f.id.clone(),
                                board_id: f.items[j].id.clone(),
                            },
                        );
                        proof {
                            assert(fbv.take(j + 1) =~= fbv.take(j as int).push(fbv[j as int]));
                            assert(member_rows_of(f.id@, fbv.take(j + 1)) =~= member_rows_of(
                                f.id@,
                                fbv.take(j as int),
                            ).push(MemberRowV { folder_id: f.id@, board_id: fbv[j as int].id }));
                        }
                    }
                    proof {
                        assert(fbv.take(m as int) =~= fbv);
                        assert(rebuild_members(iv.take(i + 1)) =~= rebuild_members(
                            iv.take(i as int),
                        ) + member_rows_of(f.id@, fbv));
                    }
                },
            }
        }
        proof {
            assert(iv.take(n as int) =~= iv);
        }
        let stored = self.active_board();
        let next = match stored {
            Some(id) => {
                if items_reach_board(&items, &id) {
                    Some(id)
                } else {
                    first_reachable_board(&items)
                }
            },
            None => first_reachable_board(&items),
        };
        let next_copy = match &next {
            Some(s) => Some(s.clone()),
            None => None,
        };
        self.folders = nf;
        self.index = ni;
        self.members = nm;
        self.active = next;
        proof {
            assert(self@ =~= spec_set_index(prev, iv));
            lemma_set_index_wf(prev, iv);
        }
        Ok(BoardsIndex { items, active_board_id: next_copy })
    }
}

} // verus!
