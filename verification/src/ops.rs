use vstd::prelude::*;

use crate::models::{Board, BoardV, StoreError};
use crate::store::{
    find_board, find_doc, has_board, lemma_find_board_index, lemma_find_doc_index, store_wf,
    DocRow, DocRowV, FolderRow, FolderRowV, IndexRow, IndexRowV, MemberRow, MemberRowV, Store,
    StoreV,
};

verus! {

broadcast use vstd::prelude::Seq::group_seq_extra, vstd::seq_lib::group_seq_lib_default;

/// A board row with the given id exists exactly when some position holds it.
pub proof fn lemma_has_board_iff(boards: Seq<BoardV>, id: Seq<char>)
    ensures
        has_board(boards, id) <==> exists|i: int|
            0 <= i < boards.len() && (#[trigger] boards[i]).id == id,
{
    lemma_find_board_index(boards, id);
}

/// Rewriting board rows without changing their ids keeps existence and
/// key-distinctness as they were.
pub proof fn lemma_map_keeps_board_ids(boards: Seq<BoardV>, f: spec_fn(BoardV) -> BoardV)
    requires
        forall|b: BoardV| (#[trigger] f(b)).id == b.id,
    ensures
        forall|x: Seq<char>| #[trigger] has_board(boards.map_values(f), x) == has_board(boards, x),
        crate::store::distinct_keys(boards, |b: BoardV| b.id) ==> crate::store::distinct_keys(
            boards.map_values(f),
            |b: BoardV| b.id,
        ),
{
    let mapped = boards.map_values(f);
    assert forall|x: Seq<char>| #[trigger] has_board(boards.map_values(f), x) == has_board(
        boards,
        x,
    ) by {
        lemma_has_board_iff(boards, x);
        lemma_has_board_iff(mapped, x);
        assert forall|i: int| 0 <= i < boards.len() implies (#[trigger] mapped[i]).id
            == boards[i].id by {}
        if has_board(boards, x) {
            let i = choose|i: int| 0 <= i < boards.len() && (#[trigger] boards[i]).id == x;
            assert(mapped[i].id == x);
        }
        if has_board(mapped, x) {
            let i = choose|i: int| 0 <= i < mapped.len() && (#[trigger] mapped[i]).id == x;
            assert(boards[i].id == x);
        }
    }
}

/// The board rows after renaming one board: its name and update time move,
/// everything else stays.
pub open spec fn boards_after_rename(
    boards: Seq<BoardV>,
    id: Seq<char>,
    name: Seq<char>,
    now: int,
) -> Seq<BoardV> {
    boards.map_values(
        |b: BoardV|
            if b.id == id {
                BoardV { name: name, updated_at: now, ..b }
            } else {
                b
            },
    )
}

/// The board rows after bumping one board's update time.
pub open spec fn boards_after_touch(boards: Seq<BoardV>, id: Seq<char>, now: int) -> Seq<BoardV> {
    boards.map_values(
        |b: BoardV|
            if b.id == id {
                BoardV { updated_at: now, ..b }
            } else {
                b
            },
    )
}

/// The board rows after replacing one board's collaboration link.
pub open spec fn boards_after_link(
    boards: Seq<BoardV>,
    id: Seq<char>,
    link: Option<Seq<char>>,
    now: int,
) -> Seq<BoardV> {
    boards.map_values(
        |b: BoardV|
            if b.id == id {
                BoardV { collaboration_link: link, updated_at: now, ..b }
            } else {
                b
            },
    )
}

/// The document rows after an upsert: the board's row is rewritten in
/// place, or appended when the board had none.
pub open spec fn docs_after_save(docs: Seq<DocRowV>, board_id: Seq<char>, data: Seq<char>) -> Seq<
    DocRowV,
> {
    if find_doc(docs, board_id) is Some {
        docs.map_values(
            |d: DocRowV|
                if d.board_id == board_id {
                    DocRowV { data: data, ..d }
                } else {
                    d
                },
        )
    } else {
        docs.push(DocRowV { board_id: board_id, data: data })
    }
}

/// The store after creating a board: a new row, its default document, a new
/// top-level index position at the end, and the new board made active.
pub open spec fn spec_create(s: StoreV, id: Seq<char>, name: Seq<char>, now: int) -> StoreV {
    StoreV {
        boards: s.boards.push(
            BoardV {
                id: id,
                name: name,
                created_at: now,
                updated_at: now,
                collaboration_link: None,
                thumbnail: None,
            },
        ),
        docs: s.docs.push(DocRowV { board_id: id, data: crate::spec_default_board_data() }),
        index: s.index.push(IndexRowV::Board(id)),
        active: Some(id),
        ..s
    }
}

/// The store after duplicating a board: a clone under a fresh id with new
/// timestamps and no collaboration link, the source's document copied, a
/// new top-level index position, and the active board left alone.
pub open spec fn spec_duplicate(
    s: StoreV,
    src: BoardV,
    new_id: Seq<char>,
    new_name: Seq<char>,
    now: int,
) -> StoreV {
    StoreV {
        boards: s.boards.push(
            BoardV {
                id: new_id,
                name: new_name,
                created_at: now,
                updated_at: now,
                collaboration_link: None,
                thumbnail: src.thumbnail,
            },
        ),
        docs: s.docs.push(
            DocRowV { board_id: new_id, data: crate::store::doc_or_default(s.docs, src.id) },
        ),
        index: s.index.push(IndexRowV::Board(new_id)),
        ..s
    }
}

impl Store {
    /// Renames a board and bumps its update time, returning the row as it
    /// now stands. Fails with `NotFound`, changing nothing, when no such
    /// board exists.
    pub fn rename_board(&mut self, board_id: &String, new_name: String, now: i64) -> (r: Result<
        Board,
        StoreError,
    >)
        requires
            old(self).wf(),
        ensures
            final(self).wf(),
            match r {
                Ok(b) => {
                    &&& has_board(old(self)@.boards, board_id@)
                    &&& b@ == BoardV {
                        name: new_name@,
                        updated_at: now as int,
                        ..find_board(old(self)@.boards, board_id@).unwrap()
                    }
                    &&& final(self)@ == StoreV {
                        boards: boards_after_rename(
                            old(self)@.boards,
                            board_id@,
                            new_name@,
                            now as int,
                        ),
                        ..old(self)@
                    }
                },
                Err(e) => e == StoreError::NotFound && !has_board(old(self)@.boards, board_id@)
                    && final(self)@ == old(self)@,
            },
    {
        let ghost prev = self@;
        let i = match self.board_pos(board_id) {
            Some(i) => i,
            None => {
                return Err(StoreError::NotFound);
            },
        };
        let b = vstd::std_specs::vec::vec_index_mut(&mut self.boards, i);
        b.name = new_name;
        b.updated_at = now;
        let out = self.boards[i].clone();
        proof {
            lemma_rewrite_one_board(
                prev.boards,
                i as int,
                self@.boards,
                |b: BoardV| BoardV { name: new_name@, updated_at: now as int, ..b },
            );
            assert(self@ =~= StoreV {
                boards: boards_after_rename(prev.boards, board_id@, new_name@, now as int),
                ..prev
            });
            lemma_map_keeps_board_ids(
                prev.boards,
                |b: BoardV|
                    if b.id == board_id@ {
                        BoardV { name: new_name@, updated_at: now as int, ..b }
                    } else {
                        b
                    },
            );
        }
        Ok(out)
    }

    /// Bumps a board's update time and upserts its document. Fails with
    /// `NotFound`, changing nothing, when no such board exists.
    pub fn save_board_data(&mut self, board_id: &String, data: String, now: i64) -> (r: Result<
        (),
        StoreError,
    >)
        requires
            old(self).wf(),
        ensures
            final(self).wf(),
            match r {
                Ok(()) => {
                    &&& has_board(old(self)@.boards, board_id@)
                    &&& final(self)@ == StoreV {
                        boards: boards_after_touch(old(self)@.boards, board_id@, now as int),
                        docs: docs_after_save(old(self)@.docs, board_id@, data@),
                        ..old(self)@
                    }
                },
                Err(e) => e == StoreError::NotFound && !has_board(old(self)@.boards, board_id@)
                    && final(self)@ == old(self)@,
            },
    {
        let ghost prev = self@;
        let i = match self.board_pos(board_id) {
            Some(i) => i,
            None => {
                return Err(StoreError::NotFound);
            },
        };
        let b = vstd::std_specs::vec::vec_index_mut(&mut self.boards, i);
        b.updated_at = now;
        proof {
            lemma_rewrite_one_board(
                prev.boards,
                i as int,
                self@.boards,
                |b: BoardV| BoardV { updated_at: now as int, ..b },
            );
            lemma_map_keeps_board_ids(
                prev.boards,
                |b: BoardV|
                    if b.id == board_id@ {
                        BoardV { updated_at: now as int, ..b }
                    } else {
                        b
                    },
            );
        }
        match self.doc_pos(board_id) {
            Some(j) => {
                let d = vstd::std_specs::vec::vec_index_mut(&mut self.docs, j);
                d.data = data;
                proof {
                    lemma_rewrite_one_doc(
                        prev.docs,
                        j as int,
                        self@.docs,
                        |d: DocRowV| DocRowV { data: data@, ..d },
                    );
                    assert(self@ =~= StoreV {
                        boards: boards_after_touch(prev.boards, board_id@, now as int),
                        docs: docs_after_save(prev.docs, board_id@, data@),
                        ..prev
                    });
                }
            },
            None => {
                self.docs.push(DocRow { board_id: board_id.clone(), data });
                proof {
                    assert(self@ =~= StoreV {
                        boards: boards_after_touch(prev.boards, board_id@, now as int),
                        docs: docs_after_save(prev.docs, board_id@, data@),
                        ..prev
                    });
                    lemma_find_doc_index(prev.docs, board_id@);
                }
            },
        }
        proof {
            lemma_has_board_iff(prev.boards, board_id@);
        }
        Ok(())
    }

    /// Sets or clears a board's collaboration link and bumps its update
    /// time. Fails with `NotFound`, changing nothing, when no such board
    /// exists.
    pub fn set_collaboration_link(
        &mut self,
        board_id: &String,
        link: Option<String>,
        now: i64,
    ) -> (r: Result<(), StoreError>)
        requires
            old(self).wf(),
        ensures
            final(self).wf(),
            match r {
                Ok(()) => {
                    &&& has_board(old(self)@.boards, board_id@)
                    &&& final(self)@ == StoreV {
                        boards: boards_after_link(
                            old(self)@.boards,
                            board_id@,
                            link.deep_view(),
                            now as int,
                        ),
                        ..old(self)@
                    }
                },
                Err(e) => e == StoreError::NotFound && !has_board(old(self)@.boards, board_id@)
                    && final(self)@ == old(self)@,
            },
    {
        let ghost prev = self@;
        let i = match self.board_pos(board_id) {
            Some(i) => i,
            None => {
                return Err(StoreError::NotFound);
            },
        };
        let ghost linkv = link.deep_view();
        let b = vstd::std_specs::vec::vec_index_mut(&mut self.boards, i);
        b.collaboration_link = link;
        b.updated_at = now;
        proof {
            lemma_rewrite_one_board(
                prev.boards,
                i as int,
                self@.boards,
                |b: BoardV| BoardV { collaboration_link: linkv, updated_at: now as int, ..b },
            );
            assert(self@ =~= StoreV {
                boards: boards_after_link(prev.boards, board_id@, linkv, now as int),
                ..prev
            });
            lemma_map_keeps_board_ids(
                prev.boards,
                |b: BoardV|
                    if b.id == board_id@ {
                        BoardV { collaboration_link: linkv, updated_at: now as int, ..b }
                    } else {
                        b
                    },
            );
        }
        Ok(())
    }

    /// Creates a board under the given id and time: inserts the row, its
    /// default document, a top-level index position at the end, and makes
    /// it active — or fails with `StorageFailure`, changing nothing, when
    /// the id is already taken.
    pub fn create_board_at(&mut self, name: String, id: String, now: i64) -> (r: Result<
        Board,
        StoreError,
    >)
        requires
            old(self).wf(),
        ensures
            final(self).wf(),
            match r {
                Ok(b) => {
                    &&& !has_board(old(self)@.boards, id@)
                    &&& b@ == BoardV {
                        id: id@,
                        name: name@,
                        created_at: now as int,
                        updated_at: now as int,
                        collaboration_link: None,
                        thumbnail: None,
                    }
                    &&& final(self)@ == spec_create(old(self)@, id@, name@, now as int)
                },
                Err(e) => e == StoreError::StorageFailure && has_board(old(self)@.boards, id@)
                    && final(self)@ == old(self)@,
            },
    {
        let ghost prev = self@;
        if self.has_board(&id) {
            return Err(StoreError::StorageFailure);
        }
        let board = Board {
            id: id.clone(),
            name,
            created_at: now,
            updated_at: now,
            collaboration_link: None,
            thumbnail: None,
        };
        let out = board.clone();
        self.boards.push(board);
        self.docs.push(DocRow { board_id: id.clone(), data: crate::default_board_data() });
        self.index.push(IndexRow::Board(id.clone()));
        self.active = Some(id);
        proof {
            assert(self@ =~= spec_create(prev, self@.active.unwrap(), out@.name, now as int));
            lemma_create_wf(prev, self@.active.unwrap(), out@.name, now as int);
        }
        Ok(out)
    }

    /// Creates a board under a freshly drawn id, stamped with the current
    /// time. On success the new id was not in the store and the board is
    /// now active; a failure reports `StorageFailure` and changes nothing.
    pub fn create_board(&mut self, name: String) -> (r: Result<Board, StoreError>)
        requires
            old(self).wf(),
        ensures
            final(self).wf(),
            match r {
                Ok(b) => {
                    &&& !has_board(old(self)@.boards, b@.id)
                    &&& b@.name == name@
                    &&& b@.created_at == b@.updated_at
                    &&& b@.collaboration_link is None
                    &&& b@.thumbnail is None
                    &&& final(self)@ == spec_create(old(self)@, b@.id, name@, b@.created_at)
                },
                Err(e) => e == StoreError::StorageFailure && final(self)@ == old(self)@,
            },
    {
        let id = crate::effects::fresh_board_id();
        let now = crate::effects::now_millis();
        self.create_board_at(name, id, now)
    }

    /// Clones a board under the given fresh id: copies its document and
    /// thumbnail, resets the collaboration link, appends a top-level index
    /// position, and leaves the active board alone. Fails with `NotFound`
    /// when the source is absent and `StorageFailure` when the new id is
    /// taken, changing nothing either way.
    pub fn duplicate_board_at(
        &mut self,
        board_id: &String,
        new_name: String,
        new_id: String,
        now: i64,
    ) -> (r: Result<Board, StoreError>)
        requires
            old(self).wf(),
        ensures
            final(self).wf(),
            match r {
                Ok(b) => {
                    &&& has_board(old(self)@.boards, board_id@)
                    &&& !has_board(old(self)@.boards, new_id@)
                    &&& b@ == BoardV {
                        id: new_id@,
                        name: new_name@,
                        created_at: now as int,
                        updated_at: now as int,
                        collaboration_link: None,
                        thumbnail: find_board(old(self)@.boards, board_id@).unwrap().thumbnail,
                    }
                    &&& final(self)@ == spec_duplicate(
                        old(self)@,
                        find_board(old(self)@.boards, board_id@).unwrap(),
                        new_id@,
                        new_name@,
                        now as int,
                    )
                },
                Err(e) => final(self)@ == old(self)@ && match e {
                    StoreError::NotFound => !has_board(old(self)@.boards, board_id@),
                    StoreError::StorageFailure => has_board(old(self)@.boards, board_id@)
                        && has_board(old(self)@.boards, new_id@),
                },
            },
    {
        let ghost prev = self@;
        let src = match self.board_pos(board_id) {
            Some(i) => &self.boards[i],
            None => {
                return Err(StoreError::NotFound);
            },
        };
        let thumbnail = match &src.thumbnail {
            Some(t) => Some(t.clone()),
            None => None,
        };
        let data = match self.doc_pos(board_id) {
            Some(j) => self.docs[j].data.clone(),
            None => crate::default_board_data(),
        };
        if self.has_board(&new_id) {
            return Err(StoreError::StorageFailure);
        }
        let board = Board {
            id: new_id.clone(),
            name: new_name,
            created_at: now,
            updated_at: now,
            collaboration_link: None,
            thumbnail,
        };
        let out = board.clone();
        self.boards.push(board);
        self.docs.push(DocRow { board_id: new_id.clone(), data });
        self.index.push(IndexRow::Board(new_id));
        proof {
            assert(self@ =~= spec_duplicate(
                prev,
                find_board(prev.boards, board_id@).unwrap(),
                out@.id,
                out@.name,
                now as int,
            ));
            lemma_duplicate_wf(
                prev,
                find_board(prev.boards, board_id@).unwrap(),
                out@.id,
                out@.name,
                now as int,
            );
        }
        Ok(out)
    }

    /// Clones a board under a freshly drawn id, stamped with the current
    /// time. `NotFound` reports a missing source; `StorageFailure` a clash
    /// of the drawn id; both change nothing.
    pub fn duplicate_board(&mut self, board_id: &String, new_name: String) -> (r: Result<
        Board,
        StoreError,
    >)
        requires
            old(self).wf(),
        ensures
            final(self).wf(),
            match r {
                Ok(b) => {
                    &&& has_board(old(self)@.boards, board_id@)
                    &&& !has_board(old(self)@.boards, b@.id)
                    &&& b@.name == new_name@
                    &&& b@.created_at == b@.updated_at
                    &&& b@.collaboration_link is None
                    &&& b@.thumbnail == find_board(old(self)@.boards, board_id@).unwrap().thumbnail
                    &&& final(self)@ == spec_duplicate(
                        old(self)@,
                        find_board(old(self)@.boards, board_id@).unwrap(),
                        b@.id,
                        new_name@,
                        b@.created_at,
                    )
                },
                Err(e) => final(self)@ == old(self)@ && match e {
                    StoreError::NotFound => !has_board(old(self)@.boards, board_id@),
                    StoreError::StorageFailure => has_board(old(self)@.boards, board_id@),
                },
            },
    {
        let new_id = crate::effects::fresh_board_id();
        let now = crate::effects::now_millis();
        self.duplicate_board_at(board_id, new_name, new_id, now)
    }
}

/// After rewriting position `i` of a board sequence with `f`, the whole
/// sequence equals the conditional map when no other position shares the
/// id — as the store's well-formedness guarantees.
proof fn lemma_rewrite_one_board(
    boards: Seq<BoardV>,
    i: int,
    rewritten: Seq<BoardV>,
    f: spec_fn(BoardV) -> BoardV,
)
    requires
        0 <= i < boards.len(),
        crate::store::distinct_keys(boards, |b: BoardV| b.id),
        rewritten =~= boards.update(i, f(boards[i])),
    ensures
        rewritten =~= boards.map_values(
            |b: BoardV|
                if b.id == boards[i].id {
                    f(b)
                } else {
                    b
                },
        ),
{
    let id = boards[i].id;
    assert forall|j: int| 0 <= j < boards.len() && j != i implies (#[trigger] boards[j]).id
        != id by {}
}

/// The document-row analogue of `lemma_rewrite_one_board`.
proof fn lemma_rewrite_one_doc(
    docs: Seq<DocRowV>,
    i: int,
    rewritten: Seq<DocRowV>,
    f: spec_fn(DocRowV) -> DocRowV,
)
    requires
        0 <= i < docs.len(),
        crate::store::distinct_keys(docs, |d: DocRowV| d.board_id),
        rewritten =~= docs.update(i, f(docs[i])),
    ensures
        rewritten =~= docs.map_values(
            |d: DocRowV|
                if d.board_id == docs[i].board_id {
                    f(d)
                } else {
                    d
                },
        ),
{
    let id = docs[i].board_id;
    assert forall|j: int| 0 <= j < docs.len() && j != i implies (#[trigger] docs[j]).board_id
        != id by {}
}

/// Creating a board under a fresh id preserves well-formedness.
proof fn lemma_create_wf(s: StoreV, id: Seq<char>, name: Seq<char>, now: int)
    requires
        store_wf(s),
        !has_board(s.boards, id),
    ensures
        store_wf(spec_create(s, id, name, now)),
{
    let s2 = spec_create(s, id, name, now);
    lemma_find_board_index(s.boards, id);
    lemma_push_keeps_lookups(s, s2.boards.last());
    assert forall|i: int|
        0 <= i < s2.docs.len() implies has_board(s2.boards, (#[trigger] s2.docs[i]).board_id) by {
        if i < s.docs.len() {
            assert(s2.docs[i] == s.docs[i]);
        } else {
            lemma_has_board_iff(s2.boards, id);
        }
    }
}

/// Duplicating a board under a fresh id preserves well-formedness.
proof fn lemma_duplicate_wf(s: StoreV, src: BoardV, new_id: Seq<char>, new_name: Seq<char>, now: int)
    requires
        store_wf(s),
        !has_board(s.boards, new_id),
    ensures
        store_wf(spec_duplicate(s, src, new_id, new_name, now)),
{
    let s2 = spec_duplicate(s, src, new_id, new_name, now);
    lemma_find_board_index(s.boards, new_id);
    lemma_push_keeps_lookups(s, s2.boards.last());
    assert forall|i: int|
        0 <= i < s2.docs.len() implies has_board(s2.boards, (#[trigger] s2.docs[i]).board_id) by {
        if i < s.docs.len() {
            assert(s2.docs[i] == s.docs[i]);
        } else {
            lemma_has_board_iff(s2.boards, new_id);
        }
    }
}

/// Pushing a board row keeps every existing board findable and, when its id
/// is fresh, keeps ids and document keys distinct.
proof fn lemma_push_keeps_lookups(s: StoreV, nb: BoardV)
    requires
        store_wf(s),
        !has_board(s.boards, nb.id),
    ensures
        forall|x: Seq<char>| #[trigger] has_board(s.boards, x) ==> has_board(s.boards.push(nb), x),
        crate::store::distinct_keys(s.boards.push(nb), |b: BoardV| b.id),
        forall|i: int|
            0 <= i < s.docs.len() ==> (#[trigger] s.docs[i]).board_id != nb.id,
        crate::store::distinct_keys(
            s.docs.push(DocRowV { board_id: nb.id, data: crate::spec_default_board_data() }),
            |d: DocRowV| d.board_id,
        ),
{
    let bs2 = s.boards.push(nb);
    lemma_find_board_index(s.boards, nb.id);
    assert forall|x: Seq<char>| #[trigger] has_board(s.boards, x) implies has_board(
        s.boards.push(nb),
        x,
    ) by {
        lemma_has_board_iff(s.boards, x);
        lemma_has_board_iff(bs2, x);
        let i = choose|i: int| 0 <= i < s.boards.len() && (#[trigger] s.boards[i]).id == x;
        assert(bs2[i].id == x);
    }
    assert forall|i: int, j: int| 0 <= i < j < bs2.len() implies (#[trigger] bs2[i]).id != (
    #[trigger] bs2[j]).id by {
        if j == s.boards.len() {
            assert(bs2[i] == s.boards[i]);
        }
    }
    assert forall|i: int|
        0 <= i < s.docs.len() implies (#[trigger] s.docs[i]).board_id != nb.id by {
        lemma_has_board_iff(s.boards, s.docs[i].board_id);
    }
    let ds2 = s.docs.push(DocRowV { board_id: nb.id, data: crate::spec_default_board_data() });
    assert forall|i: int, j: int| 0 <= i < j < ds2.len() implies (#[trigger] ds2[i]).board_id != (
    #[trigger] ds2[j]).board_id by {
        if j == s.docs.len() {
            assert(ds2[i] == s.docs[i]);
        }
    }
}

/// Some membership row references the folder.
pub open spec fn folder_has_member(members: Seq<MemberRowV>, folder_id: Seq<char>) -> bool {
    exists|k: int| 0 <= k < members.len() && (#[trigger] members[k]).folder_id == folder_id
}

/// The board id of the first membership row of the folder, if any.
pub open spec fn first_member(members: Seq<MemberRowV>, folder_id: Seq<char>) -> Option<Seq<char>>
    decreases members.len(),
{
    if members.len() == 0 {
        None
    } else if members.first().folder_id == folder_id {
        Some(members.first().board_id)
    } else {
        first_member(members.drop_first(), folder_id)
    }
}

/// The first board reachable through the raw index rows: a top-level board
/// position directly, or the first member of the first folder position
/// whose folder has members at all.
pub open spec fn first_board_raw(index: Seq<IndexRowV>, members: Seq<MemberRowV>) -> Option<
    Seq<char>,
>
    decreases index.len(),
{
    if index.len() == 0 {
        None
    } else {
        match index.first() {
            IndexRowV::Board(id) => Some(id),
            IndexRowV::Folder(fid) => match first_member(members, fid) {
                Some(bid) => Some(bid),
                None => first_board_raw(index.drop_first(), members),
            },
        }
    }
}

/// The store after deleting a board: its document and row go, its index
/// position and folder memberships go, folders left without members go
/// along with their index positions, and when the deleted board was the
/// active one, the first still-reachable board (or none) takes its place.
pub open spec fn spec_delete(s: StoreV, id: Seq<char>) -> StoreV {
    let boards2 = s.boards.filter(|b: BoardV| b.id != id);
    let docs2 = s.docs.filter(|d: DocRowV| d.board_id != id);
    let index2 = s.index.filter(|r: IndexRowV| r != IndexRowV::Board(id));
    let members2 = s.members.filter(|m: MemberRowV| m.board_id != id);
    let folders2 = s.folders.filter(|f: FolderRowV| folder_has_member(members2, f.id));
    let index3 = index2.filter(
        |r: IndexRowV|
            match r {
                IndexRowV::Board(_) => true,
                IndexRowV::Folder(fid) => crate::store::has_folder(folders2, fid),
            },
    );
    let active2 = if s.active == Some(id) {
        first_board_raw(index3, members2)
    } else {
        s.active
    };
    StoreV {
        boards: boards2,
        folders: folders2,
        index: index3,
        members: members2,
        docs: docs2,
        active: active2,
        migrated: s.migrated,
    }
}

/// A folder row with the given id exists exactly when some position holds it.
pub proof fn lemma_has_folder_iff(folders: Seq<FolderRowV>, id: Seq<char>)
    ensures
        crate::store::has_folder(folders, id) <==> exists|i: int|
            0 <= i < folders.len() && (#[trigger] folders[i]).id == id,
{
    crate::store::lemma_find_folder_index(folders, id);
}

/// The board rows that survive deleting `id`.
fn boards_without(v: &Vec<Board>, id: &String) -> (r: Vec<Board>)
    ensures
        r@.map_values(|b: Board| b@) =~= v@.map_values(|b: Board| b@).filter(
            |b: BoardV| b.id != id@,
        ),
{
    let ghost w = v@.map_values(|b: Board| b@);
    let ghost p = |b: BoardV| b.id != id@;
    let mut r: Vec<Board> = Vec::new();
    let n = v.len();
    proof {
        assert(w.take(0).filter(p) =~= Seq::<BoardV>::empty());
    }
    for i in 0..n
        invariant
            n == v.len(),
            w == v@.map_values(|b: Board| b@),
            p == (|b: BoardV| b.id != id@),
            r@.map_values(|b: Board| b@) =~= w.take(i as int).filter(p),
    {
        proof {
            assert(w.take(i + 1) =~= w.take(i as int).push(w[i as int]));
        }
        if !(v[i].id == *id) {
            r.push(v[i].clone());
        }
    }
    proof {
        assert(w.take(n as int) =~= w);
    }
    r
}

/// The document rows that survive deleting board `id`.
fn docs_without(v: &Vec<DocRow>, id: &String) -> (r: Vec<DocRow>)
    ensures
        r@.map_values(|d: DocRow| d@) =~= v@.map_values(|d: DocRow| d@).filter(
            |d: DocRowV| d.board_id != id@,
        ),
{
    let ghost w = v@.map_values(|d: DocRow| d@);
    let ghost p = |d: DocRowV| d.board_id != id@;
    let mut r: Vec<DocRow> = Vec::new();
    let n = v.len();
    proof {
        assert(w.take(0).filter(p) =~= Seq::<DocRowV>::empty());
    }
    for i in 0..n
        invariant
            n == v.len(),
            w == v@.map_values(|d: DocRow| d@),
            p == (|d: DocRowV| d.board_id != id@),
            r@.map_values(|d: DocRow| d@) =~= w.take(i as int).filter(p),
    {
        proof {
            assert(w.take(i + 1) =~= w.take(i as int).push(w[i as int]));
        }
        if !(v[i].board_id == *id) {
            r.push(DocRow { board_id: v[i].board_id.clone(), data: v[i].data.clone() });
        }
    }
    proof {
        assert(w.take(n as int) =~= w);
    }
    r
}

/// The membership rows that survive deleting board `id`.
fn members_without_board(v: &Vec<MemberRow>, id: &String) -> (r: Vec<MemberRow>)
    ensures
        r@.map_values(|m: MemberRow| m@) =~= v@.map_values(|m: MemberRow| m@).filter(
            |m: MemberRowV| m.board_id != id@,
        ),
{
    let ghost w = v@.map_values(|m: MemberRow| m@);
    let ghost p = |m: MemberRowV| m.board_id != id@;
    let mut r: Vec<MemberRow> = Vec::new();
    let n = v.len();
    proof {
        assert(w.take(0).filter(p) =~= Seq::<MemberRowV>::empty());
    }
    for i in 0..n
        invariant
            n == v.len(),
            w == v@.map_values(|m: MemberRow| m@),
            p == (|m: MemberRowV| m.board_id != id@),
            r@.map_values(|m: MemberRow| m@) =~= w.take(i as int).filter(p),
    {
        proof {
            assert(w.take(i + 1) =~= w.take(i as int).push(w[i as int]));
        }
        if !(v[i].board_id == *id) {
            r.push(MemberRow {
                folder_id: v[i].folder_id.clone(),
                board_id: v[i].board_id.clone(),
            });
        }
    }
    proof {
        assert(w.take(n as int) =~= w);
    }
    r
}

/// The index rows that survive deleting the top-level position of board `id`.
fn index_without_board(v: &Vec<IndexRow>, id: &String) -> (r: Vec<IndexRow>)
    ensures
        r@.map_values(|x: IndexRow| x@) =~= v@.map_values(|x: IndexRow| x@).filter(
            |x: IndexRowV| x != IndexRowV::Board(id@),
        ),
{
    let ghost w = v@.map_values(|x: IndexRow| x@);
    let ghost p = |x: IndexRowV| x != IndexRowV::Board(id@);
    let mut r: Vec<IndexRow> = Vec::new();
    let n = v.len();
    proof {
        assert(w.take(0).filter(p) =~= Seq::<IndexRowV>::empty());
    }
    for i in 0..n
        invariant
            n == v.len(),
            w == v@.map_values(|x: IndexRow| x@),
            p == (|x: IndexRowV| x != IndexRowV::Board(id@)),
            r@.map_values(|x: IndexRow| x@) =~= w.take(i as int).filter(p),
    {
        proof {
            assert(w.take(i + 1) =~= w.take(i as int).push(w[i as int]));
        }
        let keep = match &v[i] {
            IndexRow::Board(x) => !(*x == *id),
            IndexRow::Folder(_) => true,
        };
        if keep {
            let c = match &v[i] {
                IndexRow::Board(x) => IndexRow::Board(x.clone()),
                IndexRow::Folder(x) => IndexRow::Folder(x.clone()),
            };
            r.push(c);
        }
    }
    proof {
        assert(w.take(n as int) =~= w);
    }
    r
}

/// Whether some membership row references the folder.
fn folder_referenced(members: &Vec<MemberRow>, folder_id: &String) -> (r: bool)
    ensures
        r == folder_has_member(members@.map_values(|m: MemberRow| m@), folder_id@),
{
    let ghost w = members@.map_values(|m: MemberRow| m@);
    let n = members.len();
    for i in 0..n
        invariant
            n == members.len(),
            w == members@.map_values(|m: MemberRow| m@),
            forall|j: int| 0 <= j < i ==> (#[trigger] w[j]).folder_id != folder_id@,
    {
        if members[i].folder_id == *folder_id {
            assert(w[i as int].folder_id == folder_id@);
            return true;
        }
    }
    false
}

/// The folder rows that still have at least one membership row.
fn folders_with_members(v: &Vec<FolderRow>, members: &Vec<MemberRow>) -> (r: Vec<FolderRow>)
    ensures
        r@.map_values(|f: FolderRow| f@) =~= v@.map_values(|f: FolderRow| f@).filter(
            |f: FolderRowV| folder_has_member(members@.map_values(|m: MemberRow| m@), f.id),
        ),
{
    let ghost w = v@.map_values(|f: FolderRow| f@);
    let ghost p = |f: FolderRowV| folder_has_member(members@.map_values(|m: MemberRow| m@), f.id);
    let mut r: Vec<FolderRow> = Vec::new();
    let n = v.len();
    proof {
        assert(w.take(0).filter(p) =~= Seq::<FolderRowV>::empty());
    }
    for i in 0..n
        invariant
            n == v.len(),
            w == v@.map_values(|f: FolderRow| f@),
            p == (|f: FolderRowV| folder_has_member(
                members@.map_values(|m: MemberRow| m@),
                f.id,
            )),
            r@.map_values(|f: FolderRow| f@) =~= w.take(i as int).filter(p),
    {
        proof {
            assert(w.take(i + 1) =~= w.take(i as int).push(w[i as int]));
        }
        if folder_referenced(members, &v[i].id) {
            r.push(FolderRow { id: v[i].id.clone(), name: v[i].name.clone() });
        }
    }
    proof {
        assert(w.take(n as int) =~= w);
    }
    r
}

/// Whether a folder row with this id exists, searching a bare row list.
fn folder_listed(folders: &Vec<FolderRow>, id: &String) -> (r: bool)
    ensures
        r == crate::store::has_folder(folders@.map_values(|f: FolderRow| f@), id@),
{
    let ghost w = folders@.map_values(|f: FolderRow| f@);
    let n = folders.len();
    proof {
        crate::store::lemma_find_folder_index(w, id@);
    }
    for i in 0..n
        invariant
            n == folders.len(),
            w == folders@.map_values(|f: FolderRow| f@),
            forall|j: int| 0 <= j < i ==> (#[trigger] w[j]).id != id@,
    {
        if folders[i].id == *id {
            proof {
                lemma_has_folder_iff(w, id@);
                assert(w[i as int].id == id@);
            }
            return true;
        }
    }
    proof {
        lemma_has_folder_iff(w, id@);
    }
    false
}

/// The index rows that survive pruning folders which no longer exist.
fn index_live_folders(v: &Vec<IndexRow>, folders: &Vec<FolderRow>) -> (r: Vec<IndexRow>)
    ensures
        r@.map_values(|x: IndexRow| x@) =~= v@.map_values(|x: IndexRow| x@).filter(
            |x: IndexRowV|
                match x {
                    IndexRowV::Board(_) => true,
                    IndexRowV::Folder(fid) => crate::store::has_folder(
                        folders@.map_values(|f: FolderRow| f@),
                        fid,
                    ),
                },
        ),
{
    let ghost w = v@.map_values(|x: IndexRow| x@);
    let ghost p = |x: IndexRowV|
        match x {
            IndexRowV::Board(_) => true,
            IndexRowV::Folder(fid) => crate::store::has_folder(
                folders@.map_values(|f: FolderRow| f@),
                fid,
            ),
        };
    let mut r: Vec<IndexRow> = Vec::new();
    let n = v.len();
    proof {
        assert(w.take(0).filter(p) =~= Seq::<IndexRowV>::empty());
    }
    for i in 0..n
        invariant
            n == v.len(),
            w == v@.map_values(|x: IndexRow| x@),
            p == (|x: IndexRowV|
                match x {
                    IndexRowV::Board(_) => true,
                    IndexRowV::Folder(fid) => crate::store::has_folder(
                        folders@.map_values(|f: FolderRow| f@),
                        fid,
                    ),
                }),
            r@.map_values(|x: IndexRow| x@) =~= w.take(i as int).filter(p),
    {
        proof {
            assert(w.take(i + 1) =~= w.take(i as int).push(w[i as int]));
        }
        let keep = match &v[i] {
            IndexRow::Board(_) => true,
            IndexRow::Folder(fid) => folder_listed(folders, fid),
        };
        if keep {
            let c = match &v[i] {
                IndexRow::Board(x) => IndexRow::Board(x.clone()),
                IndexRow::Folder(x) => IndexRow::Folder(x.clone()),
            };
            r.push(c);
        }
    }
    proof {
        assert(w.take(n as int) =~= w);
    }
    r
}

/// The board id of the first membership row of the folder, if any.
fn first_member_of(members: &Vec<MemberRow>, folder_id: &String) -> (r: Option<String>)
    ensures
        r.deep_view() == first_member(members@.map_values(|m: MemberRow| m@), folder_id@),
{
    let ghost w = members@.map_values(|m: MemberRow| m@);
    let n = members.len();
    proof {
        assert(w.skip(0) =~= w);
    }
    for i in 0..n
        invariant
            n == members.len(),
            w == members@.map_values(|m: MemberRow| m@),
            first_member(w, folder_id@) == first_member(w.skip(i as int), folder_id@),
    {
        if members[i].folder_id == *folder_id {
            assert(w.skip(i as int).first() == w[i as int]);
            return Some(members[i].board_id.clone());
        }
        proof {
            assert(w.skip(i as int).drop_first() =~= w.skip(i + 1));
        }
    }
    proof {
        assert(w.skip(n as int) =~= Seq::<MemberRowV>::empty());
    }
    None
}

/// The first board reachable through raw index rows, in index order.
fn first_board_id_raw(index: &Vec<IndexRow>, members: &Vec<MemberRow>) -> (r: Option<String>)
    ensures
        r.deep_view() == first_board_raw(
            index@.map_values(|x: IndexRow| x@),
            members@.map_values(|m: MemberRow| m@),
        ),
{
    let ghost w = index@.map_values(|x: IndexRow| x@);
    let ghost mw = members@.map_values(|m: MemberRow| m@);
    let n = index.len();
    proof {
        assert(w.skip(0) =~= w);
    }
    for i in 0..n
        invariant
            n == index.len(),
            w == index@.map_values(|x: IndexRow| x@),
            mw == members@.map_values(|m: MemberRow| m@),
            first_board_raw(w, mw) == first_board_raw(w.skip(i as int), mw),
    {
        proof {
            assert(w.skip(i as int).first() == w[i as int]);
        }
        match &index[i] {
            IndexRow::Board(id) => {
                return Some(id.clone());
            },
            IndexRow::Folder(fid) => {
                if let Some(bid) = first_member_of(members, fid) {
                    return Some(bid);
                }
            },
        }
        proof {
            assert(w.skip(i as int).drop_first() =~= w.skip(i + 1));
        }
    }
    proof {
        assert(w.skip(n as int) =~= Seq::<IndexRowV>::empty());
    }
    None
}

/// Deleting a board preserves well-formedness.
proof fn lemma_delete_wf(s: StoreV, id: Seq<char>)
    requires
        store_wf(s),
    ensures
        store_wf(spec_delete(s, id)),
{
    broadcast use vstd::seq_lib::group_filter_ensures;

    let s2 = spec_delete(s, id);
    let boards2 = s.boards.filter(|b: BoardV| b.id != id);
    let docs2 = s.docs.filter(|d: DocRowV| d.board_id != id);
    let members2 = s.members.filter(|m: MemberRowV| m.board_id != id);
    let folders2 = s.folders.filter(|f: FolderRowV| folder_has_member(members2, f.id));
    crate::store::lemma_filter_distinct_keys(s.boards, |b: BoardV| b.id, |b: BoardV| b.id != id);
    crate::store::lemma_filter_distinct_keys(
        s.docs,
        |d: DocRowV| d.board_id,
        |d: DocRowV| d.board_id != id,
    );
    crate::store::lemma_filter_distinct_keys(
        s.members,
        |m: MemberRowV| (m.folder_id, m.board_id),
        |m: MemberRowV| m.board_id != id,
    );
    crate::store::lemma_filter_distinct_keys(
        s.folders,
        |f: FolderRowV| f.id,
        |f: FolderRowV| folder_has_member(members2, f.id),
    );
    assert forall|i: int|
        0 <= i < docs2.len() implies has_board(boards2, (#[trigger] docs2[i]).board_id) by {
        let d = docs2[i];
        assert(docs2.contains(d));
        assert(s.docs.contains(d));
        let j = choose|j: int| 0 <= j < s.docs.len() && s.docs[j] == d;
        assert(has_board(s.boards, d.board_id));
        lemma_has_board_iff(s.boards, d.board_id);
        let k = choose|k: int| 0 <= k < s.boards.len() && (#[trigger] s.boards[k]).id == d.board_id;
        assert(s.boards.contains(s.boards[k]));
        assert(boards2.contains(s.boards[k]));
        lemma_has_board_iff(boards2, d.board_id);
        let m = choose|m: int| 0 <= m < boards2.len() && boards2[m] == s.boards[k];
        assert(boards2[m].id == d.board_id);
    }
    assert forall|i: int|
        0 <= i < members2.len() implies has_board(boards2, (#[trigger] members2[i]).board_id)
            && crate::store::has_folder(folders2, members2[i].folder_id) by {
        let m = members2[i];
        assert(members2.contains(m));
        assert(s.members.contains(m));
        let j = choose|j: int| 0 <= j < s.members.len() && s.members[j] == m;
        assert(has_board(s.boards, m.board_id));
        lemma_has_board_iff(s.boards, m.board_id);
        let k = choose|k: int| 0 <= k < s.boards.len() && (#[trigger] s.boards[k]).id == m.board_id;
        assert(s.boards.contains(s.boards[k]));
        assert(boards2.contains(s.boards[k]));
        lemma_has_board_iff(boards2, m.board_id);
        let b2 = choose|b2: int| 0 <= b2 < boards2.len() && boards2[b2] == s.boards[k];
        assert(boards2[b2].id == m.board_id);
        // The folder that holds this surviving membership row survives too.
        assert(crate::store::has_folder(s.folders, m.folder_id));
        lemma_has_folder_iff(s.folders, m.folder_id);
        let fj = choose|fj: int|
            0 <= fj < s.folders.len() && (#[trigger] s.folders[fj]).id == m.folder_id;
        assert(folder_has_member(members2, s.folders[fj].id));
        assert(s.folders.contains(s.folders[fj]));
        assert(folders2.contains(s.folders[fj]));
        lemma_has_folder_iff(folders2, m.folder_id);
        let f2 = choose|f2: int| 0 <= f2 < folders2.len() && folders2[f2] == s.folders[fj];
        assert(folders2[f2].id == m.folder_id);
    }
    assert(crate::store::distinct_keys(s2.boards, |b: BoardV| b.id));
    assert(crate::store::distinct_keys(s2.docs, |d: DocRowV| d.board_id));
    assert(crate::store::distinct_keys(
        s2.members,
        |m: MemberRowV| (m.folder_id, m.board_id),
    ));
    assert(crate::store::distinct_keys(s2.folders, |f: FolderRowV| f.id));
}

impl Store {
    /// Removes a board, its document, its index position and its folder
    /// memberships; prunes folders left without members along with their
    /// index positions; and, when the deleted board was active, makes the
    /// first still-reachable board active (or none). Fails with `NotFound`,
    /// changing nothing, when no such board exists.
    pub fn delete_board(&mut self, board_id: &String) -> (r: Result<(), StoreError>)
        requires
            old(self).wf(),
        ensures
            final(self).wf(),
            match r {
                Ok(()) => has_board(old(self)@.boards, board_id@) && final(self)@ == spec_delete(
                    old(self)@,
                    board_id@,
                ),
                Err(e) => e == StoreError::NotFound && !has_board(old(self)@.boards, board_id@)
                    && final(self)@ == old(self)@,
            },
    {
        let ghost prev = self@;
        if !self.has_board(board_id) {
            return Err(StoreError::NotFound);
        }
        let was_active = match &self.active {
            Some(a) => *a == *board_id,
            None => false,
        };
        let nd = docs_without(&self.docs, board_id);
        self.docs = nd;
        let nb = boards_without(&self.boards, board_id);
        self.boards = nb;
        let ni = index_without_board(&self.index, board_id);
        self.index = ni;
        let nm = members_without_board(&self.members, board_id);
        self.members = nm;
        let nf = folders_with_members(&self.folders, &self.members);
        self.folders = nf;
        let ni2 = index_live_folders(&self.index, &self.folders);
        self.index = ni2;
        if was_active {
            self.active = first_board_id_raw(&self.index, &self.members);
        }
        proof {
            assert(self@ =~= spec_delete(prev, board_id@));
            lemma_delete_wf(prev, board_id@);
        }
        Ok(())
    }
}

} // verus!
