use vstd::prelude::*;

use crate::models::{Board, BoardV, StoreError};

verus! {

broadcast use vstd::prelude::Seq::group_seq_extra, vstd::seq_lib::group_seq_lib_default;

/// A folder row of the store: id and display name.
#[derive(Debug)]
pub struct FolderRow {
    pub id: String,
    pub name: String,
}

/// The mathematical value of a folder row.
#[verifier::ext_equal]
pub ghost struct FolderRowV {
    pub id: Seq<char>,
    pub name: Seq<char>,
}

impl View for FolderRow {
    type V = FolderRowV;

    open spec fn view(&self) -> FolderRowV {
        FolderRowV { id: self.id@, name: self.name@ }
    }
}

/// One position of the persisted top-level ordering: a board id or a
/// folder id. Order in the store's row sequence is the display order.
#[derive(Debug)]
pub enum IndexRow {
    Board(String),
    Folder(String),
}

/// The mathematical value of an index row.
#[verifier::ext_equal]
pub ghost enum IndexRowV {
    Board(Seq<char>),
    Folder(Seq<char>),
}

impl View for IndexRow {
    type V = IndexRowV;

    open spec fn view(&self) -> IndexRowV {
        match self {
            IndexRow::Board(id) => IndexRowV::Board(id@),
            IndexRow::Folder(id) => IndexRowV::Folder(id@),
        }
    }
}

/// A folder-membership row: the board belongs to the folder. Order among
/// the rows of one folder is the display order inside that folder.
#[derive(Debug)]
pub struct MemberRow {
    pub folder_id: String,
    pub board_id: String,
}

/// The mathematical value of a membership row.
#[verifier::ext_equal]
pub ghost struct MemberRowV {
    pub folder_id: Seq<char>,
    pub board_id: Seq<char>,
}

impl View for MemberRow {
    type V = MemberRowV;

    open spec fn view(&self) -> MemberRowV {
        MemberRowV { folder_id: self.folder_id@, board_id: self.board_id@ }
    }
}

/// A document row: the serialized canvas of one board.
#[derive(Debug)]
pub struct DocRow {
    pub board_id: String,
    pub data: String,
}

/// The mathematical value of a document row.
#[verifier::ext_equal]
pub ghost struct DocRowV {
    pub board_id: Seq<char>,
    pub data: Seq<char>,
}

impl View for DocRow {
    type V = DocRowV;

    open spec fn view(&self) -> DocRowV {
        DocRowV { board_id: self.board_id@, data: self.data@ }
    }
}

/// The full state of the store: every table, plus the two settings the
/// engine uses (the active board id and the migration flag).
#[verifier::ext_equal]
pub ghost struct StoreV {
    pub boards: Seq<BoardV>,
    pub folders: Seq<FolderRowV>,
    pub index: Seq<IndexRowV>,
    pub members: Seq<MemberRowV>,
    pub docs: Seq<DocRowV>,
    pub active: Option<Seq<char>>,
    pub migrated: bool,
}

/// The board store: boards, folders, the ordered index, folder membership,
/// per-board documents, and settings.
#[derive(Debug)]
pub struct Store {
    pub boards: Vec<Board>,
    pub folders: Vec<FolderRow>,
    pub index: Vec<IndexRow>,
    pub members: Vec<MemberRow>,
    pub docs: Vec<DocRow>,
    pub active: Option<String>,
    pub migrated: bool,
}

impl View for Store {
    type V = StoreV;

    open spec fn view(&self) -> StoreV {
        StoreV {
            boards: self.boards@.map_values(|b: Board| b@),
            folders: self.folders@.map_values(|f: FolderRow| f@),
            index: self.index@.map_values(|r: IndexRow| r@),
            members: self.members@.map_values(|m: MemberRow| m@),
            docs: self.docs@.map_values(|d: DocRow| d@),
            active: self.active.deep_view(),
            migrated: self.migrated,
        }
    }
}

/// The first board row with the given id, searching front to back.
pub open spec fn find_board(boards: Seq<BoardV>, id: Seq<char>) -> Option<BoardV>
    decreases boards.len(),
{
    if boards.len() == 0 {
        None
    } else if boards.first().id == id {
        Some(boards.first())
    } else {
        find_board(boards.drop_first(), id)
    }
}

/// Whether a board row with the given id exists.
pub open spec fn has_board(boards: Seq<BoardV>, id: Seq<char>) -> bool {
    find_board(boards, id) is Some
}

/// The first folder row with the given id, searching front to back.
pub open spec fn find_folder(folders: Seq<FolderRowV>, id: Seq<char>) -> Option<FolderRowV>
    decreases folders.len(),
{
    if folders.len() == 0 {
        None
    } else if folders.first().id == id {
        Some(folders.first())
    } else {
        find_folder(folders.drop_first(), id)
    }
}

/// Whether a folder row with the given id exists.
pub open spec fn has_folder(folders: Seq<FolderRowV>, id: Seq<char>) -> bool {
    find_folder(folders, id) is Some
}

/// The first document row for the given board, searching front to back.
pub open spec fn find_doc(docs: Seq<DocRowV>, board_id: Seq<char>) -> Option<DocRowV>
    decreases docs.len(),
{
    if docs.len() == 0 {
        None
    } else if docs.first().board_id == board_id {
        Some(docs.first())
    } else {
        find_doc(docs.drop_first(), board_id)
    }
}

/// The document a board reads back: its stored row, or the default
/// empty-canvas payload when no row was ever saved.
pub open spec fn doc_or_default(docs: Seq<DocRowV>, board_id: Seq<char>) -> Seq<char> {
    match find_doc(docs, board_id) {
        Some(d) => d.data,
        None => crate::spec_default_board_data(),
    }
}

/// All elements of `s` carry pairwise distinct keys.
pub open spec fn distinct_keys<A, K>(s: Seq<A>, key: spec_fn(A) -> K) -> bool {
    forall|i: int, j: int|
        0 <= i < j < s.len() ==> key(#[trigger] s[i]) != key(#[trigger] s[j])
}

/// Well-formedness of a store state: ids are primary keys, documents and
/// membership rows reference existing rows, and no board sits twice in the
/// same folder.
pub open spec fn store_wf(s: StoreV) -> bool {
    &&& distinct_keys(s.boards, |b: BoardV| b.id)
    &&& distinct_keys(s.folders, |f: FolderRowV| f.id)
    &&& distinct_keys(s.docs, |d: DocRowV| d.board_id)
    &&& distinct_keys(s.members, |m: MemberRowV| (m.folder_id, m.board_id))
    &&& forall|i: int|
        0 <= i < s.docs.len() ==> has_board(s.boards, (#[trigger] s.docs[i]).board_id)
    &&& forall|i: int|
        0 <= i < s.members.len() ==> has_board(s.boards, (#[trigger] s.members[i]).board_id)
            && has_folder(s.folders, s.members[i].folder_id)
}

/// `find_board` succeeds exactly when some row carries the id, and then
/// yields the first such row.
pub proof fn lemma_find_board_index(boards: Seq<BoardV>, id: Seq<char>)
    ensures
        match find_board(boards, id) {
            Some(b) => exists|i: int|
                0 <= i < boards.len() && #[trigger] boards[i] == b && boards[i].id == id,
            None => forall|i: int| 0 <= i < boards.len() ==> (#[trigger] boards[i]).id != id,
        },
    decreases boards.len(),
{
    if boards.len() > 0 && boards.first().id != id {
        lemma_find_board_index(boards.drop_first(), id);
        match find_board(boards.drop_first(), id) {
            Some(b) => {
                let i = choose|i: int|
                    0 <= i < boards.drop_first().len() && #[trigger] boards.drop_first()[i] == b
                        && boards.drop_first()[i].id == id;
                assert(boards[i + 1] == b);
            },
            None => {
                assert forall|i: int| 0 <= i < boards.len() implies (#[trigger] boards[i]).id
                    != id by {
                    if i > 0 {
                        assert(boards.drop_first()[i - 1] == boards[i]);
                    }
                }
            },
        }
    }
}

/// `find_folder` succeeds exactly when some row carries the id.
pub proof fn lemma_find_folder_index(folders: Seq<FolderRowV>, id: Seq<char>)
    ensures
        match find_folder(folders, id) {
            Some(f) => exists|i: int|
                0 <= i < folders.len() && #[trigger] folders[i] == f && folders[i].id == id,
            None => forall|i: int| 0 <= i < folders.len() ==> (#[trigger] folders[i]).id != id,
        },
    decreases folders.len(),
{
    if folders.len() > 0 && folders.first().id != id {
        lemma_find_folder_index(folders.drop_first(), id);
        match find_folder(folders.drop_first(), id) {
            Some(f) => {
                let i = choose|i: int|
                    0 <= i < folders.drop_first().len() && #[trigger] folders.drop_first()[i] == f
                        && folders.drop_first()[i].id == id;
                assert(folders[i + 1] == f);
            },
            None => {
                assert forall|i: int| 0 <= i < folders.len() implies (#[trigger] folders[i]).id
                    != id by {
                    if i > 0 {
                        assert(folders.drop_first()[i - 1] == folders[i]);
                    }
                }
            },
        }
    }
}

/// `find_doc` succeeds exactly when some row carries the board id.
pub proof fn lemma_find_doc_index(docs: Seq<DocRowV>, board_id: Seq<char>)
    ensures
        match find_doc(docs, board_id) {
            Some(d) => exists|i: int|
                0 <= i < docs.len() && #[trigger] docs[i] == d && docs[i].board_id == board_id,
            None => forall|i: int|
                0 <= i < docs.len() ==> (#[trigger] docs[i]).board_id != board_id,
        },
    decreases docs.len(),
{
    if docs.len() > 0 && docs.first().board_id != board_id {
        lemma_find_doc_index(docs.drop_first(), board_id);
        match find_doc(docs.drop_first(), board_id) {
            Some(d) => {
                let i = choose|i: int|
                    0 <= i < docs.drop_first().len() && #[trigger] docs.drop_first()[i] == d
                        && docs.drop_first()[i].board_id == board_id;
                assert(docs[i + 1] == d);
            },
            None => {
                assert forall|i: int| 0 <= i < docs.len() implies (#[trigger] docs[i]).board_id
                    != board_id by {
                    if i > 0 {
                        assert(docs.drop_first()[i - 1] == docs[i]);
                    }
                }
            },
        }
    }
}

/// Filtering keeps keys pairwise distinct.
pub proof fn lemma_filter_distinct_keys<A, K>(s: Seq<A>, key: spec_fn(A) -> K, p: spec_fn(A) -> bool)
    requires
        distinct_keys(s, key),
    ensures
        distinct_keys(s.filter(p), key),
    decreases s.len(),
{
    broadcast use vstd::seq_lib::group_filter_ensures;

    let f = s.filter(p);
    assert forall|i: int, j: int| 0 <= i < j < f.len() implies key(#[trigger] f[i]) != key(
        #[trigger] f[j],
    ) by {
        if key(f[i]) == key(f[j]) {
            lemma_filter_two_indexes(s, p, i, j);
        }
    }
}

/// Two distinct positions of a filtered sequence come from two distinct
/// positions of the original.
proof fn lemma_filter_two_indexes<A>(s: Seq<A>, p: spec_fn(A) -> bool, i: int, j: int)
    requires
        0 <= i < j < s.filter(p).len(),
    ensures
        exists|i0: int, j0: int|
            0 <= i0 < j0 < s.len() && #[trigger] s[i0] == s.filter(p)[i] && #[trigger] s[j0]
                == s.filter(p)[j],
    decreases s.len(),
{
    broadcast use vstd::seq_lib::group_filter_ensures;

    if s.len() > 0 {
        let pre = s.drop_last();
        assert(pre.push(s.last()) =~= s);
        if j < s.filter(p).len() - 1 || !p(s.last()) {
            lemma_filter_two_indexes(pre, p, i, j);
            let (i0, j0) = choose|i0: int, j0: int|
                0 <= i0 < j0 < pre.len() && #[trigger] pre[i0] == pre.filter(p)[i]
                    && #[trigger] pre[j0] == pre.filter(p)[j];
            assert(s[i0] == s.filter(p)[i] && s[j0] == s.filter(p)[j]);
        } else {
            // s.last() passes the filter and j names it; i sits in the prefix.
            assert(s.filter(p)[j] == s.last());
            assert(pre.filter(p)[i] == s.filter(p)[i]);
            assert(pre.filter(p).contains(pre.filter(p)[i]));
            assert(pre.contains(pre.filter(p)[i]));
            let i0 = choose|i0: int| 0 <= i0 < pre.len() && pre[i0] == pre.filter(p)[i];
            assert(s[i0] == s.filter(p)[i] && s[s.len() - 1] == s.filter(p)[j]);
        }
    }
}

impl Store {
    /// The store is well-formed; every operation preserves this.
    pub open spec fn wf(&self) -> bool {
        store_wf(self@)
    }

    /// A fresh, empty store on which migration has not run.
    pub fn new() -> (r: Store)
        ensures
            r.wf(),
            r@.boards =~= Seq::<BoardV>::empty(),
            r@.folders =~= Seq::<FolderRowV>::empty(),
            r@.index =~= Seq::<IndexRowV>::empty(),
            r@.members =~= Seq::<MemberRowV>::empty(),
            r@.docs =~= Seq::<DocRowV>::empty(),
            r@.active is None,
            !r@.migrated,
    {
        Store {
            boards: Vec::new(),
            folders: Vec::new(),
            index: Vec::new(),
            members: Vec::new(),
            docs: Vec::new(),
            active: None,
            migrated: false,
        }
    }

    /// Position of the board row with this id, if any.
    pub(crate) fn board_pos(&self, id: &String) -> (r: Option<usize>)
        ensures
            match r {
                Some(i) => i < self@.boards.len() && find_board(self@.boards, id@) == Some(
                    self@.boards[i as int],
                ) && self@.boards[i as int].id == id@,
                None => find_board(self@.boards, id@) is None,
            },
    {
        let n = self.boards.len();
        proof {
            assert(self@.boards.skip(0) =~= self@.boards);
        }
        for i in 0..n
            invariant
                n == self.boards.len(),
                find_board(self@.boards, id@) == find_board(self@.boards.skip(i as int), id@),
                forall|j: int| 0 <= j < i ==> (#[trigger] self@.boards[j]).id != id@,
        {
            if self.boards[i].id == *id {
                assert(self@.boards.skip(i as int).first() == self@.boards[i as int]);
                return Some(i);
            }
            proof {
                assert(self@.boards.skip(i as int).drop_first() =~= self@.boards.skip(i + 1));
            }
        }
        proof {
            assert(self@.boards.skip(n as int) =~= Seq::<BoardV>::empty());
        }
        None
    }

    /// Whether a board with this id exists.
    pub fn has_board(&self, id: &String) -> (r: bool)
        ensures
            r == has_board(self@.boards, id@),
    {
        self.board_pos(id).is_some()
    }

    /// The board row with this id, or `NotFound`.
    pub fn get_board(&self, id: &String) -> (r: Result<Board, StoreError>)
        ensures
            match r {
                Ok(b) => find_board(self@.boards, id@) == Some(b@),
                Err(e) => e == StoreError::NotFound && !has_board(self@.boards, id@),
            },
    {
        match self.board_pos(id) {
            Some(i) => Ok(self.boards[i].clone()),
            None => Err(StoreError::NotFound),
        }
    }

    /// Position of the document row for this board, if any.
    pub(crate) fn doc_pos(&self, board_id: &String) -> (r: Option<usize>)
        ensures
            match r {
                Some(i) => i < self@.docs.len() && find_doc(self@.docs, board_id@) == Some(
                    self@.docs[i as int],
                ) && self@.docs[i as int].board_id == board_id@,
                None => find_doc(self@.docs, board_id@) is None,
            },
    {
        let n = self.docs.len();
        proof {
            assert(self@.docs.skip(0) =~= self@.docs);
        }
        for i in 0..n
            invariant
                n == self.docs.len(),
                find_doc(self@.docs, board_id@) == find_doc(self@.docs.skip(i as int), board_id@),
                forall|j: int| 0 <= j < i ==> (#[trigger] self@.docs[j]).board_id != board_id@,
        {
            if self.docs[i].board_id == *board_id {
                assert(self@.docs.skip(i as int).first() == self@.docs[i as int]);
                return Some(i);
            }
            proof {
                assert(self@.docs.skip(i as int).drop_first() =~= self@.docs.skip(i + 1));
            }
        }
        proof {
            assert(self@.docs.skip(n as int) =~= Seq::<DocRowV>::empty());
        }
        None
    }

    /// Position of the folder row with this id, if any.
    pub(crate) fn folder_pos(&self, id: &String) -> (r: Option<usize>)
        ensures
            match r {
                Some(i) => i < self@.folders.len() && find_folder(self@.folders, id@) == Some(
                    self@.folders[i as int],
                ) && self@.folders[i as int].id == id@,
                None => find_folder(self@.folders, id@) is None,
            },
    {
        let n = self.folders.len();
        proof {
            assert(self@.folders.skip(0) =~= self@.folders);
        }
        for i in 0..n
            invariant
                n == self.folders.len(),
                find_folder(self@.folders, id@) == find_folder(self@.folders.skip(i as int), id@),
                forall|j: int| 0 <= j < i ==> (#[trigger] self@.folders[j]).id != id@,
        {
            if self.folders[i].id == *id {
                assert(self@.folders.skip(i as int).first() == self@.folders[i as int]);
                return Some(i);
            }
            proof {
                assert(self@.folders.skip(i as int).drop_first() =~= self@.folders.skip(i + 1));
            }
        }
        proof {
            assert(self@.folders.skip(n as int) =~= Seq::<FolderRowV>::empty());
        }
        None
    }

    /// The document of a board: its saved blob, the default payload when
    /// none was saved, or `NotFound` when the board itself is absent.
    pub fn load_board_data(&self, board_id: &String) -> (r: Result<String, StoreError>)
        ensures
            match r {
                Ok(d) => has_board(self@.boards, board_id@) && d@ == doc_or_default(
                    self@.docs,
                    board_id@,
                ),
                Err(e) => e == StoreError::NotFound && !has_board(self@.boards, board_id@),
            },
    {
        if let Some(i) = self.doc_pos(board_id) {
            if self.has_board(board_id) {
                return Ok(self.docs[i].data.clone());
            } else {
                return Err(StoreError::NotFound);
            }
        }
        if !self.has_board(board_id) {
            return Err(StoreError::NotFound);
        }
        Ok(crate::default_board_data())
    }

    /// The active board id setting, as stored (not normalized).
    pub fn active_board(&self) -> (r: Option<String>)
        ensures
            r.deep_view() == self@.active,
    {
        match &self.active {
            Some(s) => Some(s.clone()),
            None => None,
        }
    }

    /// Whether the one-time legacy migration has already run.
    pub fn is_migrated(&self) -> (r: bool)
        ensures
            r == self@.migrated,
    {
        self.migrated
    }

    /// Marks this board as the one the UI shows. Fails with `NotFound`,
    /// changing nothing, when no such board exists.
    pub fn set_active_board(&mut self, id: &String) -> (r: Result<(), StoreError>)
        requires
            old(self).wf(),
        ensures
            final(self).wf(),
            match r {
                Ok(()) => has_board(old(self)@.boards, id@) && final(self)@ == StoreV {
                    active: Some(id@),
                    ..old(self)@
                },
                Err(e) => e == StoreError::NotFound && !has_board(old(self)@.boards, id@)
                    && final(self)@ == old(self)@,
            },
    {
        if !self.has_board(id) {
            return Err(StoreError::NotFound);
        }
        self.active = Some(id.clone());
        assert(self@ =~= StoreV { active: Some(id@), ..old(self)@ });
        Ok(())
    }
}

} // verus!
