use vstd::prelude::*;

verus! {

/// A named canvas with its metadata. Timestamps are milliseconds since the
/// Unix epoch; the document blob itself is stored separately, keyed by `id`.
#[derive(Debug)]
pub struct Board {
    pub id: String,
    pub name: String,
    pub created_at: i64,
    pub updated_at: i64,
    pub collaboration_link: Option<String>,
    pub thumbnail: Option<String>,
}

/// The mathematical value of a board: its strings as character sequences.
#[verifier::ext_equal]
pub ghost struct BoardV {
    pub id: Seq<char>,
    pub name: Seq<char>,
    pub created_at: int,
    pub updated_at: int,
    pub collaboration_link: Option<Seq<char>>,
    pub thumbnail: Option<Seq<char>>,
}

impl View for Board {
    type V = BoardV;

    open spec fn view(&self) -> BoardV {
        BoardV {
            id: self.id@,
            name: self.name@,
            created_at: self.created_at as int,
            updated_at: self.updated_at as int,
            collaboration_link: self.collaboration_link.deep_view(),
            thumbnail: self.thumbnail.deep_view(),
        }
    }
}

/// The values of a sequence of boards.
pub open spec fn boards_view(boards: Seq<Board>) -> Seq<BoardV> {
    boards.map_values(|b: Board| b@)
}

/// A named, ordered grouping of boards, as it appears in the board list.
#[derive(Debug)]
pub struct BoardFolder {
    pub id: String,
    pub name: String,
    pub items: Vec<Board>,
}

/// One position of the top-level board list: either a board or a folder.
#[derive(Debug)]
pub enum BoardListItem {
    Board(Board),
    Folder(BoardFolder),
}

/// The ghost shape of one board-list position: folders carry their member
/// boards as a sequence, so that list contents can be compared in contracts.
#[verifier::ext_equal]
pub ghost enum ListItemV {
    Board(BoardV),
    Folder { id: Seq<char>, name: Seq<char>, boards: Seq<BoardV> },
}

impl View for BoardListItem {
    type V = ListItemV;

    open spec fn view(&self) -> ListItemV {
        match self {
            BoardListItem::Board(b) => ListItemV::Board(b@),
            BoardListItem::Folder(f) => ListItemV::Folder {
                id: f.id@,
                name: f.name@,
                boards: boards_view(f.items@),
            },
        }
    }
}

/// The values of a board list.
pub open spec fn items_view(items: Seq<BoardListItem>) -> Seq<ListItemV> {
    items.map_values(|it: BoardListItem| it@)
}

/// The ordered top-level board list together with the active board id.
#[derive(Debug)]
pub struct BoardsIndex {
    pub items: Vec<BoardListItem>,
    pub active_board_id: Option<String>,
}

impl View for BoardsIndex {
    type V = (Seq<ListItemV>, Option<Seq<char>>);

    open spec fn view(&self) -> (Seq<ListItemV>, Option<Seq<char>>) {
        (items_view(self.items@), self.active_board_id.deep_view())
    }
}

/// Why an operation failed: the referenced board has no row, or the
/// underlying store refused the mutation.
#[derive(Debug, Clone, Copy, PartialEq, Eq, Structural)]
pub enum StoreError {
    NotFound,
    StorageFailure,
}

/// One board of an export payload. `data` is the board's document parsed and
/// reprinted in canonical form, or `None` where the stored blob was not
/// well-formed JSON (such a document is exported as null).
#[derive(Debug)]
pub struct BoardsExportEntry {
    pub id: String,
    pub name: String,
    pub created_at: i64,
    pub updated_at: i64,
    pub collaboration_link: Option<String>,
    pub thumbnail: Option<String>,
    pub data: Option<String>,
}

/// The mathematical value of an export entry.
#[verifier::ext_equal]
pub ghost struct ExportEntryV {
    pub id: Seq<char>,
    pub name: Seq<char>,
    pub created_at: int,
    pub updated_at: int,
    pub collaboration_link: Option<Seq<char>>,
    pub thumbnail: Option<Seq<char>>,
    pub data: Option<Seq<char>>,
}

impl View for BoardsExportEntry {
    type V = ExportEntryV;

    open spec fn view(&self) -> ExportEntryV {
        ExportEntryV {
            id: self.id@,
            name: self.name@,
            created_at: self.created_at as int,
            updated_at: self.updated_at as int,
            collaboration_link: self.collaboration_link.deep_view(),
            thumbnail: self.thumbnail.deep_view(),
            data: self.data.deep_view(),
        }
    }
}

/// The values of a sequence of export entries.
pub open spec fn entries_view(entries: Seq<BoardsExportEntry>) -> Seq<ExportEntryV> {
    entries.map_values(|e: BoardsExportEntry| e@)
}

/// How an import batch went: entries created, and entries whose creation
/// failed and were skipped.
#[derive(Debug, Clone, Copy, PartialEq, Eq, Structural)]
pub struct BoardsImportResult {
    pub imported: u64,
    pub skipped: u64,
}

fn clone_opt_string(v: &Option<String>) -> (r: Option<String>)
    ensures
        r == *v,
{
    match v {
        Some(s) => Some(s.clone()),
        None => None,
    }
}

impl Clone for Board {
    fn clone(&self) -> (r: Self)
        ensures
            r == *self,
    {
        Board {
            id: self.id.clone(),
            name: self.name.clone(),
            created_at: self.created_at,
            updated_at: self.updated_at,
            collaboration_link: clone_opt_string(&self.collaboration_link),
            thumbnail: clone_opt_string(&self.thumbnail),
        }
    }
}

impl Clone for BoardFolder {
    fn clone(&self) -> (r: Self)
        ensures
            r.id == self.id,
            r.name == self.name,
            r.items@ =~= self.items@,
    {
        BoardFolder {
            id: self.id.clone(),
            name: self.name.clone(),
            items: clone_boards(&self.items),
        }
    }
}

pub fn clone_boards(v: &Vec<Board>) -> (r: Vec<Board>)
    ensures
        r@ =~= v@,
{
    let mut r: Vec<Board> = Vec::new();
    let n = v.len();
    for i in 0..n
        invariant
            n == v.len(),
            r@ =~= v@.subrange(0, i as int),
    {
        r.push(v[i].clone());
        assert(r@ =~= v@.subrange(0, i + 1 as int));
    }
    r
}

impl Clone for BoardListItem {
    fn clone(&self) -> (r: Self)
        ensures
            r@ == self@,
    {
        match self {
            BoardListItem::Board(b) => BoardListItem::Board(b.clone()),
            BoardListItem::Folder(f) => BoardListItem::Folder(f.clone()),
        }
    }
}


impl Default for BoardsIndex {
    /// An index with no items and no active board.
    fn default() -> (r: Self)
        ensures
            r.items@ =~= Seq::<BoardListItem>::empty(),
            r.active_board_id is None,
    {
        BoardsIndex { items: Vec::new(), active_board_id: None }
    }
}

} // verus!
