//! In-memory application state: book records, the ordered collection with its
//! on-disk mirror's content, the selection cursor, and the edit session.
use vstd::prelude::*;

verus! {

/// A persisted book record. The rating is kept as a count of tenths
/// (100 stands for a rating of 10.0), so that the value is exact.
#[derive(Clone, Debug, PartialEq)]
pub struct Book {
    pub id: u64,
    pub title: String,
    pub author: String,
    pub genre: String,
    pub rating_tenths: u64,
    pub status: String,
}

/// Mathematical model of a record: plain integers and character sequences.
#[verifier::ext_equal]
pub struct BookView {
    pub id: int,
    pub title: Seq<char>,
    pub author: Seq<char>,
    pub genre: Seq<char>,
    pub rating_tenths: int,
    pub status: Seq<char>,
}

impl View for Book {
    type V = BookView;

    open spec fn view(&self) -> BookView {
        BookView {
            id: self.id as int,
            title: self.title@,
            author: self.author@,
            genre: self.genre@,
            rating_tenths: self.rating_tenths as int,
            status: self.status@,
        }
    }
}

/// The models of a sequence of records.
pub open spec fn views(s: Seq<Book>) -> Seq<BookView> {
    s.map_values(|b: Book| b@)
}

/// Which element of the edit overlay receives keystrokes.
#[derive(Debug, Clone, Copy, PartialEq, Eq, Structural)]
pub enum BookEditFocus {
    Title,
    Author,
    ConfirmBtn,
    CancelBtn,
}

/// Whether keys are routed to list navigation or to the edit overlay.
#[derive(Debug, Clone, Copy, PartialEq, Eq, Structural)]
pub enum InputMode {
    Normal,
    Editing,
}

/// Successor in the focus cycle Title -> Author -> ConfirmBtn -> CancelBtn -> Title.
pub open spec fn focus_succ(f: BookEditFocus) -> BookEditFocus {
    match f {
        BookEditFocus::Title => BookEditFocus::Author,
        BookEditFocus::Author => BookEditFocus::ConfirmBtn,
        BookEditFocus::ConfirmBtn => BookEditFocus::CancelBtn,
        BookEditFocus::CancelBtn => BookEditFocus::Title,
    }
}

/// Predecessor in the focus cycle.
pub open spec fn focus_pred(f: BookEditFocus) -> BookEditFocus {
    match f {
        BookEditFocus::Title => BookEditFocus::CancelBtn,
        BookEditFocus::Author => BookEditFocus::Title,
        BookEditFocus::ConfirmBtn => BookEditFocus::Author,
        BookEditFocus::CancelBtn => BookEditFocus::ConfirmBtn,
    }
}

impl BookEditFocus {
    /// Advance focus by one position, wrapping around after the cancel button.
    pub fn next_focus(self) -> (r: BookEditFocus)
        ensures
            r == focus_succ(self),
    {
        match self {
            BookEditFocus::Title => BookEditFocus::Author,
            BookEditFocus::Author => BookEditFocus::ConfirmBtn,
            BookEditFocus::ConfirmBtn => BookEditFocus::CancelBtn,
            BookEditFocus::CancelBtn => BookEditFocus::Title,
        }
    }

    /// Move focus back by one position, wrapping around before the title field.
    pub fn prev_focus(self) -> (r: BookEditFocus)
        ensures
            r == focus_pred(self),
    {
        match self {
            BookEditFocus::Title => BookEditFocus::CancelBtn,
            BookEditFocus::Author => BookEditFocus::Title,
            BookEditFocus::ConfirmBtn => BookEditFocus::Author,
            BookEditFocus::CancelBtn => BookEditFocus::ConfirmBtn,
        }
    }
}

/// Law: the focus order is a cycle over the four elements, and moving back
/// undoes moving forward.
pub proof fn lemma_focus_cycle(f: BookEditFocus)
    ensures
        focus_succ(focus_succ(focus_succ(focus_succ(f)))) == f,
        focus_pred(focus_succ(f)) == f,
        focus_succ(focus_pred(f)) == f,
{
}

/// Transient state for composing a new record.
#[derive(Debug)]
pub struct BookState {
    pub title: String,
    pub author: String,
    pub focus: BookEditFocus,
    pub is_edit: bool,
}

/// Model of an edit session: the two text buffers and the focus position.
#[verifier::ext_equal]
pub struct EditView {
    pub title: Seq<char>,
    pub author: Seq<char>,
    pub focus: BookEditFocus,
    pub is_edit: bool,
}

impl View for BookState {
    type V = EditView;

    open spec fn view(&self) -> EditView {
        EditView {
            title: self.title@,
            author: self.author@,
            focus: self.focus,
            is_edit: self.is_edit,
        }
    }
}

impl Default for BookState {
    /// A fresh session: empty buffers, focus on the title field.
    fn default() -> (r: BookState)
        ensures
            r@.title.len() == 0,
            r@.author.len() == 0,
            r@.focus == BookEditFocus::Title,
            !r@.is_edit,
    {
        BookState {
            title: String::new(),
            author: String::new(),
            focus: BookEditFocus::Title,
            is_edit: false,
        }
    }
}

/// Model of a selection: the index as a mathematical integer.
pub open spec fn sel_view(s: Option<usize>) -> Option<int> {
    match s {
        Some(i) => Some(i as int),
        None => None,
    }
}

/// Ids are strictly increasing along the collection; this is how uniqueness
/// and the freshness of `last + 1` are maintained.
pub open spec fn ids_increasing(bs: Seq<BookView>) -> bool {
    forall|i: int, j: int| 0 <= i < j < bs.len() ==> bs[i].id < bs[j].id
}

/// What `select_next` does: first key selects index 0, later keys advance
/// by one and wrap to 0 at the end; an empty collection is left alone.
pub open spec fn sel_next(sel: Option<int>, len: int) -> Option<int> {
    if len == 0 {
        sel
    } else {
        match sel {
            Some(i) => if i >= len - 1 { Some(0) } else { Some(i + 1) },
            None => Some(0),
        }
    }
}

/// What `select_previous` does: symmetric to `sel_next`, wrapping to the
/// last index from 0.
pub open spec fn sel_prev(sel: Option<int>, len: int) -> Option<int> {
    if len == 0 {
        sel
    } else {
        match sel {
            Some(i) => if i == 0 { Some(len - 1) } else { Some(i - 1) },
            None => Some(0),
        }
    }
}

/// The record a fresh append constructs: the next id, the given texts,
/// empty genre and status, rating 10.0 (one hundred tenths).
pub open spec fn appended_book(items: Seq<BookView>, title: Seq<char>, author: Seq<char>) -> BookView {
    BookView {
        id: if items.len() == 0 { 0 } else { items.last().id + 1 },
        title: title,
        author: author,
        genre: Seq::empty(),
        rating_tenths: 100,
        status: Seq::empty(),
    }
}

/// Whether an append has id headroom: an empty collection starts at 0, a
/// non-empty one needs `last.id + 1` to fit in the id's machine width.
pub open spec fn can_append(items: Seq<BookView>) -> bool {
    items.len() == 0 || items.last().id < u64::MAX
}

/// Selection after removing the record at `removed`: index 0 stays at 0
/// (or clears when the collection became empty), any other index moves to
/// the record just before the removed one.
pub open spec fn reclamped(removed: int, new_len: int) -> Option<int> {
    if new_len == 0 {
        None
    } else if removed == 0 {
        Some(0)
    } else {
        Some(removed - 1)
    }
}

/// Each record's id is below its successor's.
spec fn adj_ids(bs: Seq<BookView>) -> bool {
    forall|k: int| 0 <= k < bs.len() - 1 ==> (#[trigger] bs[k]).id < bs[k + 1].id
}

proof fn lemma_adj_increasing(bs: Seq<BookView>, i: int, j: int)
    requires
        adj_ids(bs),
        0 <= i < j < bs.len(),
    ensures
        bs[i].id < bs[j].id,
    decreases j - i,
{
    if j > i + 1 {
        lemma_adj_increasing(bs, i, j - 1);
        assert(bs[j - 1].id < bs[j].id);
    } else {
        assert(bs[i].id < bs[i + 1].id);
    }
}

/// Whether the ids grow strictly along the collection.
#[verifier::loop_isolation(false)]
pub fn ids_strictly_increasing(v: &Vec<Book>) -> (r: bool)
    ensures
        r == ids_increasing(views(v@)),
{
    if v.len() <= 1 {
        return true;
    }
    let n = v.len();
    let mut i: usize = 0;
    while i < n - 1
        invariant
            n == v.len(),
            n >= 2,
            i <= n - 1,
            forall|k: int| 0 <= k < i ==> (#[trigger] views(v@)[k]).id < views(v@)[k + 1].id,
        decreases n - i,
    {
        let a = v[i].id;
        let b = v[i + 1].id;
        proof {
            assert(views(v@)[i as int] == v@[i as int]@);
            assert(views(v@)[i as int + 1] == v@[i as int + 1]@);
        }
        if a >= b {
            proof {
                assert(views(v@)[i as int].id >= views(v@)[i as int + 1].id);
                assert(!ids_increasing(views(v@)));
            }
            return false;
        }
        i += 1;
    }
    proof {
        assert(adj_ids(views(v@)));
        assert forall|a: int, b: int|
            0 <= a < b < views(v@).len() implies views(v@)[a].id < views(v@)[b].id by {
            lemma_adj_increasing(views(v@), a, b);
        }
    }
    true
}

/// `sel_next` applied `k` times.
pub open spec fn iter_next(sel: Option<int>, len: int, k: nat) -> Option<int>
    decreases k,
{
    if k == 0 {
        sel
    } else {
        sel_next(iter_next(sel, len, (k - 1) as nat), len)
    }
}

/// `sel_prev` applied `k` times.
pub open spec fn iter_prev(sel: Option<int>, len: int, k: nat) -> Option<int>
    decreases k,
{
    if k == 0 {
        sel
    } else {
        sel_prev(iter_prev(sel, len, (k - 1) as nat), len)
    }
}

proof fn lemma_iter_next_pos(i: int, len: int, k: nat)
    requires
        0 <= i < len,
        k <= len,
    ensures
        iter_next(Some(i), len, k) == Some(if i + k < len { i + k } else { i + k - len }),
    decreases k,
{
    if k > 0 {
        lemma_iter_next_pos(i, len, (k - 1) as nat);
    }
}

proof fn lemma_iter_prev_pos(i: int, len: int, k: nat)
    requires
        0 <= i < len,
        k <= len,
    ensures
        iter_prev(Some(i), len, k) == Some(if i - k >= 0 { i - k } else { i - k + len }),
    decreases k,
{
    if k > 0 {
        lemma_iter_prev_pos(i, len, (k - 1) as nat);
    }
}

/// Law: on a non-empty collection of `len` records, advancing the selection
/// `len` times returns it to where it started. (Starting from no selection
/// this fails: the first step selects index 0, so `len` steps end at the
/// last index instead.)
pub proof fn lemma_select_next_cycle(i: int, len: int)
    requires
        0 <= i < len,
    ensures
        iter_next(Some(i), len, len as nat) == Some(i),
{
    lemma_iter_next_pos(i, len, len as nat);
}

/// Law: on a non-empty collection of `len` records, moving the selection
/// back `len` times returns it to where it started.
pub proof fn lemma_select_prev_cycle(i: int, len: int)
    requires
        0 <= i < len,
    ensures
        iter_prev(Some(i), len, len as nat) == Some(i),
{
    lemma_iter_prev_pos(i, len, len as nat);
}

/// Law: on an empty collection, navigation leaves the selection alone, so a
/// cleared selection stays cleared.
pub proof fn lemma_select_empty_noop(sel: Option<int>)
    ensures
        sel_next(sel, 0) == sel,
        sel_prev(sel, 0) == sel,
{
}

/// Law: appending to a collection whose ids increase grows it by exactly
/// one record, whose id is strictly greater than every id already present,
/// and keeps the ids increasing. On an empty collection the append succeeds
/// with the starting id 0.
pub proof fn lemma_append_fresh_id(items: Seq<BookView>, title: Seq<char>, author: Seq<char>)
    requires
        ids_increasing(items),
    ensures
        items.push(appended_book(items, title, author)).len() == items.len() + 1,
        forall|k: int|
            0 <= k < items.len() ==> (#[trigger] items[k]).id < appended_book(
                items,
                title,
                author,
            ).id,
        items.len() == 0 ==> appended_book(items, title, author).id == 0,
        ids_increasing(items.push(appended_book(items, title, author))),
{
    let b = appended_book(items, title, author);
    assert forall|k: int| 0 <= k < items.len() implies (#[trigger] items[k]).id < b.id by {
        if k < items.len() - 1 {
            assert(items[k].id < items[items.len() - 1].id);
        }
    }
    let bs = items.push(b);
    assert forall|i: int, j: int| 0 <= i < j < bs.len() implies bs[i].id < bs[j].id by {
        if j < items.len() {
            assert(items[i].id < items[j].id);
        } else {
            assert(bs[i] == items[i]);
        }
    }
}

/// The application session: the root of the in-memory state.
#[derive(Debug)]
pub struct App {
    pub running: bool,
    pub show_popup: bool,
    pub selected: Option<usize>,
    pub book_edit_state: Option<BookState>,
    pub items: Vec<Book>,
    pub input_mode: InputMode,
}

/// Model of the whole session.
#[verifier::ext_equal]
pub struct AppView {
    pub running: bool,
    pub show_popup: bool,
    pub selected: Option<int>,
    pub edit: Option<EditView>,
    pub items: Seq<BookView>,
    pub input_mode: InputMode,
}

impl View for App {
    type V = AppView;

    open spec fn view(&self) -> AppView {
        AppView {
            running: self.running,
            show_popup: self.show_popup,
            selected: sel_view(self.selected),
            edit: match self.book_edit_state {
                Some(b) => Some(b@),
                None => None,
            },
            items: views(self.items@),
            input_mode: self.input_mode,
        }
    }
}

impl AppView {
    /// Session well-formedness: the selection is in bounds and clears with
    /// the collection, ids increase along the collection, and the overlay
    /// flag, the edit session and the input mode stand or fall together.
    pub open spec fn inv(self) -> bool {
        &&& (match self.selected {
            Some(i) => 0 <= i < self.items.len(),
            None => true,
        })
        &&& (self.items.len() == 0 ==> self.selected is None)
        &&& ids_increasing(self.items)
        &&& (self.show_popup <==> self.edit is Some)
        &&& (self.input_mode is Editing <==> self.edit is Some)
    }
}

impl Default for App {
    /// A fresh session: running, no overlay, nothing selected, no records.
    fn default() -> (r: App)
        ensures
            r@.running,
            !r@.show_popup,
            r@.selected is None,
            r@.edit is None,
            r@.items.len() == 0,
            r@.input_mode == InputMode::Normal,
            r@.inv(),
    {
        let r = App {
            running: true,
            show_popup: false,
            selected: None,
            book_edit_state: None,
            items: Vec::new(),
            input_mode: InputMode::Normal,
        };
        proof {
            assert(views(r.items@) =~= Seq::<BookView>::empty());
        }
        r
    }
}

impl App {
    /// Constructs a new session in its starting state.
    pub fn new() -> (r: App)
        ensures
            r@.running,
            !r@.show_popup,
            r@.selected is None,
            r@.edit is None,
            r@.items.len() == 0,
            r@.input_mode == InputMode::Normal,
            r@.inv(),
    {
        App::default()
    }

    /// Handles the tick event of the render loop; the core state does not change.
    pub fn tick(&self) {
    }

    /// Set running to false to quit the application.
    pub fn quit(&mut self)
        ensures
            final(self)@ == (AppView { running: false, ..old(self)@ }),
    {
        self.running = false;
    }

    /// Advance the selection, wrapping to the top of the list; an empty
    /// collection is left untouched.
    pub fn next(&mut self)
        ensures
            final(self)@ == (AppView { selected: sel_next(old(self)@.selected, old(self)@.items.len() as int), ..old(self)@ }),
    {
        if self.items.len() == 0 {
            return ;
        }
        let i: usize = match self.selected {
            Some(i) => {
                if i >= self.items.len() - 1 {
                    0
                } else {
                    i + 1
                }
            },
            None => 0,
        };
        self.selected = Some(i);
    }

    /// Move the selection back, wrapping to the bottom of the list; an empty
    /// collection is left untouched.
    pub fn previous(&mut self)
        ensures
            final(self)@ == (AppView { selected: sel_prev(old(self)@.selected, old(self)@.items.len() as int), ..old(self)@ }),
    {
        if self.items.len() == 0 {
            return ;
        }
        let i: usize = match self.selected {
            Some(i) => {
                if i == 0 {
                    self.items.len() - 1
                } else {
                    i - 1
                }
            },
            None => 0,
        };
        self.selected = Some(i);
    }

    /// Whether the session invariant holds, decided at run time; callers
    /// outside the library test this before handing the session to a
    /// function that relies on it.
    pub fn invariant_holds(&self) -> (r: bool)
        ensures
            r == self@.inv(),
    {
        let sel_ok = match self.selected {
            Some(i) => i < self.items.len(),
            None => true,
        };
        let empty_ok = if self.items.len() == 0 {
            self.selected.is_none()
        } else {
            true
        };
        let ids_ok = ids_strictly_increasing(&self.items);
        let has_edit = self.book_edit_state.is_some();
        let popup_ok = self.show_popup == has_edit;
        let editing = match self.input_mode {
            InputMode::Editing => true,
            InputMode::Normal => false,
        };
        let mode_ok = editing == has_edit;
        sel_ok && empty_ok && ids_ok && popup_ok && mode_ok
    }

    /// Whether an append has id headroom (always true for an empty collection).
    pub fn may_append(&self) -> (r: bool)
        ensures
            r == can_append(self@.items),
    {
        if self.items.len() == 0 {
            true
        } else {
            let r = self.items[self.items.len() - 1].id < u64::MAX;
            proof {
                assert(views(self.items@).last() == self.items@.last()@);
            }
            r
        }
    }

    /// Append a new record composed from the given texts. An empty collection
    /// starts the ids at 0; otherwise the new record takes the last id plus
    /// one, which under the session invariant is fresh.
    pub fn append(&mut self, title: String, author: String)
        requires
            old(self)@.inv(),
            can_append(old(self)@.items),
        ensures
            final(self)@ == (AppView {
                items: old(self)@.items.push(appended_book(old(self)@.items, title@, author@)),
                ..old(self)@
            }),
            final(self)@.inv(),
    {
        let new_id: u64 = if self.items.len() == 0 {
            0
        } else {
            proof {
                assert(views(self.items@).last() == self.items@.last()@);
            }
            self.items[self.items.len() - 1].id + 1
        };
        let book = Book {
            id: new_id,
            title: title,
            author: author,
            genre: String::new(),
            rating_tenths: 100,
            status: String::new(),
        };
        self.items.push(book);
        proof {
            assert(views(self.items@) =~= old(self)@.items.push(appended_book(old(self)@.items, title@, author@)));
            let bs = final(self)@.items;
            let n = bs.len() - 1;
            assert forall|i: int, j: int| 0 <= i < j < bs.len() implies bs[i].id < bs[j].id by {
                if j < n {
                    assert(old(self)@.items[i].id < old(self)@.items[j].id);
                } else {
                    if i < n {
                        if old(self)@.items.len() > 1 && i < old(self)@.items.len() - 1 {
                            assert(old(self)@.items[i].id < old(self)@.items.last().id);
                        }
                    }
                }
            }
        }
    }

    /// Remove the record at `index` and re-clamp the selection: removing the
    /// top keeps index 0 selected (or clears the selection when the list
    /// became empty); removing anywhere else selects the record just above.
    pub fn remove_at(&mut self, index: usize)
        requires
            old(self)@.inv(),
            index < old(self)@.items.len(),
        ensures
            final(self)@ == (AppView {
                items: old(self)@.items.remove(index as int),
                selected: reclamped(index as int, old(self)@.items.len() - 1),
                ..old(self)@
            }),
            final(self)@.inv(),
    {
        self.items.remove(index);
        if self.items.len() == 0 {
            self.selected = None;
        } else if index == 0 {
            self.selected = Some(0);
        } else {
            self.selected = Some(index - 1);
        }
        proof {
            assert(views(self.items@) =~= old(self)@.items.remove(index as int));
            let bs = final(self)@.items;
            let old_bs = old(self)@.items;
            assert forall|i: int, j: int| 0 <= i < j < bs.len() implies bs[i].id < bs[j].id by {
                let oi = if i < index { i } else { i + 1 };
                let oj = if j < index { j } else { j + 1 };
                assert(bs[i] == old_bs[oi]);
                assert(bs[j] == old_bs[oj]);
                assert(old_bs[oi].id < old_bs[oj].id);
            }
        }
    }
}

} // verus!
